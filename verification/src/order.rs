//! Ordering by size: the stable "largest first" order used for directory
//! children, the largest files and the found directories.
use vstd::prelude::*;

verus! {

/// Values that carry a byte size.
pub trait Sized64 {
    spec fn size_of(&self) -> u64;

    fn size(&self) -> (s: u64)
        ensures
            s == self.size_of(),
    ;
}

/// Number of leading entries of `sorted` that are strictly larger than `x`.
pub open spec fn insert_pos<T: Sized64>(sorted: Seq<T>, x: T) -> nat
    decreases sorted.len(),
{
    if sorted.len() == 0 || sorted[0].size_of() <= x.size_of() {
        0
    } else {
        1 + insert_pos(sorted.drop_first(), x)
    }
}

/// `s` ordered by size, largest first; entries of equal size keep their order.
pub open spec fn sort_desc<T: Sized64>(s: Seq<T>) -> Seq<T>
    decreases s.len(),
{
    if s.len() == 0 {
        s
    } else {
        let rest = sort_desc(s.drop_first());
        rest.insert(insert_pos(rest, s[0]) as int, s[0])
    }
}

/// Ordered largest first.
pub open spec fn is_sorted_desc<T: Sized64>(s: Seq<T>) -> bool {
    forall|i: int, j: int| 0 <= i < j < s.len() ==> s[i].size_of() >= s[j].size_of()
}

/// Where `x` goes in `sorted`: after the entries larger than it, before
/// the first one that is not.
pub proof fn lemma_insert_pos_bounds<T: Sized64>(sorted: Seq<T>, x: T)
    ensures
        insert_pos(sorted, x) <= sorted.len(),
        forall|i: int| 0 <= i < insert_pos(sorted, x) ==> sorted[i].size_of() > x.size_of(),
        insert_pos(sorted, x) < sorted.len() ==> sorted[insert_pos(sorted, x) as int].size_of()
            <= x.size_of(),
    decreases sorted.len(),
{
    if sorted.len() > 0 && sorted[0].size_of() > x.size_of() {
        lemma_insert_pos_bounds(sorted.drop_first(), x);
        assert forall|i: int| 0 <= i < insert_pos(sorted, x) implies sorted[i].size_of()
            > x.size_of() by {
            if i > 0 {
                assert(sorted[i] == sorted.drop_first()[i - 1]);
            }
        }
    }
}

/// The stable order is ordered largest first and holds the same entries.
pub proof fn lemma_sort_desc<T: Sized64>(s: Seq<T>)
    ensures
        is_sorted_desc(sort_desc(s)),
        sort_desc(s).to_multiset() == s.to_multiset(),
        sort_desc(s).len() == s.len(),
    decreases s.len(),
{
    broadcast use vstd::seq_lib::to_multiset_insert, vstd::seq_lib::to_multiset_len;

    if s.len() > 0 {
        let rest = sort_desc(s.drop_first());
        lemma_sort_desc(s.drop_first());
        lemma_insert_pos_bounds(rest, s[0]);
        let p = insert_pos(rest, s[0]) as int;
        let r = rest.insert(p, s[0]);
        rest.insert_ensures(p, s[0]);
        assert forall|i: int, j: int| 0 <= i < j < r.len() implies r[i].size_of()
            >= r[j].size_of() by {
            if j < p {
            } else if j == p {
            } else if i < p {
                assert(r[j] == rest[j - 1]);
                assert(rest[p].size_of() <= s[0].size_of());
                assert(rest[i].size_of() >= rest[j - 1].size_of());
            } else if i == p {
                assert(r[j] == rest[j - 1]);
                assert(rest[p].size_of() >= rest[j - 1].size_of());
            } else {
                assert(r[i] == rest[i - 1]);
                assert(r[j] == rest[j - 1]);
            }
        }
        assert(s =~= seq![s[0]] + s.drop_first());
        assert(s.to_multiset() == s.drop_first().to_multiset().insert(s[0])) by {
            assert(s.drop_first().insert(0, s[0]) =~= s);
        }
    }
}

/// Orders `v` by size, largest first; entries of equal size keep their order
/// (a stable sort by descending size).
pub fn sort_by_size_desc<T: Sized64>(v: Vec<T>) -> (out: Vec<T>)
    ensures
        out@ == sort_desc(v@),
{
    let ghost orig = v@;
    let mut v = v;
    let mut out: Vec<T> = Vec::new();
    assert(orig.skip(orig.len() as int) =~= Seq::<T>::empty());
    while v.len() > 0
        invariant
            v.len() <= orig.len(),
            v@ == orig.take(v.len() as int),
            out@ == sort_desc(orig.skip(v.len() as int)),
        decreases v.len(),
    {
        let ghost n = v.len();
        let x = v.pop().unwrap();
        assert(x == orig[n - 1]);
        let xs = x.size();
        let mut p: usize = 0;
        assert(out@.skip(0) == out@);
        while p < out.len() && out[p].size() > xs
            invariant
                p <= out.len(),
                insert_pos(out@, x) == p + insert_pos(out@.skip(p as int), x),
                xs == x.size_of(),
            decreases out.len() - p,
        {
            assert(out@.skip(p as int).drop_first() == out@.skip(p + 1));
            p += 1;
        }
        proof {
            let t = orig.skip(n - 1);
            assert(t.drop_first() == orig.skip(n as int));
            assert(t[0] == x);
        }
        out.insert(p, x);
        assert(v@ == orig.take(v.len() as int));
    }
    assert(orig.skip(0) == orig);
    out
}


/// The sizes of `s`, in order.
pub open spec fn size_seq<T: Sized64>(s: Seq<T>) -> Seq<u64> {
    Seq::new(s.len(), |i: int| s[i].size_of())
}

/// Two sequences ordered largest first that hold the same entries have the
/// same sizes in the same places: they differ at most in the order of
/// entries of equal size.
pub proof fn lemma_sorted_same_sizes<T: Sized64>(s: Seq<T>, t: Seq<T>)
    requires
        is_sorted_desc(s),
        is_sorted_desc(t),
        s.to_multiset() == t.to_multiset(),
    ensures
        size_seq(s) == size_seq(t),
    decreases s.len(),
{
    broadcast use vstd::seq_lib::group_to_multiset_ensures;

    assert(s.len() == t.len()) by {
        assert(s.len() == s.to_multiset().len());
        assert(t.len() == t.to_multiset().len());
    }
    if s.len() > 0 {
        let x = s[0];
        assert(s.contains(x));
        assert(s.to_multiset().count(x) > 0);
        assert(t.contains(x));
        let j = choose|j: int| 0 <= j < t.len() && t[j] == x;
        let y = t[0];
        assert(t.contains(y));
        assert(t.to_multiset().count(y) > 0);
        assert(s.contains(y));
        let k = choose|k: int| 0 <= k < s.len() && s[k] == y;
        assert(y.size_of() >= x.size_of()) by {
            if j > 0 {
                assert(t[0].size_of() >= t[j].size_of());
            }
        }
        assert(x.size_of() >= y.size_of()) by {
            if k > 0 {
                assert(s[0].size_of() >= s[k].size_of());
            }
        }
        let s1 = s.remove(0);
        let t1 = t.remove(j);
        assert(s1.to_multiset() == s.to_multiset().remove(x));
        assert(t1.to_multiset() == t.to_multiset().remove(x));
        assert(is_sorted_desc(s1)) by {
            assert forall|a: int, b: int| 0 <= a < b < s1.len() implies s1[a].size_of()
                >= s1[b].size_of() by {
                assert(s1[a] == s[a + 1]);
                assert(s1[b] == s[b + 1]);
            }
        }
        assert(is_sorted_desc(t1)) by {
            assert forall|a: int, b: int| 0 <= a < b < t1.len() implies t1[a].size_of()
                >= t1[b].size_of() by {
                let a2 = if a < j {
                    a
                } else {
                    a + 1
                };
                let b2 = if b < j {
                    b
                } else {
                    b + 1
                };
                assert(t1[a] == t[a2]);
                assert(t1[b] == t[b2]);
            }
        }
        lemma_sorted_same_sizes(s1, t1);
        assert forall|i: int| 0 <= i < s.len() implies #[trigger] size_seq(s)[i] == size_seq(t)[i] by {
            if i == 0 {
            } else {
                assert(size_seq(s)[i] == size_seq(s1)[i - 1]);
                assert(s1[i - 1] == s[i]);
                assert(size_seq(t1)[i - 1] == t1[i - 1].size_of());
                if i - 1 < j {
                    assert(t1[i - 1] == t[i - 1]);
                    assert(t[i - 1].size_of() >= t[i].size_of());
                    assert(t[0].size_of() >= t[i - 1].size_of());
                    assert(t[i].size_of() >= t[j].size_of());
                } else {
                    assert(t1[i - 1] == t[i]);
                }
            }
        }
        assert(size_seq(s) =~= size_seq(t));
    }
}

/// The stable order does not depend on the order of its input beyond
/// entries of equal size: two arrangements of the same entries, ordered,
/// have the same sizes in the same places.
pub proof fn lemma_sort_desc_ignores_input_order<T: Sized64>(a: Seq<T>, b: Seq<T>)
    requires
        a.to_multiset() == b.to_multiset(),
    ensures
        size_seq(sort_desc(a)) == size_seq(sort_desc(b)),
        sort_desc(a).to_multiset() == sort_desc(b).to_multiset(),
{
    lemma_sort_desc(a);
    lemma_sort_desc(b);
    lemma_sorted_same_sizes(sort_desc(a), sort_desc(b));
}

}
