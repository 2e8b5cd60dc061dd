//! The find report: the total size of the matches, how many are shown, and
//! the line that counts the rest.
use vstd::prelude::*;

use crate::scan::FoundDir;
use crate::text::{dec, push_dec, push_str, string_from_chars};

verus! {

/// Sum of the sizes of found directories.
pub open spec fn found_total_spec(s: Seq<FoundDir>) -> nat
    decreases s.len(),
{
    if s.len() == 0 {
        0
    } else {
        found_total_spec(s.drop_last()) + s.last().size as nat
    }
}

proof fn lemma_found_total_monotone(s: Seq<FoundDir>, j: nat, k: nat)
    requires
        j <= k <= s.len(),
    ensures
        found_total_spec(s.take(j as int)) <= found_total_spec(s.take(k as int)),
    decreases k - j,
{
    if j < k {
        assert(s.take(k as int).drop_last() == s.take(k - 1));
        lemma_found_total_monotone(s, j, (k - 1) as nat);
    }
}

/// Total size of all matches; `None` when it does not fit in `u64`.
pub fn found_total(found: &Vec<FoundDir>) -> (r: Option<u64>)
    ensures
        (found_total_spec(found@) <= u64::MAX) <==> r is Some,
        r matches Some(t) ==> t == found_total_spec(found@),
{
    let mut total: u64 = 0;
    let mut i: usize = 0;
    while i < found.len()
        invariant
            i <= found.len(),
            total == found_total_spec(found@.take(i as int)),
        decreases found.len() - i,
    {
        assert(found@.take(i + 1).drop_last() == found@.take(i as int));
        if total > u64::MAX - found[i].size {
            proof {
                lemma_found_total_monotone(found@, (i + 1) as nat, found@.len());
                assert(found@.take(found@.len() as int) == found@);
            }
            return None;
        }
        total = total + found[i].size;
        i += 1;
    }
    assert(found@.take(i as int) == found@);
    Some(total)
}

/// Number of matches shown when at most `top` are: `min(matches, top)`.
pub fn shown_count(matches: usize, top: usize) -> (n: usize)
    ensures
        n == if matches < top {
            matches
        } else {
            top
        },
{
    if matches < top {
        matches
    } else {
        top
    }
}

/// The line below a find report when more matches exist than are shown.
pub fn more_line(hidden: usize) -> (s: String)
    ensures
        s@ == "\u{2026} "@ + dec(hidden as nat) + " more (raise -n to show)"@,
{
    let mut out: Vec<char> = Vec::new();
    push_str(&mut out, "\u{2026} ");
    push_dec(&mut out, hidden as u64);
    push_str(&mut out, " more (raise -n to show)");
    string_from_chars(&out)
}

}
