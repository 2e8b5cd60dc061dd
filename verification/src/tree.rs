//! The scanned directory tree and its display-pruned form.
use vstd::prelude::*;

use crate::order::{
    Sized64, insert_pos, is_sorted_desc, lemma_insert_pos_bounds, lemma_sort_desc,
    lemma_sort_desc_ignores_input_order, size_seq, sort_by_size_desc, sort_desc,
};

verus! {

/// One directory in the scanned tree. Children are subdirectories only,
/// sorted by size descending; plain files are aggregated into `size`/`files`.
pub struct DirNode {
    pub name: String,
    pub size: u64,
    pub files: u64,
    pub children: Vec<DirNode>,
}

impl Sized64 for DirNode {
    open spec fn size_of(&self) -> u64 {
        self.size
    }

    fn size(&self) -> (s: u64) {
        self.size
    }
}

/// Sum of the sizes of `s`.
pub open spec fn total_size(s: Seq<DirNode>) -> nat
    decreases s.len(),
{
    if s.len() == 0 {
        0
    } else {
        total_size(s.drop_last()) + s.last().size as nat
    }
}

/// Sum of the file counts of `s`.
pub open spec fn total_files(s: Seq<DirNode>) -> nat
    decreases s.len(),
{
    if s.len() == 0 {
        0
    } else {
        total_files(s.drop_last()) + s.last().files as nat
    }
}

/// Every directory of the tree: its children's sizes add up to at most
/// `u64::MAX` (so that summing them cannot overflow).
pub open spec fn sizes_fit(n: DirNode) -> bool
    decreases n,
{
    &&& total_size(n.children@) <= u64::MAX
    &&& forall|i: int|
        0 <= i < n.children@.len() ==> {
            &&& decreases_to!(n => n.children@[i])
            &&& sizes_fit(#[trigger] n.children@[i])
        }
}

/// Whether every directory of the tree has children whose sizes add up to
/// at most `u64::MAX` (true of every assembled tree).
pub fn tree_sizes_fit(n: &DirNode) -> (b: bool)
    ensures
        b == sizes_fit(*n),
    decreases n,
{
    let mut total: u64 = 0;
    let mut i: usize = 0;
    let mut ok = true;
    while i < n.children.len()
        invariant
            i <= n.children.len(),
            ok ==> total == total_size(n.children@.take(i as int)),
            ok ==> forall|j: int| 0 <= j < i ==> sizes_fit(#[trigger] n.children@[j]),
            !ok ==> !sizes_fit(*n),
        decreases n.children.len() - i,
    {
        proof {
            assert(n.children@.take(i + 1).drop_last() == n.children@.take(i as int));
            lemma_totals_prefix(n.children@, (i + 1) as nat);
        }
        if ok {
            let c = &n.children[i];
            if total > u64::MAX - c.size {
                proof {
                    lemma_totals_monotone(n.children@, (i + 1) as nat, n.children@.len());
                    assert(n.children@.take(n.children@.len() as int) == n.children@);
                }
                ok = false;
            } else {
                total = total + c.size;
                proof {
                    assert(decreases_to!(*n => n.children@[i as int]));
                }
                if !tree_sizes_fit(c) {
                    ok = false;
                }
            }
        }
        i += 1;
    }
    if ok {
        assert(n.children@.take(i as int) == n.children@);
    }
    ok
}

/// A tree as a scan builds it: in every directory the children are
/// ordered largest first, and their sizes and file counts add up to at
/// most the directory's own (the rest being its own files).
pub open spec fn well_assembled(n: DirNode) -> bool
    decreases n,
{
    &&& is_sorted_desc(n.children@)
    &&& total_size(n.children@) <= n.size
    &&& total_files(n.children@) <= n.files
    &&& forall|i: int|
        0 <= i < n.children@.len() ==> {
            &&& decreases_to!(n => n.children@[i])
            &&& well_assembled(#[trigger] n.children@[i])
        }
}

/// A tree as a scan builds it never overflows when its children's sizes
/// are summed again, at any level.
pub proof fn lemma_well_assembled_sizes_fit(n: DirNode)
    requires
        well_assembled(n),
    ensures
        sizes_fit(n),
    decreases n,
{
    assert forall|i: int| 0 <= i < n.children@.len() implies sizes_fit(#[trigger] n.children@[i]) by {
        assert(decreases_to!(n => n.children@[i]));
        lemma_well_assembled_sizes_fit(n.children@[i]);
    }
}

impl DirNode {
    /// A directory that could not be read: nothing counted in it.
    pub fn unreadable(name: String) -> (n: DirNode)
        ensures
            n.name == name,
            n.size == 0,
            n.files == 0,
            n.children@.len() == 0,
            well_assembled(n),
    {
        let n = DirNode { name, size: 0, files: 0, children: Vec::new() };
        assert(n.children@ =~= Seq::<DirNode>::empty());
        n
    }

    /// The node of a directory from the totals of its own files and its
    /// scanned subdirectories: children ordered largest first (stable),
    /// size and file count summed over the files and the children.
    /// `None` when a total does not fit in `u64`.
    pub fn assemble(name: String, file_size: u64, file_count: u64, children: Vec<DirNode>) -> (r:
        Option<DirNode>)
        ensures
            (file_size + total_size(children@) <= u64::MAX && file_count + total_files(children@)
                <= u64::MAX) <==> r is Some,
            r matches Some(n) ==> {
                &&& n.name == name
                &&& n.size == file_size + total_size(children@)
                &&& n.files == file_count + total_files(children@)
                &&& n.children@ == sort_desc(children@)
                &&& is_sorted_desc(n.children@)
                &&& n.children@.to_multiset() == children@.to_multiset()
            },
            (forall|i: int| 0 <= i < children@.len() ==> well_assembled(#[trigger] children@[i]))
                ==> (r matches Some(n) ==> well_assembled(n)),
    {
        let mut size: u64 = file_size;
        let mut files: u64 = file_count;
        let mut i: usize = 0;
        while i < children.len()
            invariant
                i <= children.len(),
                size == file_size + total_size(children@.take(i as int)),
                files == file_count + total_files(children@.take(i as int)),
            decreases children.len() - i,
        {
            proof {
                assert(children@.take(i + 1).drop_last() == children@.take(i as int));
                lemma_totals_prefix(children@, (i + 1) as nat);
            }
            let c = &children[i];
            if size > u64::MAX - c.size || files > u64::MAX - c.files {
                proof {
                    lemma_totals_prefix(children@, children@.len());
                    lemma_totals_monotone(children@, (i + 1) as nat, children@.len() as nat);
                }
                return None;
            }
            size = size + c.size;
            files = files + c.files;
            i += 1;
        }
        assert(children@.take(i as int) == children@);
        proof {
            lemma_sort_desc(children@);
        }
        let ghost kids = children@;
        let children = sort_by_size_desc(children);
        let n = DirNode { name, size, files, children };
        proof {
            lemma_sort_keeps_totals(kids);
            if forall|i: int| 0 <= i < kids.len() ==> well_assembled(#[trigger] kids[i]) {
                broadcast use vstd::seq_lib::group_to_multiset_ensures;
                assert forall|i: int| 0 <= i < n.children@.len() implies well_assembled(
                    #[trigger] n.children@[i],
                ) by {
                    let c = n.children@[i];
                    assert(n.children@.contains(c));
                    assert(n.children@.to_multiset().count(c) > 0);
                    assert(kids.contains(c));
                    let j = choose|j: int| 0 <= j < kids.len() && kids[j] == c;
                    assert(well_assembled(kids[j]));
                }
                assert(well_assembled(n));
            }
        }
        Some(n)
    }
}

proof fn lemma_totals_prefix(s: Seq<DirNode>, k: nat)
    requires
        0 < k <= s.len(),
    ensures
        total_size(s.take(k as int)) == total_size(s.take(k - 1)) + s[k - 1].size,
        total_files(s.take(k as int)) == total_files(s.take(k - 1)) + s[k - 1].files,
{
    assert(s.take(k as int).drop_last() == s.take(k - 1));
}

proof fn lemma_totals_monotone(s: Seq<DirNode>, j: nat, k: nat)
    requires
        j <= k <= s.len(),
    ensures
        total_size(s.take(j as int)) <= total_size(s.take(k as int)),
        total_files(s.take(j as int)) <= total_files(s.take(k as int)),
    decreases k - j,
{
    if j < k {
        lemma_totals_prefix(s, k);
        lemma_totals_monotone(s, j, (k - 1) as nat);
    }
}


// ---------------------------------------------------------------------------
// Pruning for display
// ---------------------------------------------------------------------------

/// Children not shown: how many, and their total size.
pub struct Other {
    pub dirs: usize,
    pub size: u64,
}

/// A display-pruned tree node: at most `top` children per level, at most
/// `depth` levels, entries below `min_size` folded into `other`.
pub struct JsonNode {
    pub name: String,
    pub size: u64,
    pub files: u64,
    pub children: Vec<JsonNode>,
    /// Size of children not shown (folded by top/depth/min_size limits).
    pub other: Option<Other>,
}

/// The mathematical content of a pruned node.
pub ghost struct ShownTree {
    pub name: Seq<char>,
    pub size: u64,
    pub files: u64,
    pub children: Seq<ShownTree>,
    /// `(dirs, size)` of the folded children.
    pub other: Option<(nat, nat)>,
}

pub open spec fn empty_shown() -> ShownTree {
    ShownTree {
        name: Seq::empty(),
        size: 0,
        files: 0,
        children: Seq::empty(),
        other: None,
    }
}

impl JsonNode {
    pub open spec fn shown(self) -> ShownTree
        decreases self,
    {
        ShownTree {
            name: self.name@,
            size: self.size,
            files: self.files,
            children: Seq::new(
                self.children@.len(),
                |i: int|
                    if 0 <= i < self.children@.len() {
                        proof {
                            assert(decreases_to!(self => self.children@[i]));
                        }
                        self.children@[i].shown()
                    } else {
                        empty_shown()
                    },
            ),
            other: match self.other {
                Some(o) => Some((o.dirs as nat, o.size as nat)),
                None => None,
            },
        }
    }
}

/// Whether child `i` of `kids` is shown.
pub open spec fn keeps(kids: Seq<DirNode>, i: int, depth: nat, top: nat, min_size: u64) -> bool {
    depth > 0 && i < top && kids[i].size >= min_size
}

/// Indices, in order, of the shown children among the first `k`.
pub open spec fn kept_indices(kids: Seq<DirNode>, k: nat, depth: nat, top: nat, min_size: u64) -> Seq<
    int,
>
    decreases k,
{
    if k == 0 {
        Seq::empty()
    } else {
        let p = kept_indices(kids, (k - 1) as nat, depth, top, min_size);
        if keeps(kids, k - 1, depth, top, min_size) {
            p.push(k - 1)
        } else {
            p
        }
    }
}

/// Number of folded children among the first `k`.
pub open spec fn folded_count(kids: Seq<DirNode>, k: nat, depth: nat, top: nat, min_size: u64) -> nat
    decreases k,
{
    if k == 0 {
        0
    } else {
        folded_count(kids, (k - 1) as nat, depth, top, min_size) + if keeps(
            kids,
            k - 1,
            depth,
            top,
            min_size,
        ) {
            0nat
        } else {
            1nat
        }
    }
}

/// Total size of the folded children among the first `k`.
pub open spec fn folded_size(kids: Seq<DirNode>, k: nat, depth: nat, top: nat, min_size: u64) -> nat
    decreases k,
{
    if k == 0 {
        0
    } else {
        folded_size(kids, (k - 1) as nat, depth, top, min_size) + if keeps(
            kids,
            k - 1,
            depth,
            top,
            min_size,
        ) {
            0nat
        } else {
            kids[k - 1].size as nat
        }
    }
}

/// The pruned form of `node`: the same name, size and file count; as
/// children, the pruned forms (one level less deep) of the children among
/// the first `top` that are at least `min_size` large, when `depth > 0`;
/// every other child folded into `other` (count and total size), which is
/// absent when nothing was folded.
pub open spec fn prune_spec(node: DirNode, depth: nat, top: nat, min_size: u64) -> ShownTree
    decreases node,
{
    let kids = node.children@;
    let idx = kept_indices(kids, kids.len(), depth, top, min_size);
    let dirs = folded_count(kids, kids.len(), depth, top, min_size);
    ShownTree {
        name: node.name@,
        size: node.size,
        files: node.files,
        children: Seq::new(
            idx.len(),
            |j: int|
                if 0 <= j < idx.len() && 0 <= idx[j] < kids.len() {
                    proof {
                        assert(decreases_to!(node => node.children@[idx[j]]));
                    }
                    prune_spec(kids[idx[j]], (depth - 1) as nat, top, min_size)
                } else {
                    empty_shown()
                },
        ),
        other: if dirs > 0 {
            Some((dirs, folded_size(kids, kids.len(), depth, top, min_size)))
        } else {
            None
        },
    }
}

proof fn lemma_kept_indices_range(kids: Seq<DirNode>, k: nat, depth: nat, top: nat, min_size: u64)
    requires
        k <= kids.len(),
    ensures
        forall|j: int|
            0 <= j < kept_indices(kids, k, depth, top, min_size).len() ==> 0 <= #[trigger] kept_indices(
                kids,
                k,
                depth,
                top,
                min_size,
            )[j] < k,
        kept_indices(kids, k, depth, top, min_size).len() + folded_count(
            kids,
            k,
            depth,
            top,
            min_size,
        ) == k,
    decreases k,
{
    if k > 0 {
        lemma_kept_indices_range(kids, (k - 1) as nat, depth, top, min_size);
    }
}

proof fn lemma_folded_size_bound(kids: Seq<DirNode>, k: nat, depth: nat, top: nat, min_size: u64)
    requires
        k <= kids.len(),
    ensures
        folded_size(kids, k, depth, top, min_size) <= total_size(kids.take(k as int)),
    decreases k,
{
    if k > 0 {
        lemma_folded_size_bound(kids, (k - 1) as nat, depth, top, min_size);
        assert(kids.take(k as int).drop_last() == kids.take(k - 1));
    }
}

/// Prunes `node` for display: at most `depth` levels below it, at most `top`
/// children per level, children below `min_size` folded into `other`.
pub fn prune(node: &DirNode, depth: usize, top: usize, min_size: u64) -> (r: JsonNode)
    requires
        sizes_fit(*node),
    ensures
        r.shown() == prune_spec(*node, depth as nat, top as nat, min_size),
    decreases node,
{
    let ghost kids = node.children@;
    let mut children: Vec<JsonNode> = Vec::new();
    let mut folded_dirs: usize = 0;
    let mut folded: u64 = 0;
    let mut i: usize = 0;
    while i < node.children.len()
        invariant
            i <= node.children.len(),
            kids == node.children@,
            sizes_fit(*node),
            children@.len() == kept_indices(kids, i as nat, depth as nat, top as nat, min_size).len(),
            forall|j: int|
                0 <= j < children@.len() ==> (#[trigger] children@[j]).shown() == prune_spec(
                    kids[kept_indices(kids, i as nat, depth as nat, top as nat, min_size)[j]],
                    (depth - 1) as nat,
                    top as nat,
                    min_size,
                ),
            folded_dirs == folded_count(kids, i as nat, depth as nat, top as nat, min_size),
            folded == folded_size(kids, i as nat, depth as nat, top as nat, min_size),
        decreases node.children.len() - i,
    {
        proof {
            lemma_kept_indices_range(kids, i as nat, depth as nat, top as nat, min_size);
            lemma_folded_size_bound(kids, (i + 1) as nat, depth as nat, top as nat, min_size);
            lemma_totals_monotone(kids, (i + 1) as nat, kids.len());
            assert(kids.take(kids.len() as int) == kids);
        }
        let child = &node.children[i];
        if depth > 0 && i < top && child.size >= min_size {
            proof {
                assert(decreases_to!(*node => node.children@[i as int]));
                assert(sizes_fit(kids[i as int]));
            }
            let c = prune(child, depth - 1, top, min_size);
            children.push(c);
        } else {
            folded_dirs = folded_dirs + 1;
            folded = folded + child.size;
        }
        i += 1;
    }
    let other = if folded_dirs > 0 {
        Some(Other { dirs: folded_dirs, size: folded })
    } else {
        None
    };
    let r = JsonNode { name: node.name.clone(), size: node.size, files: node.files, children, other };
    proof {
        lemma_kept_indices_range(kids, kids.len(), depth as nat, top as nat, min_size);
        assert(r.shown().children =~= prune_spec(*node, depth as nat, top as nat, min_size).children);
    }
    r
}


// ---------------------------------------------------------------------------
// What pruning keeps
// ---------------------------------------------------------------------------

/// Sum of the sizes of pruned nodes.
pub open spec fn shown_total(s: Seq<ShownTree>) -> nat
    decreases s.len(),
{
    if s.len() == 0 {
        0
    } else {
        shown_total(s.drop_last()) + s.last().size as nat
    }
}

/// Size folded into `other` (0 when there is none).
pub open spec fn other_size(t: ShownTree) -> nat {
    match t.other {
        Some((_, size)) => size,
        None => 0,
    }
}

/// Number of children folded into `other` (0 when there is none).
pub open spec fn other_dirs(t: ShownTree) -> nat {
    match t.other {
        Some((dirs, _)) => dirs,
        None => 0,
    }
}

/// Total size of the shown children among the first `k`.
pub open spec fn kept_size(kids: Seq<DirNode>, k: nat, depth: nat, top: nat, min_size: u64) -> nat
    decreases k,
{
    if k == 0 {
        0
    } else {
        kept_size(kids, (k - 1) as nat, depth, top, min_size) + if keeps(
            kids,
            k - 1,
            depth,
            top,
            min_size,
        ) {
            kids[k - 1].size as nat
        } else {
            0nat
        }
    }
}

proof fn lemma_kept_plus_folded(kids: Seq<DirNode>, k: nat, depth: nat, top: nat, min_size: u64)
    requires
        k <= kids.len(),
    ensures
        kept_size(kids, k, depth, top, min_size) + folded_size(kids, k, depth, top, min_size)
            == total_size(kids.take(k as int)),
    decreases k,
{
    if k > 0 {
        lemma_kept_plus_folded(kids, (k - 1) as nat, depth, top, min_size);
        assert(kids.take(k as int).drop_last() == kids.take(k - 1));
    }
}

proof fn lemma_shown_total(
    kids: Seq<DirNode>,
    k: nat,
    depth: nat,
    top: nat,
    min_size: u64,
    c: Seq<ShownTree>,
)
    requires
        k <= kids.len(),
        c.len() == kept_indices(kids, k, depth, top, min_size).len(),
        forall|j: int|
            0 <= j < c.len() ==> (#[trigger] c[j]).size == kids[kept_indices(
                kids,
                k,
                depth,
                top,
                min_size,
            )[j]].size,
    ensures
        shown_total(c) == kept_size(kids, k, depth, top, min_size),
    decreases k,
{
    if k > 0 {
        let p = kept_indices(kids, (k - 1) as nat, depth, top, min_size);
        if keeps(kids, k - 1, depth, top, min_size) {
            let c2 = c.drop_last();
            assert forall|j: int| 0 <= j < c2.len() implies (#[trigger] c2[j]).size == kids[p[j]].size by {
                assert(c2[j] == c[j]);
            }
            lemma_shown_total(kids, (k - 1) as nat, depth, top, min_size, c2);
        } else {
            lemma_shown_total(kids, (k - 1) as nat, depth, top, min_size, c);
        }
    }
}

proof fn lemma_kept_indices_increasing(
    kids: Seq<DirNode>,
    k: nat,
    depth: nat,
    top: nat,
    min_size: u64,
)
    requires
        k <= kids.len(),
    ensures
        forall|a: int, b: int|
            0 <= a < b < kept_indices(kids, k, depth, top, min_size).len() ==> kept_indices(
                kids,
                k,
                depth,
                top,
                min_size,
            )[a] < kept_indices(kids, k, depth, top, min_size)[b],
        forall|j: int|
            0 <= j < kept_indices(kids, k, depth, top, min_size).len() ==> j <= #[trigger] kept_indices(
                kids,
                k,
                depth,
                top,
                min_size,
            )[j] && keeps(kids, kept_indices(kids, k, depth, top, min_size)[j], depth, top, min_size),
    decreases k,
{
    if k > 0 {
        lemma_kept_indices_increasing(kids, (k - 1) as nat, depth, top, min_size);
        lemma_kept_indices_range(kids, (k - 1) as nat, depth, top, min_size);
    }
}

proof fn lemma_folded_none(kids: Seq<DirNode>, k: nat, depth: nat, top: nat, min_size: u64)
    ensures
        folded_count(kids, k, depth, top, min_size) == 0 ==> folded_size(
            kids,
            k,
            depth,
            top,
            min_size,
        ) == 0,
    decreases k,
{
    if k > 0 {
        lemma_folded_none(kids, (k - 1) as nat, depth, top, min_size);
    }
}

/// Sizes always add up: the shown children and the folded ones (`other`)
/// together account for every child of the directory, in number and in
/// size.
pub proof fn lemma_prune_accounts_for_children(node: DirNode, depth: nat, top: nat, min_size: u64)
    ensures
        ({
            let t = prune_spec(node, depth, top, min_size);
            &&& shown_total(t.children) + other_size(t) == total_size(node.children@)
            &&& t.children.len() + other_dirs(t) == node.children@.len()
        }),
{
    let kids = node.children@;
    let k = kids.len();
    let t = prune_spec(node, depth, top, min_size);
    let idx = kept_indices(kids, k, depth, top, min_size);
    lemma_kept_indices_range(kids, k, depth, top, min_size);
    assert forall|j: int| 0 <= j < t.children.len() implies (#[trigger] t.children[j]).size
        == kids[idx[j]].size by {
        assert(0 <= idx[j] < k);
        let x = kids[idx[j]];
        assert(t.children[j] == prune_spec(x, (depth - 1) as nat, top, min_size));
        assert(prune_spec(x, (depth - 1) as nat, top, min_size).size == x.size);
    }
    lemma_folded_none(kids, k, depth, top, min_size);
    lemma_shown_total(kids, k, depth, top, min_size, t.children);
    lemma_kept_plus_folded(kids, k, depth, top, min_size);
    assert(kids.take(k as int) == kids);
}

/// Pruning keeps the largest-first order of the children, shows at most
/// `top` of them, none below `min_size`, and none at depth 0.
pub proof fn lemma_prune_shown_children(node: DirNode, depth: nat, top: nat, min_size: u64)
    ensures
        ({
            let t = prune_spec(node, depth, top, min_size);
            &&& is_sorted_desc(node.children@) ==> forall|a: int, b: int|
                0 <= a < b < t.children.len() ==> t.children[a].size >= t.children[b].size
            &&& forall|j: int| 0 <= j < t.children.len() ==> #[trigger] t.children[j].size >= min_size
            &&& t.children.len() <= top
            &&& depth == 0 ==> t.children.len() == 0
        }),
{
    let kids = node.children@;
    let k = kids.len();
    let t = prune_spec(node, depth, top, min_size);
    let idx = kept_indices(kids, k, depth, top, min_size);
    lemma_kept_indices_range(kids, k, depth, top, min_size);
    lemma_kept_indices_increasing(kids, k, depth, top, min_size);
    assert forall|j: int| 0 <= j < t.children.len() implies (#[trigger] t.children[j]).size
        == kids[idx[j]].size && t.children[j].size >= min_size by {
        assert(0 <= idx[j] < k);
        let x = kids[idx[j]];
        assert(t.children[j] == prune_spec(x, (depth - 1) as nat, top, min_size));
        assert(prune_spec(x, (depth - 1) as nat, top, min_size).size == x.size);
        assert(keeps(kids, idx[j], depth, top, min_size));
    }
    if is_sorted_desc(kids) {
        assert forall|a: int, b: int| 0 <= a < b < t.children.len() implies t.children[a].size
            >= t.children[b].size by {
            assert(t.children[a].size == kids[idx[a]].size);
            assert(t.children[b].size == kids[idx[b]].size);
            assert(idx[a] < idx[b]);
        }
    }
    if t.children.len() > 0 {
        let last = t.children.len() - 1;
        assert(keeps(kids, idx[last], depth, top, min_size));
        assert(last <= idx[last]);
    }
    if depth == 0 && idx.len() > 0 {
        assert(keeps(kids, idx[0], depth, top, min_size));
    }
}


proof fn lemma_kept_indices_has(kids: Seq<DirNode>, k: nat, depth: nat, top: nat, min_size: u64, i: int)
    requires
        k <= kids.len(),
        0 <= i < k,
        keeps(kids, i, depth, top, min_size),
    ensures
        exists|j: int|
            0 <= j < kept_indices(kids, k, depth, top, min_size).len() && #[trigger] kept_indices(
                kids,
                k,
                depth,
                top,
                min_size,
            )[j] == i,
    decreases k,
{
    let p = kept_indices(kids, (k - 1) as nat, depth, top, min_size);
    if i == k - 1 {
        assert(kept_indices(kids, k, depth, top, min_size) == p.push(i));
        assert(kept_indices(kids, k, depth, top, min_size)[p.len() as int] == i);
    } else {
        lemma_kept_indices_has(kids, (k - 1) as nat, depth, top, min_size, i);
        let j = choose|j: int| 0 <= j < p.len() && #[trigger] p[j] == i;
        if keeps(kids, k - 1, depth, top, min_size) {
            assert(kept_indices(kids, k, depth, top, min_size)[j] == p.push(k - 1)[j]);
        }
        assert(kept_indices(kids, k, depth, top, min_size)[j] == i);
    }
}

/// A pruned node describes the directory it shows: its name, its size and
/// its file count are those of the directory, and each shown child is the
/// pruned form, one level less deep, of one of the directory's children
/// with that child's name, size and file count. So at every level a shown directory keeps its own name,
/// size and file count.
pub proof fn lemma_prune_describes_directory(node: DirNode, depth: nat, top: nat, min_size: u64)
    ensures
        ({
            let t = prune_spec(node, depth, top, min_size);
            let kids = node.children@;
            &&& t.name == node.name@
            &&& t.size == node.size
            &&& t.files == node.files
            &&& forall|j: int|
                0 <= j < t.children.len() ==> exists|i: int|
                    0 <= i < kids.len() && #[trigger] t.children[j] == prune_spec(
                        kids[i],
                        (depth - 1) as nat,
                        top,
                        min_size,
                    ) && t.children[j].name == kids[i].name@ && t.children[j].size == kids[i].size
                        && t.children[j].files == kids[i].files
        }),
{
    let kids = node.children@;
    let k = kids.len();
    let t = prune_spec(node, depth, top, min_size);
    let idx = kept_indices(kids, k, depth, top, min_size);
    lemma_kept_indices_range(kids, k, depth, top, min_size);
    lemma_kept_indices_increasing(kids, k, depth, top, min_size);
    assert forall|j: int| 0 <= j < t.children.len() implies exists|i: int|
        0 <= i < kids.len() && #[trigger] t.children[j] == prune_spec(
            kids[i],
            (depth - 1) as nat,
            top,
            min_size,
        ) && t.children[j].name == kids[i].name@ && t.children[j].size == kids[i].size
            && t.children[j].files == kids[i].files by {
        let i = idx[j];
        assert(0 <= i < k);
        assert(t.children[j] == prune_spec(kids[i], (depth - 1) as nat, top, min_size));
    }
}

/// Only what the limits exclude is folded: when `depth > 0`, every child
/// among the first `top` whose size is at least `min_size` (a child exactly
/// at `min_size` included) is shown, as its pruned form one level less deep.
pub proof fn lemma_prune_shows_what_fits(
    node: DirNode,
    depth: nat,
    top: nat,
    min_size: u64,
    i: int,
)
    requires
        depth > 0,
        0 <= i < node.children@.len(),
        i < top,
        node.children@[i].size >= min_size,
    ensures
        ({
            let t = prune_spec(node, depth, top, min_size);
            exists|j: int|
                0 <= j < t.children.len() && #[trigger] t.children[j] == prune_spec(
                    node.children@[i],
                    (depth - 1) as nat,
                    top,
                    min_size,
                )
        }),
{
    let kids = node.children@;
    let k = kids.len();
    let t = prune_spec(node, depth, top, min_size);
    let idx = kept_indices(kids, k, depth, top, min_size);
    lemma_kept_indices_range(kids, k, depth, top, min_size);
    lemma_kept_indices_has(kids, k, depth, top, min_size, i);
    let j = choose|j: int| 0 <= j < idx.len() && #[trigger] idx[j] == i;
    assert(t.children[j] == prune_spec(kids[i], (depth - 1) as nat, top, min_size));
}

// ---------------------------------------------------------------------------
// Sizes of assembled directories
// ---------------------------------------------------------------------------

proof fn lemma_totals_concat(a: Seq<DirNode>, b: Seq<DirNode>)
    ensures
        total_size(a + b) == total_size(a) + total_size(b),
        total_files(a + b) == total_files(a) + total_files(b),
    decreases b.len(),
{
    if b.len() > 0 {
        lemma_totals_concat(a, b.drop_last());
        assert((a + b).drop_last() == a + b.drop_last());
    } else {
        assert(a + b == a);
    }
}

proof fn lemma_totals_insert(s: Seq<DirNode>, p: int, x: DirNode)
    requires
        0 <= p <= s.len(),
    ensures
        total_size(s.insert(p, x)) == total_size(s) + x.size,
        total_files(s.insert(p, x)) == total_files(s) + x.files,
{
    let a = s.take(p);
    let b = s.skip(p);
    assert(s == a + b);
    assert(s.insert(p, x) == a.push(x) + b);
    lemma_totals_concat(a, b);
    lemma_totals_concat(a.push(x), b);
    assert(a.push(x).drop_last() == a);
}

/// Ordering the children changes neither their total size nor their total
/// file count.
pub proof fn lemma_sort_keeps_totals(s: Seq<DirNode>)
    ensures
        total_size(sort_desc(s)) == total_size(s),
        total_files(sort_desc(s)) == total_files(s),
    decreases s.len(),
{
    if s.len() > 0 {
        let t = s.drop_first();
        let rest = sort_desc(t);
        lemma_sort_keeps_totals(t);
        lemma_sort_desc(t);
        let p = insert_pos(rest, s[0]) as int;
        assert(p <= rest.len()) by {
            lemma_insert_pos_bounds(rest, s[0]);
        }
        lemma_totals_insert(rest, p, s[0]);
        lemma_totals_insert(t, 0, s[0]);
        assert(t.insert(0, s[0]) == s);
    }
}


/// Sums over the same children, in any order, agree.
proof fn lemma_totals_ignore_order(a: Seq<DirNode>, b: Seq<DirNode>)
    requires
        a.to_multiset() == b.to_multiset(),
    ensures
        total_size(a) == total_size(b),
        total_files(a) == total_files(b),
    decreases a.len(),
{
    broadcast use vstd::seq_lib::group_to_multiset_ensures;

    if a.len() == 0 {
        assert(b.len() == b.to_multiset().len());
        assert(b =~= Seq::<DirNode>::empty());
    } else {
        let x = a.last();
        let a1 = a.drop_last();
        assert(a1.push(x) == a);
        assert(a.to_multiset() =~= a1.to_multiset().insert(x));
        assert(a.contains(x)) by {
            assert(a[a.len() - 1] == x);
        }
        assert(b.to_multiset().count(x) > 0);
        assert(b.contains(x));
        let j = choose|j: int| 0 <= j < b.len() && b[j] == x;
        let b1 = b.remove(j);
        assert(b1.to_multiset() == b.to_multiset().remove(x));
        assert(a1.to_multiset() =~= a.to_multiset().remove(x));
        lemma_totals_ignore_order(a1, b1);
        assert(b1.insert(j, x) =~= b);
        lemma_totals_insert(b1, j, x);
    }
}

/// The node of a directory does not depend on the order in which its
/// subdirectories were scanned: from the same subdirectories in any order,
/// its size and file count are the same, and its children come out with
/// the same sizes in the same places (only subdirectories of equal size
/// can trade places).
pub proof fn lemma_assemble_ignores_child_order(a: Seq<DirNode>, b: Seq<DirNode>)
    requires
        a.to_multiset() == b.to_multiset(),
    ensures
        total_size(a) == total_size(b),
        total_files(a) == total_files(b),
        size_seq(sort_desc(a)) == size_seq(sort_desc(b)),
        sort_desc(a).to_multiset() == sort_desc(b).to_multiset(),
{
    lemma_totals_ignore_order(a, b);
    lemma_sort_desc_ignores_input_order(a, b);
}

/// Sizes always add up to the parent: for a directory assembled from its
/// own files (`file_size` bytes) and its subdirectories `kids`, the shown
/// children, the folded ones and its own files together make up its size.
pub proof fn lemma_sizes_add_up_to_parent(
    node: DirNode,
    file_size: u64,
    kids: Seq<DirNode>,
    depth: nat,
    top: nat,
    min_size: u64,
)
    requires
        node.children@ == sort_desc(kids),
        node.size == file_size + total_size(kids),
    ensures
        ({
            let t = prune_spec(node, depth, top, min_size);
            shown_total(t.children) + other_size(t) + file_size == t.size
        }),
{
    lemma_prune_accounts_for_children(node, depth, top, min_size);
    lemma_sort_keeps_totals(kids);
}


/// No node of `t` deeper than `d` levels below it has children shown.
pub open spec fn within_depth(t: ShownTree, d: nat) -> bool
    decreases t,
{
    &&& (d == 0 ==> t.children.len() == 0)
    &&& forall|i: int|
        0 <= i < t.children.len() ==> {
            &&& decreases_to!(t => t.children[i])
            &&& within_depth(#[trigger] t.children[i], (d - 1) as nat)
        }
}

/// At most `depth` levels are shown below the pruned directory.
pub proof fn lemma_prune_within_depth(node: DirNode, depth: nat, top: nat, min_size: u64)
    ensures
        within_depth(prune_spec(node, depth, top, min_size), depth),
    decreases node,
{
    let kids = node.children@;
    let k = kids.len();
    let t = prune_spec(node, depth, top, min_size);
    let idx = kept_indices(kids, k, depth, top, min_size);
    lemma_kept_indices_range(kids, k, depth, top, min_size);
    lemma_prune_shown_children(node, depth, top, min_size);
    assert forall|i: int| 0 <= i < t.children.len() implies within_depth(
        #[trigger] t.children[i],
        (depth - 1) as nat,
    ) by {
        assert(0 <= idx[i] < k);
        assert(decreases_to!(node => node.children@[idx[i]]));
        lemma_prune_within_depth(kids[idx[i]], (depth - 1) as nat, top, min_size);
        assert(t.children[i] == prune_spec(kids[idx[i]], (depth - 1) as nat, top, min_size));
    }
}

}
