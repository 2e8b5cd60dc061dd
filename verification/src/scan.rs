//! The decisions of a scan: which entries are skipped or reported, how the
//! parallel work is budgeted, and which files are kept as the largest.
use vstd::prelude::*;

use std::path::PathBuf;

use crate::order::{Sized64, sort_by_size_desc, sort_desc};
use crate::tree::DirNode;

verus! {

/// `std::path::PathBuf`, carried through unread: Verus sees nothing inside a path.
#[verifier::external_type_specification]
#[verifier::external_body]
pub struct ExPathBuf(PathBuf);

/// What a scan looks for besides sizes.
pub struct ScanOptions {
    /// Directory names to skip entirely.
    pub exclude: Vec<String>,
    /// Keep this many largest files (0 = don't track files).
    pub top_files: usize,
    /// Directory names to report as matches (outermost match wins;
    /// matches nested inside another match are not reported separately).
    pub find: Vec<String>,
}

/// The outcome of a scan.
pub struct ScanResult {
    pub root: DirNode,
    pub dirs: u64,
    pub errors: u64,
    pub top_files: Vec<FileEntry>,
    pub found: Vec<FoundDir>,
}

/// A file among the largest ones found.
pub struct FileEntry {
    pub path: PathBuf,
    pub size: u64,
}

/// A directory matched by name during a `find` scan.
pub struct FoundDir {
    pub path: PathBuf,
    pub size: u64,
    pub files: u64,
}

impl Sized64 for FileEntry {
    open spec fn size_of(&self) -> u64 {
        self.size
    }

    fn size(&self) -> (s: u64) {
        self.size
    }
}

impl Sized64 for FoundDir {
    open spec fn size_of(&self) -> u64 {
        self.size
    }

    fn size(&self) -> (s: u64) {
        self.size
    }
}

/// Orders found directories largest first (stable).
pub fn sort_found(found: Vec<FoundDir>) -> (out: Vec<FoundDir>)
    ensures
        out@ == sort_desc(found@),
{
    sort_by_size_desc(found)
}

// ---------------------------------------------------------------------------
// Names
// ---------------------------------------------------------------------------

/// Whether `name` is one of `names` (exact match).
pub fn name_listed(names: &Vec<String>, name: &String) -> (b: bool)
    ensures
        b == exists|i: int| 0 <= i < names@.len() && (#[trigger] names@[i])@ == name@,
{
    let mut i: usize = 0;
    while i < names.len()
        invariant
            i <= names.len(),
            forall|j: int| 0 <= j < i ==> (#[trigger] names@[j])@ != name@,
        decreases names.len() - i,
    {
        if names[i] == *name {
            return true;
        }
        i += 1;
    }
    false
}

/// Whether a subdirectory called `name` is skipped entirely (`--exclude`).
pub fn is_excluded(exclude: &Vec<String>, name: &String) -> (b: bool)
    ensures
        b == exists|i: int| 0 <= i < exclude@.len() && (#[trigger] exclude@[i])@ == name@,
{
    name_listed(exclude, name)
}

/// For a subdirectory called `name` of a directory scanned with
/// `report_matches`: whether it is reported as a match, and whether
/// matches are still reported inside it. The outermost match wins: nothing
/// inside a match is reported separately.
pub fn match_child(find: &Vec<String>, report_matches: bool, name: &String) -> (r: (bool, bool))
    ensures
        r.0 == (report_matches && exists|i: int|
            0 <= i < find@.len() && (#[trigger] find@[i])@ == name@),
        r.1 == (report_matches && !r.0),
{
    let is_match = report_matches && name_listed(find, name);
    (is_match, report_matches && !is_match)
}

/// The plain files of one directory: their total size and number.
#[derive(PartialEq, Eq, Structural)]
pub struct FileTally {
    pub size: u64,
    pub count: u64,
}

impl FileTally {
    pub fn new() -> (t: FileTally)
        ensures
            t.size == 0,
            t.count == 0,
    {
        FileTally { size: 0, count: 0 }
    }

    /// Counts a file of `size` bytes; `false` (and nothing counted) when a
    /// total would exceed `u64::MAX`.
    pub fn add(&mut self, size: u64) -> (ok: bool)
        ensures
            ok == (old(self).size + size <= u64::MAX && old(self).count + 1 <= u64::MAX),
            ok ==> final(self).size == old(self).size + size && final(self).count == old(self).count
                + 1,
            !ok ==> *final(self) == *old(self),
    {
        if self.size > u64::MAX - size || self.count == u64::MAX {
            return false;
        }
        self.size = self.size + size;
        self.count = self.count + 1;
        true
    }
}

/// What reading one entry of a directory gave.
pub enum EntryEvent {
    /// The entry or its type could not be read.
    Unreadable,
    /// A subdirectory (not a link to one).
    Directory { path: PathBuf, name: String },
    /// A plain file; `size` is `None` when its metadata could not be read.
    File { path: PathBuf, size: Option<u64> },
    /// A symbolic link or another special entry.
    Other,
}

/// What the walk does after an entry has been counted.
pub enum EntryAction {
    /// Nothing more.
    Nothing,
    /// Offer the file to the largest-files collection.
    Offer { path: PathBuf, size: u64 },
    /// The files' total no longer fits in `u64`.
    Overflow,
}

/// The entries of one directory read so far: its files' totals, the
/// subdirectories to scan and the entries that could not be read.
pub struct DirScan {
    pub tally: FileTally,
    pub subdirs: Vec<(PathBuf, String)>,
    pub errors: u64,
}

impl DirScan {
    pub fn new() -> (d: DirScan)
        ensures
            d.tally.size == 0,
            d.tally.count == 0,
            d.subdirs@.len() == 0,
            d.errors == 0,
    {
        DirScan { tally: FileTally::new(), subdirs: Vec::new(), errors: 0 }
    }

    /// Counts one entry: unreadable entries and files count as errors,
    /// subdirectories not excluded by name are queued for scanning, files
    /// add to the totals (and are offered when `track_files`), links and
    /// other special entries are never followed nor counted.
    pub fn on_entry(&mut self, event: EntryEvent, exclude: &Vec<String>, track_files: bool) -> (a:
        EntryAction)
        requires
            old(self).errors < u64::MAX,
        ensures
            match event {
                EntryEvent::Unreadable => {
                    &&& final(self).errors == old(self).errors + 1
                    &&& final(self).tally == old(self).tally
                    &&& final(self).subdirs@ == old(self).subdirs@
                    &&& a is Nothing
                },
                EntryEvent::Directory { path, name } => {
                    &&& final(self).errors == old(self).errors
                    &&& final(self).tally == old(self).tally
                    &&& final(self).subdirs@ == if exists|i: int|
                        0 <= i < exclude@.len() && (#[trigger] exclude@[i])@ == name@ {
                        old(self).subdirs@
                    } else {
                        old(self).subdirs@.push((path, name))
                    }
                    &&& a is Nothing
                },
                EntryEvent::File { path, size: None } => {
                    &&& final(self).errors == old(self).errors + 1
                    &&& final(self).tally == old(self).tally
                    &&& final(self).subdirs@ == old(self).subdirs@
                    &&& a is Nothing
                },
                EntryEvent::File { path, size: Some(size) } => {
                    &&& final(self).errors == old(self).errors
                    &&& final(self).subdirs@ == old(self).subdirs@
                    &&& if old(self).tally.size + size <= u64::MAX && old(self).tally.count + 1
                        <= u64::MAX {
                        &&& final(self).tally.size == old(self).tally.size + size
                        &&& final(self).tally.count == old(self).tally.count + 1
                        &&& if track_files {
                            a == (EntryAction::Offer { path, size })
                        } else {
                            a is Nothing
                        }
                    } else {
                        &&& final(self).tally == old(self).tally
                        &&& a is Overflow
                    }
                },
                EntryEvent::Other => {
                    &&& final(self).errors == old(self).errors
                    &&& final(self).tally == old(self).tally
                    &&& final(self).subdirs@ == old(self).subdirs@
                    &&& a is Nothing
                },
            },
    {
        match event {
            EntryEvent::Unreadable => {
                self.errors = self.errors + 1;
                EntryAction::Nothing
            },
            EntryEvent::Directory { path, name } => {
                if !is_excluded(exclude, &name) {
                    self.subdirs.push((path, name));
                }
                EntryAction::Nothing
            },
            EntryEvent::File { path, size: None } => {
                self.errors = self.errors + 1;
                EntryAction::Nothing
            },
            EntryEvent::File { path, size: Some(size) } => {
                if self.tally.add(size) {
                    if track_files {
                        EntryAction::Offer { path, size }
                    } else {
                        EntryAction::Nothing
                    }
                } else {
                    EntryAction::Overflow
                }
            },
            EntryEvent::Other => EntryAction::Nothing,
        }
    }
}

// ---------------------------------------------------------------------------
// Parallel work budget
// ---------------------------------------------------------------------------

/// Directories scanned per tuning window.
pub const TUNE_WINDOW: u64 = 2048;

/// Number of threads of the current rayon pool
/// (`rayon::current_num_threads`). Its source takes the configured or
/// detected count, at least 1, capped at rayon's thread limit (65535 at
/// most); which count is in force depends on the environment, so only those
/// bounds are stated.
#[verifier::external_body]
fn current_num_threads() -> (n: usize)
    ensures
        1 <= n <= 65535,
{
    rayon::current_num_threads()
}

/// The bounds of the in-flight budget for `threads` threads:
/// `(threads, 64 * threads)`.
pub fn bounds_for(threads: usize) -> (r: (usize, usize))
    requires
        1 <= threads <= 65535,
    ensures
        r == (threads, (64 * threads) as usize),
        1 <= r.0 <= r.1,
{
    (threads, threads * 64)
}

/// The bounds of the in-flight budget for the current thread pool.
pub fn budget_bounds() -> (r: (usize, usize))
    ensures
        1 <= r.0 <= r.1,
        r.1 == 64 * r.0,
{
    bounds_for(current_num_threads())
}

/// The budget a scan starts with for `threads` threads: four tasks each.
pub fn initial_budget_for(threads: usize) -> (b: usize)
    requires
        threads <= 65535,
    ensures
        b == 4 * threads,
{
    threads * 4
}

/// The budget a scan starts with: four tasks per thread of the current pool.
pub fn initial_budget() -> (b: usize)
    ensures
        4 <= b <= 4 * 65535,
        b % 4 == 0,
{
    initial_budget_for(current_num_threads())
}

/// Whether the subdirectories of a directory are scanned as parallel tasks:
/// only when there are several and they fit in the in-flight budget.
pub fn should_fork(subdirs: usize, inflight: usize, max_inflight: usize) -> (b: bool)
    ensures
        b == (subdirs > 1 && inflight + subdirs <= max_inflight),
{
    subdirs > 1 && inflight <= max_inflight && subdirs <= max_inflight - inflight
}

/// Whether the `dirs`-th scanned directory ends a tuning window.
pub fn ends_window(dirs: u64) -> (b: bool)
    ensures
        b == (dirs % TUNE_WINDOW == 0),
{
    dirs % TUNE_WINDOW == 0
}

/// Hill-climbing controller for the in-flight budget: every window of
/// scanned directories, compare throughput (dirs/sec) with the previous
/// window; keep moving the budget in the same direction while throughput
/// improves, reverse direction when it degrades.
pub struct Tuner {
    /// Directories counted when the current window started.
    pub window_start_dirs: u64,
    /// Throughput of the previous window, as (directories, nanoseconds).
    pub prev_rate: Option<(u64, u64)>,
    /// Whether the budget is currently being raised.
    pub increasing: bool,
}

/// `x` clamped to `[lo, hi]`.
pub open spec fn clamp_spec(x: int, lo: int, hi: int) -> int {
    if x < lo {
        lo
    } else if x > hi {
        hi
    } else {
        x
    }
}

/// Whether `a` directories in `a_ns` nanoseconds is slower than `b` in `b_ns`.
pub open spec fn slower(a: nat, a_ns: nat, b: nat, b_ns: nat) -> bool {
    a * b_ns < b * a_ns
}

/// The next budget: up by half while increasing, down by a quarter while
/// decreasing, kept within `[lo, hi]`.
pub open spec fn next_budget(current: nat, increasing: bool, lo: nat, hi: nat) -> nat {
    if increasing {
        clamp_spec((current + current / 2) as int, lo as int, hi as int) as nat
    } else {
        clamp_spec((current - current / 4) as int, lo as int, hi as int) as nat
    }
}

impl Tuner {
    /// A tuner at the start of a scan, raising the budget.
    pub fn new() -> (t: Tuner)
        ensures
            t.window_start_dirs == 0,
            t.prev_rate is None,
            t.increasing,
    {
        Tuner { window_start_dirs: 0, prev_rate: None, increasing: true }
    }

    /// One tuning step after `dirs` directories, `elapsed_ns` nanoseconds
    /// after the current window started, with budget `current` and bounds
    /// `[lo, hi]`. Nothing happens (`None`) until the window holds
    /// `TUNE_WINDOW` directories and some time has passed, nor for a count
    /// `dirs` taken before the current window started. Otherwise the
    /// direction flips when this window was slower than the previous one,
    /// the new budget is returned, and a new window starts here (the caller
    /// restarts its clock).
    pub fn tick(&mut self, dirs: u64, elapsed_ns: u64, current: usize, lo: usize, hi: usize) -> (r:
        Option<usize>)
        requires
            lo <= hi,
            current + current / 2 <= usize::MAX,
        ensures
            ({
                let scanned = dirs - old(self).window_start_dirs;
                if dirs < old(self).window_start_dirs || scanned < TUNE_WINDOW || elapsed_ns == 0 {
                    r is None && *final(self) == *old(self)
                } else {
                    let flip = match old(self).prev_rate {
                        Some((d, ns)) => slower(scanned as nat, elapsed_ns as nat, d as nat, ns as nat),
                        None => false,
                    };
                    let inc = if flip {
                        !old(self).increasing
                    } else {
                        old(self).increasing
                    };
                    &&& final(self).increasing == inc
                    &&& r == Some(next_budget(current as nat, inc, lo as nat, hi as nat) as usize)
                    &&& final(self).prev_rate == Some((scanned as u64, elapsed_ns))
                    &&& final(self).window_start_dirs == dirs
                }
            }),
            r matches Some(b) ==> lo <= b <= hi,
    {
        if dirs < self.window_start_dirs {
            return None;
        }
        let scanned = dirs - self.window_start_dirs;
        if scanned < TUNE_WINDOW || elapsed_ns == 0 {
            return None;
        }
        if let Some((d, ns)) = self.prev_rate {
            assert((scanned as u128) * (ns as u128) <= 0xffff_ffff_ffff_ffff * 0xffff_ffff_ffff_ffff)
                by (nonlinear_arith)
                requires
                    scanned <= 0xffff_ffff_ffff_ffff,
                    ns <= 0xffff_ffff_ffff_ffff,
            ;
            assert((d as u128) * (elapsed_ns as u128) <= 0xffff_ffff_ffff_ffff * 0xffff_ffff_ffff_ffff)
                by (nonlinear_arith)
                requires
                    d <= 0xffff_ffff_ffff_ffff,
                    elapsed_ns <= 0xffff_ffff_ffff_ffff,
            ;
            if (scanned as u128) * (ns as u128) < (d as u128) * (elapsed_ns as u128) {
                self.increasing = !self.increasing;
            }
        }
        let raw = if self.increasing {
            current + current / 2
        } else {
            current - current / 4
        };
        let next = if raw < lo {
            lo
        } else if raw > hi {
            hi
        } else {
            raw
        };
        self.prev_rate = Some((scanned, elapsed_ns));
        self.window_start_dirs = dirs;
        Some(next)
    }
}

// ---------------------------------------------------------------------------
// The largest files
// ---------------------------------------------------------------------------

/// Smallest size in `s` (0 for an empty sequence).
pub open spec fn min_size(s: Seq<FileEntry>) -> u64
    decreases s.len(),
{
    if s.len() == 0 {
        0
    } else if s.len() == 1 {
        s[0].size
    } else {
        let m = min_size(s.drop_last());
        if s.last().size < m {
            s.last().size
        } else {
            m
        }
    }
}

/// Index of the first entry of smallest size.
pub open spec fn min_index(s: Seq<FileEntry>) -> int
    decreases s.len(),
{
    if s.len() <= 1 {
        0
    } else {
        let i = min_index(s.drop_last());
        if s.last().size < s[i].size {
            s.len() - 1
        } else {
            i
        }
    }
}

proof fn lemma_min_index(s: Seq<FileEntry>)
    requires
        s.len() > 0,
    ensures
        0 <= min_index(s) < s.len(),
        s[min_index(s)].size == min_size(s),
        forall|j: int| 0 <= j < s.len() ==> min_size(s) <= #[trigger] s[j].size,
        forall|j: int| 0 <= j < min_index(s) ==> min_size(s) < #[trigger] s[j].size,
    decreases s.len(),
{
    if s.len() > 1 {
        let t = s.drop_last();
        lemma_min_index(t);
        assert forall|j: int| 0 <= j < s.len() implies min_size(s) <= #[trigger] s[j].size by {
            if j < s.len() - 1 {
                assert(s[j] == t[j]);
            }
        }
        assert forall|j: int| 0 <= j < min_index(s) implies min_size(s) < #[trigger] s[j].size by {
            if j < s.len() - 1 {
                assert(s[j] == t[j]);
            }
        }
    }
}

/// Whether every file of size `v` offered so far is sure to be among
/// `entries` (capacity `cap`): all of them while the collection is not
/// full, then those larger than its smallest entry.
pub open spec fn keeps_size(entries: Seq<FileEntry>, cap: nat, v: u64) -> bool {
    entries.len() < cap || v > min_size(entries)
}

/// The files kept after offering `x` to `e` (capacity `cap`): appended while
/// there is room, whatever its size; once full, in place of the first
/// smallest entry when it is larger than that entry. Capacity 0 keeps
/// nothing.
pub open spec fn offer_spec(e: Seq<FileEntry>, cap: nat, x: FileEntry) -> Seq<FileEntry> {
    if cap == 0 {
        e
    } else if e.len() < cap {
        e.push(x)
    } else if x.size > min_size(e) {
        e.update(min_index(e), x)
    } else {
        e
    }
}

/// The files kept after offering each of `xs` in turn to an empty collection.
pub open spec fn offer_all(cap: nat, xs: Seq<FileEntry>) -> Seq<FileEntry>
    decreases xs.len(),
{
    if xs.len() == 0 {
        Seq::empty()
    } else {
        offer_spec(offer_all(cap, xs.drop_last()), cap, xs.last())
    }
}

/// Number of entries of `s` of size `v`.
pub open spec fn count_size(s: Seq<FileEntry>, v: u64) -> nat
    decreases s.len(),
{
    if s.len() == 0 {
        0
    } else {
        count_size(s.drop_last(), v) + if s.last().size == v {
            1nat
        } else {
            0nat
        }
    }
}

proof fn lemma_count_size_update(s: Seq<FileEntry>, m: int, x: FileEntry, v: u64)
    requires
        0 <= m < s.len(),
    ensures
        count_size(s.update(m, x), v) + (if s[m].size == v {
            1nat
        } else {
            0nat
        }) == count_size(s, v) + (if x.size == v {
            1nat
        } else {
            0nat
        }),
    decreases s.len(),
{
    let t = s.update(m, x);
    if m == s.len() - 1 {
        assert(t.drop_last() == s.drop_last());
    } else {
        lemma_count_size_update(s.drop_last(), m, x, v);
        assert(t.drop_last() == s.drop_last().update(m, x));
    }
}

proof fn lemma_offer_step(e: Seq<FileEntry>, xs: Seq<FileEntry>, cap: nat, x: FileEntry)
    requires
        cap > 0,
        e.len() == if xs.len() < cap {
            xs.len()
        } else {
            cap
        },
        forall|v: u64| #[trigger] count_size(e, v) <= count_size(xs, v),
        forall|v: u64| keeps_size(e, cap, v) ==> #[trigger] count_size(e, v) == count_size(xs, v),
    ensures
        ({
            let e2 = offer_spec(e, cap, x);
            let xs2 = xs.push(x);
            &&& e2.len() == if xs2.len() < cap {
                xs2.len()
            } else {
                cap
            }
            &&& forall|v: u64| #[trigger] count_size(e2, v) <= count_size(xs2, v)
            &&& forall|v: u64| keeps_size(e2, cap, v) ==> #[trigger] count_size(e2, v)
                == count_size(xs2, v)
        }),
{
    let e2 = offer_spec(e, cap, x);
    let xs2 = xs.push(x);
    assert(xs2.drop_last() == xs);
    assert forall|v: u64| #[trigger] count_size(xs2, v) == count_size(xs, v) + (if x.size == v {
        1nat
    } else {
        0nat
    }) by {}
    if e.len() < cap {
        assert(e2.drop_last() == e);
        assert forall|v: u64| #[trigger] count_size(e2, v) == count_size(e, v) + (if x.size == v {
            1nat
        } else {
            0nat
        }) by {}
        assert forall|v: u64| keeps_size(e2, cap, v) implies #[trigger] count_size(e2, v)
            == count_size(xs2, v) by {
            assert(keeps_size(e, cap, v));
        }
    } else if x.size > min_size(e) {
        let m = min_index(e);
        lemma_min_index(e);
        lemma_min_index(e2);
        let m2 = min_index(e2);
        assert(min_size(e) <= min_size(e2)) by {
            if m2 != m {
                assert(e2[m2] == e[m2]);
            }
        }
        assert forall|v: u64| #[trigger] count_size(e2, v) <= count_size(xs2, v) by {
            lemma_count_size_update(e, m, x, v);
        }
        assert forall|v: u64| keeps_size(e2, cap, v) implies #[trigger] count_size(e2, v)
            == count_size(xs2, v) by {
            lemma_count_size_update(e, m, x, v);
            assert(keeps_size(e, cap, v));
        }
    } else {
        assert forall|v: u64| keeps_size(e2, cap, v) implies #[trigger] count_size(e2, v)
            == count_size(xs2, v) by {
            assert(count_size(xs2, v) == count_size(xs, v));
        }
    }
}

/// The largest files are kept: after any sequence of offers to a
/// collection of capacity `cap`, it holds `min(cap, offers)` files, each
/// of them offered; while it is not full it holds every file offered, and
/// once full every offered file larger than its smallest entry. Counted by
/// size, with repetitions.
pub proof fn lemma_top_files_keep_largest(cap: nat, xs: Seq<FileEntry>)
    requires
        cap > 0,
    ensures
        ({
            let r = offer_all(cap, xs);
            &&& r.len() == if xs.len() < cap {
                xs.len()
            } else {
                cap
            }
            &&& forall|v: u64| #[trigger] count_size(r, v) <= count_size(xs, v)
            &&& forall|v: u64| keeps_size(r, cap, v) ==> #[trigger] count_size(r, v)
                == count_size(xs, v)
        }),
    decreases xs.len(),
{
    if xs.len() > 0 {
        lemma_top_files_keep_largest(cap, xs.drop_last());
        lemma_offer_step(offer_all(cap, xs.drop_last()), xs.drop_last(), cap, xs.last());
        assert(xs.drop_last().push(xs.last()) == xs);
    }
}

/// Number of entries of `s` larger than `m`.
pub open spec fn count_above(s: Seq<FileEntry>, m: u64) -> nat
    decreases s.len(),
{
    if s.len() == 0 {
        0
    } else {
        count_above(s.drop_last(), m) + if s.last().size > m {
            1nat
        } else {
            0nat
        }
    }
}

proof fn lemma_counts_concat(a: Seq<FileEntry>, b: Seq<FileEntry>, v: u64)
    ensures
        count_size(a + b, v) == count_size(a, v) + count_size(b, v),
        count_above(a + b, v) == count_above(a, v) + count_above(b, v),
    decreases b.len(),
{
    if b.len() > 0 {
        lemma_counts_concat(a, b.drop_last(), v);
        assert((a + b).drop_last() == a + b.drop_last());
    } else {
        assert(a + b == a);
    }
}

proof fn lemma_counts_insert(s: Seq<FileEntry>, p: int, x: FileEntry, v: u64)
    requires
        0 <= p <= s.len(),
    ensures
        count_size(s.insert(p, x), v) == count_size(s, v) + (if x.size == v {
            1nat
        } else {
            0nat
        }),
        count_above(s.insert(p, x), v) == count_above(s, v) + (if x.size > v {
            1nat
        } else {
            0nat
        }),
{
    let a = s.take(p);
    let b = s.skip(p);
    assert(s == a + b);
    assert(s.insert(p, x) == a.push(x) + b);
    lemma_counts_concat(a, b, v);
    lemma_counts_concat(a.push(x), b, v);
    assert(a.push(x).drop_last() == a);
}

/// Offers of the same files, in any order, count the same sizes.
proof fn lemma_count_ignores_order(a: Seq<FileEntry>, b: Seq<FileEntry>, v: u64)
    requires
        a.to_multiset() == b.to_multiset(),
    ensures
        count_size(a, v) == count_size(b, v),
        a.len() == b.len(),
    decreases a.len(),
{
    broadcast use vstd::seq_lib::group_to_multiset_ensures;

    assert(a.len() == a.to_multiset().len());
    assert(b.len() == b.to_multiset().len());
    if a.len() > 0 {
        let x = a.last();
        let a1 = a.drop_last();
        assert(a1.push(x) == a);
        assert(a.contains(x)) by {
            assert(a[a.len() - 1] == x);
        }
        assert(b.to_multiset().count(x) > 0);
        assert(b.contains(x));
        let j = choose|j: int| 0 <= j < b.len() && b[j] == x;
        let b1 = b.remove(j);
        assert(b1.to_multiset() == b.to_multiset().remove(x));
        assert(a1.to_multiset() =~= a.to_multiset().remove(x));
        lemma_count_ignores_order(a1, b1, v);
        assert(b1.insert(j, x) =~= b);
        lemma_counts_insert(b1, j, x, v);
    }
}

proof fn lemma_count_has(s: Seq<FileEntry>, v: u64)
    requires
        count_size(s, v) > 0,
    ensures
        exists|j: int| 0 <= j < s.len() && (#[trigger] s[j]).size == v,
    decreases s.len(),
{
    if s.last().size != v {
        lemma_count_has(s.drop_last(), v);
        let j = choose|j: int| 0 <= j < s.drop_last().len() && (#[trigger] s.drop_last()[j]).size
            == v;
        assert(s[j] == s.drop_last()[j]);
    } else {
        assert(s[s.len() - 1].size == v);
    }
}

/// When every entry is at least `m`: those equal to `m` and those above
/// make up all of them; and none is below `m`.
proof fn lemma_count_split(s: Seq<FileEntry>, m: u64)
    requires
        forall|i: int| 0 <= i < s.len() ==> (#[trigger] s[i]).size >= m,
    ensures
        count_size(s, m) + count_above(s, m) == s.len(),
        forall|v: u64| v < m ==> #[trigger] count_size(s, v) == 0,
    decreases s.len(),
{
    if s.len() > 0 {
        assert forall|i: int| 0 <= i < s.drop_last().len() implies (#[trigger] s.drop_last()[i]).size
            >= m by {
            assert(s[i] == s.drop_last()[i]);
        }
        lemma_count_split(s.drop_last(), m);
        assert(s[s.len() - 1].size >= m);
        assert forall|v: u64| v < m implies #[trigger] count_size(s, v) == 0 by {
            assert(count_size(s.drop_last(), v) == 0);
        }
    } else {
        assert forall|v: u64| v < m implies #[trigger] count_size(s, v) == 0 by {}
    }
}

/// If `s1` has at least as many entries of each size above `m` as `s2`,
/// it has at least as many entries above `m`.
proof fn lemma_count_above_dominates(s1: Seq<FileEntry>, s2: Seq<FileEntry>, m: u64)
    requires
        forall|v: u64| v > m ==> #[trigger] count_size(s1, v) >= count_size(s2, v),
    ensures
        count_above(s1, m) >= count_above(s2, m),
    decreases s2.len(),
{
    if s2.len() > 0 {
        let y = s2.last();
        let s2b = s2.drop_last();
        assert(s2b.push(y) == s2);
        if y.size <= m {
            assert forall|v: u64| v > m implies #[trigger] count_size(s1, v) >= count_size(s2b, v) by {
                assert(count_size(s2, v) == count_size(s2b, v));
            }
            lemma_count_above_dominates(s1, s2b, m);
        } else {
            assert(count_size(s2, y.size) >= 1);
            assert(count_size(s1, y.size) >= 1);
            lemma_count_has(s1, y.size);
            let j = choose|j: int| 0 <= j < s1.len() && (#[trigger] s1[j]).size == y.size;
            let s1b = s1.remove(j);
            assert(s1b.insert(j, s1[j]) =~= s1);
            assert forall|v: u64| v > m implies #[trigger] count_size(s1b, v) >= count_size(s2b, v) by {
                lemma_counts_insert(s1b, j, s1[j], v);
                assert(count_size(s1, v) >= count_size(s2, v));
            }
            lemma_count_above_dominates(s1b, s2b, m);
            lemma_counts_insert(s1b, j, s1[j], m);
        }
    }
}

/// What a full collection keeps is fixed by its capacity and by how many
/// files of each size were offered.
proof fn lemma_full_kept_unique(r1: Seq<FileEntry>, r2: Seq<FileEntry>, cap: nat, xs: Seq<FileEntry>)
    requires
        cap > 0,
        r1.len() == cap,
        r2.len() == cap,
        forall|v: u64| #[trigger] count_size(r1, v) <= count_size(xs, v),
        forall|v: u64| #[trigger] count_size(r2, v) <= count_size(xs, v),
        forall|v: u64| keeps_size(r1, cap, v) ==> #[trigger] count_size(r1, v) == count_size(xs, v),
        forall|v: u64| keeps_size(r2, cap, v) ==> #[trigger] count_size(r2, v) == count_size(xs, v),
    ensures
        min_size(r1) <= min_size(r2),
{
    let m1 = min_size(r1);
    let m2 = min_size(r2);
    lemma_min_index(r1);
    lemma_min_index(r2);
    if m2 < m1 {
        assert forall|v: u64| v > m2 implies #[trigger] count_size(r2, v) >= count_size(r1, v) by {
            assert(keeps_size(r2, cap, v));
        }
        lemma_count_above_dominates(r2, r1, m2);
        assert forall|i: int| 0 <= i < r1.len() implies (#[trigger] r1[i]).size >= m1 by {}
        lemma_count_split(r1, m1);
        assert(count_size(r1, m2) == 0);
        assert forall|i: int| 0 <= i < r1.len() implies (#[trigger] r1[i]).size >= m2 by {}
        lemma_count_split(r1, m2);
        assert forall|i: int| 0 <= i < r2.len() implies (#[trigger] r2[i]).size >= m2 by {}
        lemma_count_split(r2, m2);
        let k = min_index(r2);
        assert(r2[k].size == m2);
        assert(count_size(r2, m2) >= 1) by {
            assert(r2.remove(k).insert(k, r2[k]) =~= r2);
            lemma_counts_insert(r2.remove(k), k, r2[k], m2);
        }
    }
}

/// The largest files kept do not depend on the order of the offers: the
/// same files offered in any order (as parallel workers may) leave the
/// same number of kept files of each size; only which of several files of
/// the same size are kept can differ.
pub proof fn lemma_top_files_ignore_offer_order(cap: nat, xs: Seq<FileEntry>, ys: Seq<FileEntry>)
    requires
        cap > 0,
        xs.to_multiset() == ys.to_multiset(),
    ensures
        forall|v: u64| #[trigger] count_size(offer_all(cap, xs), v) == count_size(offer_all(cap, ys), v),
{
    let r1 = offer_all(cap, xs);
    let r2 = offer_all(cap, ys);
    lemma_top_files_keep_largest(cap, xs);
    lemma_top_files_keep_largest(cap, ys);
    assert forall|v: u64| count_size(xs, v) == count_size(ys, v) by {
        lemma_count_ignores_order(xs, ys, v);
    }
    lemma_count_ignores_order(xs, ys, 0);
    if xs.len() < cap {
        assert forall|v: u64| #[trigger] count_size(r1, v) == count_size(r2, v) by {
            assert(keeps_size(r1, cap, v));
            assert(keeps_size(r2, cap, v));
        }
    } else {
        assert forall|v: u64| #[trigger] count_size(r2, v) <= count_size(xs, v) by {
            assert(count_size(xs, v) == count_size(ys, v));
        }
        assert forall|v: u64| keeps_size(r2, cap, v) implies #[trigger] count_size(r2, v)
            == count_size(xs, v) by {
            assert(count_size(xs, v) == count_size(ys, v));
        }
        lemma_full_kept_unique(r1, r2, cap, xs);
        lemma_full_kept_unique(r2, r1, cap, xs);
        let m = min_size(r1);
        lemma_min_index(r1);
        lemma_min_index(r2);
        assert forall|v: u64| v > m implies #[trigger] count_size(r1, v) == count_size(r2, v) by {
            assert(keeps_size(r1, cap, v));
            assert(keeps_size(r2, cap, v));
        }
        lemma_count_above_dominates(r1, r2, m);
        lemma_count_above_dominates(r2, r1, m);
        assert forall|i: int| 0 <= i < r1.len() implies (#[trigger] r1[i]).size >= m by {}
        assert forall|i: int| 0 <= i < r2.len() implies (#[trigger] r2[i]).size >= m by {}
        lemma_count_split(r1, m);
        lemma_count_split(r2, m);
        assert forall|v: u64| #[trigger] count_size(r1, v) == count_size(r2, v) by {
            if v > m {
            } else if v < m {
            } else {
            }
        }
    }
}

/// The largest files seen so far, at most `cap` of them.
pub struct TopFiles {
    cap: usize,
    entries: Vec<FileEntry>,
    /// Smallest size held, once the collection is full.
    floor: u64,
}

impl TopFiles {
    /// Whether the fields agree: no more than `cap` entries, and `floor` the
    /// smallest size held once there are `cap` of them.
    pub closed spec fn wf(self) -> bool {
        &&& self.entries@.len() <= self.cap
        &&& self.entries@.len() == self.cap ==> self.floor == min_size(self.entries@)
    }

    pub closed spec fn cap_spec(self) -> nat {
        self.cap as nat
    }

    /// The files kept, in the order they were admitted or placed.
    pub closed spec fn entries_spec(self) -> Seq<FileEntry> {
        self.entries@
    }

    /// An empty collection that keeps the `cap` largest files.
    pub fn new(cap: usize) -> (t: TopFiles)
        ensures
            t.wf(),
            t.cap_spec() == cap,
            t.entries_spec() == Seq::<FileEntry>::empty(),
    {
        TopFiles { cap, entries: Vec::new(), floor: 0 }
    }

    /// Offers a file of `size` bytes: appended while there is room,
    /// whatever its size; once full, it takes the place of the first
    /// smallest entry when it is larger. A collection of capacity 0 keeps
    /// nothing.
    pub fn offer(&mut self, path: PathBuf, size: u64)
        requires
            old(self).wf(),
        ensures
            final(self).wf(),
            final(self).cap_spec() == old(self).cap_spec(),
            final(self).entries_spec() == offer_spec(
                old(self).entries_spec(),
                old(self).cap_spec(),
                FileEntry { path, size },
            ),
    {
        if self.cap == 0 {
            return;
        }
        if self.entries.len() < self.cap {
            self.entries.push(FileEntry { path, size });
        } else if size > self.floor {
            let i = self.min_position();
            proof {
                lemma_min_index(self.entries@);
            }
            self.entries.set(i, FileEntry { path, size });
        } else {
            return;
        }
        if self.entries.len() == self.cap {
            self.floor = self.smallest();
        }
    }

    /// The size a file must exceed to enter, once the collection is full
    /// (`None` before, and always for capacity 0).
    pub fn floor(&self) -> (f: Option<u64>)
        requires
            self.wf(),
        ensures
            f == if 0 < self.cap_spec() && self.entries_spec().len() == self.cap_spec() {
                Some(min_size(self.entries_spec()))
            } else {
                None::<u64>
            },
    {
        if 0 < self.cap && self.entries.len() == self.cap {
            Some(self.floor)
        } else {
            None
        }
    }

    /// Index of the first entry of smallest size.
    fn min_position(&self) -> (i: usize)
        requires
            self.entries@.len() > 0,
        ensures
            i == min_index(self.entries@),
    {
        let ghost s = self.entries@;
        let mut i: usize = 0;
        let mut k: usize = 1;
        while k < self.entries.len()
            invariant
                1 <= k <= self.entries.len(),
                s == self.entries@,
                i == min_index(s.take(k as int)),
            decreases self.entries.len() - k,
        {
            proof {
                assert(s.take(k + 1).drop_last() == s.take(k as int));
                lemma_min_index(s.take(k as int));
            }
            if self.entries[k].size < self.entries[i].size {
                i = k;
            }
            k += 1;
        }
        assert(s.take(k as int) == s);
        i
    }

    /// Smallest size held.
    fn smallest(&self) -> (m: u64)
        ensures
            m == min_size(self.entries@),
    {
        if self.entries.len() == 0 {
            return 0;
        }
        let i = self.min_position();
        proof {
            lemma_min_index(self.entries@);
        }
        self.entries[i].size
    }

    /// The files kept, largest first (stable).
    pub fn into_sorted(self) -> (out: Vec<FileEntry>)
        ensures
            out@ == sort_desc(self.entries_spec()),
    {
        sort_by_size_desc(self.entries)
    }
}

}
