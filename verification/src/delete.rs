//! A delete request: the best-effort walk that removes a path and what it
//! removed, the per-path entries of the receipt, and the receipt's totals.
use vstd::prelude::*;

use std::path::PathBuf;

use crate::text::{push_str, string_from_chars};

verus! {

/// Best-effort recursive delete: what was removed and what could not be.
pub struct DeleteOutcome {
    pub deleted_bytes: u64,
    pub deleted_items: u64,
    pub failed_items: u64,
    pub first_error: Option<String>,
}

impl DeleteOutcome {
    /// Nothing removed, nothing failed.
    pub fn new() -> (o: DeleteOutcome)
        ensures
            o.deleted_bytes == 0,
            o.deleted_items == 0,
            o.failed_items == 0,
            o.first_error is None,
    {
        DeleteOutcome { deleted_bytes: 0, deleted_items: 0, failed_items: 0, first_error: None }
    }

    /// An item could not be removed; the first error is the one kept.
    pub fn record_failure(&mut self, error: String)
        requires
            old(self).failed_items < u64::MAX,
        ensures
            final(self).failed_items == old(self).failed_items + 1,
            final(self).deleted_bytes == old(self).deleted_bytes,
            final(self).deleted_items == old(self).deleted_items,
            final(self).first_error == match old(self).first_error {
                Some(e) => Some(e),
                None => Some(error),
            },
    {
        self.failed_items = self.failed_items + 1;
        if self.first_error.is_none() {
            self.first_error = Some(error);
        }
    }

    /// A file of `size` bytes was removed.
    pub fn record_deleted(&mut self, size: u64)
        requires
            old(self).deleted_bytes + size <= u64::MAX,
            old(self).deleted_items < u64::MAX,
        ensures
            final(self).deleted_bytes == old(self).deleted_bytes + size,
            final(self).deleted_items == old(self).deleted_items + 1,
            final(self).failed_items == old(self).failed_items,
            final(self).first_error == old(self).first_error,
    {
        self.deleted_bytes = self.deleted_bytes + size;
        self.deleted_items = self.deleted_items + 1;
    }
}

/// The text of an I/O error: on Windows, sharing violations (32) and
/// access denials (5) get an explanation appended.
pub open spec fn explained_error(message: Seq<char>, os_code: Option<i32>, on_windows: bool) -> Seq<
    char,
> {
    if on_windows && os_code == Some(32i32) {
        message + " [file is locked by another process]"@
    } else if on_windows && os_code == Some(5i32) {
        message + " [access denied; may need administrator rights]"@
    } else {
        message
    }
}

/// The text of an I/O error whose message is `message` and whose OS error
/// code is `os_code`, on Windows when `on_windows`.
pub fn explain_io_error(message: &str, os_code: Option<i32>, on_windows: bool) -> (s: String)
    ensures
        s@ == explained_error(message@, os_code, on_windows),
{
    let mut out: Vec<char> = Vec::new();
    push_str(&mut out, message);
    if on_windows && os_code == Some(32i32) {
        push_str(&mut out, " [file is locked by another process]");
    } else if on_windows && os_code == Some(5i32) {
        push_str(&mut out, " [access denied; may need administrator rights]");
    }
    string_from_chars(&out)
}

// ---------------------------------------------------------------------------
// The best-effort walk
// ---------------------------------------------------------------------------

/// What a path is, read without following links.
#[derive(Clone, Copy)]
pub enum PathKind {
    /// A symbolic link (or another kind of link): removed, never followed.
    Link,
    Dir,
    /// Anything else, with its length in bytes.
    File(u64),
}

/// An I/O error: its message and, when it has one, the OS error code.
pub struct IoFailure {
    pub message: String,
    pub os_code: Option<i32>,
}

/// What the walk does next to the path it handles.
pub enum DeleteAction {
    /// Remove the link itself.
    UnlinkLink,
    /// Removing the link as a file failed: remove it as a directory (a
    /// directory link on Windows).
    RemoveLinkDir,
    /// Delete every entry of the directory (the walk again, on each), then
    /// report whether the directory could be listed.
    ListDir,
    /// Remove the directory, now emptied.
    RemoveDir,
    /// Remove the file.
    UnlinkFile,
    /// The path is done with.
    Done,
}

/// What came of the last step on the path.
pub enum DeleteEvent {
    /// Its kind was read (the first step), or could not be.
    Meta(Result<PathKind, IoFailure>),
    /// The directory was listed and its entries handled, or it could not be listed.
    Listed(Result<(), IoFailure>),
    /// The result of removing it as a file.
    Unlinked(Result<(), IoFailure>),
    /// The result of removing it as a directory.
    DirRemoved(Result<(), IoFailure>),
}

/// The step that follows `ev` on a path of kind `kind` (`None` before its
/// kind is known). A link is unlinked, and removed as a directory when that
/// fails; a directory is listed, then removed unless listing failed; a
/// file is unlinked. Every other outcome ends the path.
pub open spec fn next_delete_action(kind: Option<PathKind>, ev: DeleteEvent) -> DeleteAction {
    match (kind, ev) {
        (None, DeleteEvent::Meta(Ok(PathKind::Link))) => DeleteAction::UnlinkLink,
        (None, DeleteEvent::Meta(Ok(PathKind::Dir))) => DeleteAction::ListDir,
        (None, DeleteEvent::Meta(Ok(PathKind::File(_)))) => DeleteAction::UnlinkFile,
        (Some(PathKind::Link), DeleteEvent::Unlinked(Err(_))) => DeleteAction::RemoveLinkDir,
        (Some(PathKind::Dir), DeleteEvent::Listed(Ok(()))) => DeleteAction::RemoveDir,
        _ => DeleteAction::Done,
    }
}

/// The failure that `ev` reports and that counts against the path: a kind
/// that could not be read, a link that could be removed neither way, a
/// directory that could not be listed or removed, a file that could not be
/// removed. (A link that fails as a file is tried as a directory first.)
pub open spec fn counted_failure(kind: Option<PathKind>, ev: DeleteEvent) -> Option<IoFailure> {
    match (kind, ev) {
        (None, DeleteEvent::Meta(Err(e))) => Some(e),
        (Some(PathKind::Link), DeleteEvent::DirRemoved(Err(e))) => Some(e),
        (Some(PathKind::Dir), DeleteEvent::Listed(Err(e))) => Some(e),
        (Some(PathKind::Dir), DeleteEvent::DirRemoved(Err(e))) => Some(e),
        (Some(PathKind::File(_)), DeleteEvent::Unlinked(Err(e))) => Some(e),
        _ => None,
    }
}

/// The bytes that `ev` reports removed: the length of a file that was unlinked.
pub open spec fn removed_file(kind: Option<PathKind>, ev: DeleteEvent) -> Option<u64> {
    match (kind, ev) {
        (Some(PathKind::File(n)), DeleteEvent::Unlinked(Ok(()))) => Some(n),
        _ => None,
    }
}

/// Whether `ev` answers the step the walk asks of a path of kind `kind`:
/// its kind is read first; a link is then removed as a file or as a
/// directory, a directory listed or removed, a file removed as a file.
pub open spec fn answers_step(kind: Option<PathKind>, ev: DeleteEvent) -> bool {
    match (kind, ev) {
        (None, DeleteEvent::Meta(_)) => true,
        (Some(PathKind::Link), DeleteEvent::Unlinked(_)) => true,
        (Some(PathKind::Link), DeleteEvent::DirRemoved(_)) => true,
        (Some(PathKind::Dir), DeleteEvent::Listed(_)) => true,
        (Some(PathKind::Dir), DeleteEvent::DirRemoved(_)) => true,
        (Some(PathKind::File(_)), DeleteEvent::Unlinked(_)) => true,
        _ => false,
    }
}

/// The error an event reports, if it reports one.
pub open spec fn event_error(ev: DeleteEvent) -> Option<IoFailure> {
    match ev {
        DeleteEvent::Meta(Err(e)) => Some(e),
        DeleteEvent::Listed(Err(e)) => Some(e),
        DeleteEvent::Unlinked(Err(e)) => Some(e),
        DeleteEvent::DirRemoved(Err(e)) => Some(e),
        _ => None,
    }
}

/// Whether `ev` reports that the path itself was removed.
pub open spec fn path_removed(ev: DeleteEvent) -> bool {
    ev matches DeleteEvent::Unlinked(Ok(())) || ev matches DeleteEvent::DirRemoved(Ok(()))
}

/// Nothing that could not be removed goes uncounted, and nothing removed
/// is counted as a failure: for every step of the walk,
/// - once its kind is read, a link is unlinked (never listed), a directory
///   listed, then removed once listed, and a file unlinked;
/// - a step that succeeded is never counted as failed, and a path that was
///   removed (file, link or directory) is done with, a file adding its
///   length to what was freed;
/// - a step that failed is counted as one failed item with its error, and
///   the path is given up, except when a link could not be removed as a
///   file: it is then tried once more as a directory, and only that second
///   failure counts.
/// So a path is reported deleted (no failed item) only when it and
/// everything under it were removed.
pub proof fn lemma_walk_counts_every_failure(kind: Option<PathKind>, ev: DeleteEvent)
    requires
        answers_step(kind, ev),
    ensures
        event_error(ev) is None ==> counted_failure(kind, ev) is None,
        path_removed(ev) ==> next_delete_action(kind, ev) is Done,
        path_removed(ev) ==> (kind matches Some(PathKind::File(n)) ==> removed_file(kind, ev)
            == Some(n)),
        event_error(ev) matches Some(e) ==> {
            ||| (counted_failure(kind, ev) == Some(e) && next_delete_action(kind, ev) is Done)
            ||| (kind matches Some(PathKind::Link) && ev is Unlinked && counted_failure(kind, ev)
                is None && next_delete_action(kind, ev) is RemoveLinkDir)
        },
        (kind matches Some(PathKind::Dir) && ev matches DeleteEvent::Listed(Ok(())))
            ==> next_delete_action(kind, ev) is RemoveDir,
        (kind is None && ev matches DeleteEvent::Meta(Ok(PathKind::Link)))
            ==> next_delete_action(kind, ev) is UnlinkLink,
        (kind is None && ev matches DeleteEvent::Meta(Ok(PathKind::Dir)))
            ==> next_delete_action(kind, ev) is ListDir,
        (kind is None && ev matches DeleteEvent::Meta(Ok(PathKind::File(_))))
            ==> next_delete_action(kind, ev) is UnlinkFile,
{
}

impl DeleteOutcome {
    /// One step of the best-effort walk on a path of kind `kind_before`
    /// (`None` before it is read): records what `ev` reports and says what
    /// to do next. Items that cannot be removed are counted, the first
    /// error kept (explained as on Windows when `on_windows`), and the walk
    /// goes on with everything else.
    pub fn on_delete_event(&mut self, kind_before: Option<PathKind>, ev: DeleteEvent, on_windows: bool) -> (a: DeleteAction)
        requires
            old(self).failed_items < u64::MAX,
            old(self).deleted_items < u64::MAX,
            kind_before matches Some(PathKind::File(n)) ==> old(self).deleted_bytes + n <= u64::MAX,
        ensures
            a == next_delete_action(kind_before, ev),
            kind_before matches Some(PathKind::Link) ==> !(a is ListDir) && !(a is RemoveDir),
            (kind_before is None && ev matches DeleteEvent::Meta(Ok(PathKind::Link))) ==> a is UnlinkLink,
            ev matches DeleteEvent::Listed(Err(_)) ==> a is Done,
            match counted_failure(kind_before, ev) {
                Some(e) => {
                    &&& final(self).failed_items == old(self).failed_items + 1
                    &&& old(self).first_error is Some ==> final(self).first_error
                        == old(self).first_error
                    &&& old(self).first_error is None ==> (final(self).first_error matches Some(t)
                        && t@ == explained_error(e.message@, e.os_code, on_windows))
                    &&& final(self).deleted_bytes == old(self).deleted_bytes
                    &&& final(self).deleted_items == old(self).deleted_items
                },
                None => match removed_file(kind_before, ev) {
                    Some(n) => {
                        &&& final(self).deleted_bytes == old(self).deleted_bytes + n
                        &&& final(self).deleted_items == old(self).deleted_items + 1
                        &&& final(self).failed_items == old(self).failed_items
                        &&& final(self).first_error == old(self).first_error
                    },
                    None => *final(self) == *old(self),
                },
            },
    {
        match (kind_before, ev) {
            (None, DeleteEvent::Meta(Ok(PathKind::Link))) => DeleteAction::UnlinkLink,
            (None, DeleteEvent::Meta(Ok(PathKind::Dir))) => DeleteAction::ListDir,
            (None, DeleteEvent::Meta(Ok(PathKind::File(_)))) => DeleteAction::UnlinkFile,
            (None, DeleteEvent::Meta(Err(e))) => {
                self.record_failure(explain_io_error(e.message.as_str(), e.os_code, on_windows));
                DeleteAction::Done
            },
            (Some(PathKind::Link), DeleteEvent::Unlinked(Err(_))) => DeleteAction::RemoveLinkDir,
            (Some(PathKind::Link), DeleteEvent::DirRemoved(Err(e))) => {
                self.record_failure(explain_io_error(e.message.as_str(), e.os_code, on_windows));
                DeleteAction::Done
            },
            (Some(PathKind::Dir), DeleteEvent::Listed(Ok(()))) => DeleteAction::RemoveDir,
            (Some(PathKind::Dir), DeleteEvent::Listed(Err(e))) => {
                self.record_failure(explain_io_error(e.message.as_str(), e.os_code, on_windows));
                DeleteAction::Done
            },
            (Some(PathKind::Dir), DeleteEvent::DirRemoved(Err(e))) => {
                self.record_failure(explain_io_error(e.message.as_str(), e.os_code, on_windows));
                DeleteAction::Done
            },
            (Some(PathKind::File(n)), DeleteEvent::Unlinked(Ok(()))) => {
                self.record_deleted(n);
                DeleteAction::Done
            },
            (Some(PathKind::File(_)), DeleteEvent::Unlinked(Err(e))) => {
                self.record_failure(explain_io_error(e.message.as_str(), e.os_code, on_windows));
                DeleteAction::Done
            },
            _ => DeleteAction::Done,
        }
    }
}

/// One path of a delete request.
pub struct DeleteEntry {
    pub path: PathBuf,
    /// Apparent size (estimate; actual filesystem space freed can be lower).
    pub size: u64,
    pub deleted: bool,
    /// Bytes actually removed (force mode; equals `size` on full success).
    pub deleted_bytes: Option<u64>,
    /// Items skipped because they could not be removed (locked, no access).
    pub failed_items: Option<u64>,
    pub error: Option<String>,
}

impl DeleteEntry {
    /// The entry of a path that would be deleted (dry run).
    pub open spec fn planned_spec(path: PathBuf, size: u64) -> DeleteEntry {
        DeleteEntry {
            path,
            size,
            deleted: false,
            deleted_bytes: None,
            failed_items: None,
            error: None,
        }
    }

    /// A path that would be deleted (dry run).
    pub fn planned(path: PathBuf, size: u64) -> (e: DeleteEntry)
        ensures
            e.path == path,
            e.size == size,
            !e.deleted,
            e.deleted_bytes is None,
            e.failed_items is None,
            e.error is None,
    {
        DeleteEntry {
            path,
            size,
            deleted: false,
            deleted_bytes: None,
            failed_items: None,
            error: None,
        }
    }

    /// A path whose deletion was attempted: deleted when nothing failed.
    pub fn attempted(path: PathBuf, size: u64, out: DeleteOutcome) -> (e: DeleteEntry)
        ensures
            e.path == path,
            e.size == size,
            e.deleted == (out.failed_items == 0),
            e.deleted_bytes == Some(out.deleted_bytes),
            e.failed_items == Some(out.failed_items),
            e.error == out.first_error,
    {
        DeleteEntry {
            path,
            size,
            deleted: out.failed_items == 0,
            deleted_bytes: Some(out.deleted_bytes),
            failed_items: Some(out.failed_items),
            error: out.first_error,
        }
    }
}

/// The bytes an entry counts toward the total: removed bytes when forced,
/// the apparent size in a dry run.
pub open spec fn counted_bytes(e: DeleteEntry, force: bool) -> nat {
    if force {
        match e.deleted_bytes {
            Some(b) => b as nat,
            None => 0,
        }
    } else {
        e.size as nat
    }
}

/// Sum of the counted bytes of `entries`.
pub open spec fn reclaimed_total(entries: Seq<DeleteEntry>, force: bool) -> nat
    decreases entries.len(),
{
    if entries.len() == 0 {
        0
    } else {
        reclaimed_total(entries.drop_last(), force) + counted_bytes(entries.last(), force)
    }
}

/// Growth of the volume's free space: known when both readings are.
pub open spec fn freed_disk_spec(before: Option<u64>, after: Option<u64>) -> Option<u64> {
    match (before, after) {
        (Some(b), Some(a)) => Some(if a >= b { (a - b) as u64 } else { 0 }),
        _ => None,
    }
}

/// The receipt of a delete request.
pub struct DeleteReport {
    pub dry_run: bool,
    /// Sum of apparent sizes (dry-run) or bytes actually unlinked (force).
    pub reclaimed: u64,
    /// Volume free space before/after (force only): the ground truth for how
    /// much usable space was gained (hardlinks/compression make it differ
    /// from `reclaimed`).
    pub free_before: Option<u64>,
    pub free_after: Option<u64>,
    pub freed_disk: Option<u64>,
    pub entries: Vec<DeleteEntry>,
}

impl DeleteReport {
    /// The receipt for `entries`; `None` when the total does not fit in `u64`.
    pub fn new(force: bool, entries: Vec<DeleteEntry>, free_before: Option<u64>, free_after: Option<
        u64,
    >) -> (r: Option<DeleteReport>)
        ensures
            (reclaimed_total(entries@, force) <= u64::MAX) <==> r is Some,
            r matches Some(rep) ==> {
                &&& rep.dry_run == !force
                &&& rep.reclaimed == reclaimed_total(entries@, force)
                &&& rep.free_before == free_before
                &&& rep.free_after == free_after
                &&& rep.freed_disk == freed_disk_spec(free_before, free_after)
                &&& rep.entries@ == entries@
            },
    {
        let mut total: u64 = 0;
        let mut i: usize = 0;
        while i < entries.len()
            invariant
                i <= entries.len(),
                total == reclaimed_total(entries@.take(i as int), force),
            decreases entries.len() - i,
        {
            proof {
                assert(entries@.take(i + 1).drop_last() == entries@.take(i as int));
            }
            let e = &entries[i];
            let add: u64 = if force {
                match e.deleted_bytes {
                    Some(b) => b,
                    None => 0,
                }
            } else {
                e.size
            };
            if total > u64::MAX - add {
                proof {
                    lemma_reclaimed_monotone(entries@, force, (i + 1) as nat, entries@.len());
                    assert(entries@.take(entries@.len() as int) == entries@);
                }
                return None;
            }
            total = total + add;
            i += 1;
        }
        assert(entries@.take(i as int) == entries@);
        let freed_disk = match (free_before, free_after) {
            (Some(b), Some(a)) => Some(a.saturating_sub(b)),
            _ => None,
        };
        Some(
            DeleteReport {
                dry_run: !force,
                reclaimed: total,
                free_before,
                free_after,
                freed_disk,
                entries,
            },
        )
    }
}

proof fn lemma_reclaimed_monotone(s: Seq<DeleteEntry>, force: bool, j: nat, k: nat)
    requires
        j <= k <= s.len(),
    ensures
        reclaimed_total(s.take(j as int), force) <= reclaimed_total(s.take(k as int), force),
    decreases k - j,
{
    if j < k {
        assert(s.take(k as int).drop_last() == s.take(k - 1));
        lemma_reclaimed_monotone(s, force, j, (k - 1) as nat);
    }
}

// ---------------------------------------------------------------------------
// Running a request
// ---------------------------------------------------------------------------

/// The next thing to do for a delete request.
pub enum DeleteStep {
    /// Measure the apparent size of path `i`.
    Measure(usize),
    /// Remove path `i` (best effort).
    Remove(usize),
    /// Every path is done.
    Finish,
}

/// A delete request over `count` paths, in order: each path is measured;
/// with `force` it is then removed; without, nothing is ever removed.
pub struct DeleteRun {
    force: bool,
    count: usize,
    next: usize,
    /// The measured path awaiting removal.
    pending: Option<(PathBuf, u64)>,
    entries: Vec<DeleteEntry>,
}

impl DeleteRun {
    pub closed spec fn wf(self) -> bool {
        &&& self.next <= self.count
        &&& self.entries@.len() == self.next
        &&& (self.pending is Some ==> self.force && self.next < self.count)
        &&& (!self.force ==> forall|i: int|
            0 <= i < self.entries@.len() ==> !(#[trigger] self.entries@[i]).deleted
                && self.entries@[i].deleted_bytes is None)
    }

    pub closed spec fn force_spec(self) -> bool {
        self.force
    }

    pub closed spec fn count_spec(self) -> nat {
        self.count as nat
    }

    /// Paths done so far.
    pub closed spec fn done_spec(self) -> nat {
        self.next as nat
    }

    /// The path being handled and its measured size, once it was measured
    /// and awaits removal.
    pub closed spec fn pending_spec(self) -> Option<(PathBuf, u64)> {
        self.pending
    }

    /// Whether the path being handled was measured and awaits removal.
    pub open spec fn awaiting_removal(self) -> bool {
        self.pending_spec() is Some
    }

    /// The receipt entries of the paths done so far.
    pub closed spec fn entries_spec(self) -> Seq<DeleteEntry> {
        self.entries@
    }

    /// The step that follows: removal of the path just measured when there
    /// is one, else measuring the next path, else the end.
    pub open spec fn step_spec(self) -> DeleteStep {
        if self.awaiting_removal() {
            DeleteStep::Remove(self.done_spec() as usize)
        } else if self.done_spec() < self.count_spec() {
            DeleteStep::Measure(self.done_spec() as usize)
        } else {
            DeleteStep::Finish
        }
    }

    /// A request over `count` paths, nothing done yet.
    pub fn new(force: bool, count: usize) -> (r: DeleteRun)
        ensures
            r.wf(),
            r.force_spec() == force,
            r.count_spec() == count,
            r.done_spec() == 0,
            r.pending_spec() is None,
            r.entries_spec() == Seq::<DeleteEntry>::empty(),
    {
        DeleteRun { force, count, next: 0, pending: None, entries: Vec::new() }
    }

    /// The next step. Without `force` it is never a removal.
    pub fn step(&self) -> (s: DeleteStep)
        requires
            self.wf(),
        ensures
            s == self.step_spec(),
            s is Remove ==> self.force_spec(),
            s matches DeleteStep::Measure(i) ==> i < self.count_spec(),
            s matches DeleteStep::Remove(i) ==> i < self.count_spec(),
    {
        if self.pending.is_some() {
            DeleteStep::Remove(self.next)
        } else if self.next < self.count {
            DeleteStep::Measure(self.next)
        } else {
            DeleteStep::Finish
        }
    }

    /// The current path measured `size` bytes: in a dry run its entry is
    /// final; with `force` it now awaits removal.
    pub fn measured(&mut self, path: PathBuf, size: u64)
        requires
            old(self).wf(),
            old(self).step_spec() is Measure,
        ensures
            final(self).wf(),
            final(self).force_spec() == old(self).force_spec(),
            final(self).count_spec() == old(self).count_spec(),
            old(self).force_spec() ==> {
                &&& final(self).pending_spec() == Some((path, size))
                &&& final(self).done_spec() == old(self).done_spec()
                &&& final(self).entries_spec() == old(self).entries_spec()
            },
            !old(self).force_spec() ==> {
                &&& final(self).pending_spec() is None
                &&& final(self).done_spec() == old(self).done_spec() + 1
                &&& final(self).entries_spec() == old(self).entries_spec().push(
                    DeleteEntry::planned_spec(path, size),
                )
            },
    {
        if self.force {
            self.pending = Some((path, size));
        } else {
            self.entries.push(DeleteEntry::planned(path, size));
            self.next = self.next + 1;
        }
    }

    /// The current path was removed with `out` as the result.
    pub fn removed(&mut self, out: DeleteOutcome)
        requires
            old(self).wf(),
            old(self).step_spec() is Remove,
        ensures
            final(self).wf(),
            final(self).force_spec() == old(self).force_spec(),
            final(self).count_spec() == old(self).count_spec(),
            final(self).pending_spec() is None,
            final(self).done_spec() == old(self).done_spec() + 1,
            final(self).entries_spec().len() == old(self).entries_spec().len() + 1,
            final(self).entries_spec().take(old(self).entries_spec().len() as int)
                == old(self).entries_spec(),
            ({
                let e = final(self).entries_spec().last();
                &&& old(self).pending_spec() == Some((e.path, e.size))
                &&& e.deleted == (out.failed_items == 0)
                &&& e.deleted_bytes == Some(out.deleted_bytes)
                &&& e.failed_items == Some(out.failed_items)
                &&& e.error == out.first_error
            }),
    {
        let pending = self.pending.take();
        match pending {
            Some((path, size)) => {
                let ghost before = self.entries@;
                self.entries.push(DeleteEntry::attempted(path, size, out));
                self.next = self.next + 1;
                assert(self.entries@.take(before.len() as int) == before);
            },
            None => {},
        }
    }

    /// The receipt, once every path is done; `None` when its total does not
    /// fit in `u64`.
    pub fn finish(self, free_before: Option<u64>, free_after: Option<u64>) -> (r: Option<
        DeleteReport,
    >)
        requires
            self.wf(),
            self.step_spec() is Finish,
        ensures
            (reclaimed_total(self.entries_spec(), self.force_spec()) <= u64::MAX) <==> r is Some,
            r matches Some(rep) ==> {
                &&& rep.dry_run == !self.force_spec()
                &&& rep.reclaimed == reclaimed_total(self.entries_spec(), self.force_spec())
                &&& rep.free_before == free_before
                &&& rep.free_after == free_after
                &&& rep.freed_disk == freed_disk_spec(free_before, free_after)
                &&& rep.entries@ == self.entries_spec()
                &&& rep.entries@.len() == self.count_spec()
            },
    {
        DeleteReport::new(self.force, self.entries, free_before, free_after)
    }
}

/// A request without `force` removes nothing: from its start, every step
/// it takes is a measurement or the end, and every entry of its receipt
/// reports nothing deleted.
pub proof fn lemma_dry_run_never_removes(r: DeleteRun)
    requires
        r.wf(),
        !r.force_spec(),
    ensures
        !(r.step_spec() is Remove),
        forall|i: int|
            0 <= i < r.entries_spec().len() ==> !(#[trigger] r.entries_spec()[i]).deleted
                && r.entries_spec()[i].deleted_bytes is None,
{
}

// ---------------------------------------------------------------------------
// Receipt status
// ---------------------------------------------------------------------------

/// What the receipt says of an entry.
#[derive(Debug)]
pub enum EntryStatus {
    /// A dry run: the path would be deleted.
    WouldDelete,
    /// Everything under the path was removed.
    Deleted,
    /// Some items could not be removed: `freed` bytes were, `left` items
    /// failed, `error` is the first failure (or "unknown error").
    Partial { freed: u64, left: u64, error: String },
}

/// The status shown for `e`: "would delete" in a dry run, "deleted", or a
/// partial removal with what was freed, what is left and why.
pub fn entry_status(e: &DeleteEntry, force: bool) -> (st: EntryStatus)
    ensures
        !force ==> st is WouldDelete,
        force && e.deleted ==> st is Deleted,
        force && !e.deleted ==> (st matches EntryStatus::Partial { freed, left, error } && freed == (
        match e.deleted_bytes {
            Some(b) => b,
            None => 0,
        }) && left == (match e.failed_items {
            Some(n) => n,
            None => 0,
        }) && error@ == (match e.error {
            Some(t) => t@,
            None => "unknown error"@,
        })),
{
    if !force {
        EntryStatus::WouldDelete
    } else if e.deleted {
        EntryStatus::Deleted
    } else {
        let freed = match e.deleted_bytes {
            Some(b) => b,
            None => 0,
        };
        let left = match e.failed_items {
            Some(n) => n,
            None => 0,
        };
        let error = match &e.error {
            Some(t) => t.clone(),
            None => {
                proof {
                    reveal_strlit("unknown error");
                }
                "unknown error".to_owned()
            },
        };
        EntryStatus::Partial { freed, left, error }
    }
}

}
