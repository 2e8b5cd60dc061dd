use std::path::PathBuf;

use spacesniff::delete::{
    entry_status, explain_io_error, DeleteAction, DeleteEntry, DeleteEvent, DeleteOutcome,
    DeleteReport, DeleteRun, DeleteStep, EntryStatus, IoFailure, PathKind,
};

#[test]
fn outcome_keeps_first_error() {
    let mut o = DeleteOutcome::new();
    o.record_deleted(100);
    o.record_failure("first".to_string());
    o.record_failure("second".to_string());
    o.record_deleted(50);
    assert_eq!(o.deleted_bytes, 150);
    assert_eq!(o.deleted_items, 2);
    assert_eq!(o.failed_items, 2);
    assert_eq!(o.first_error.as_deref(), Some("first"));
}

#[test]
fn io_error_explanations() {
    assert_eq!(
        explain_io_error("oops", Some(32), true),
        "oops [file is locked by another process]"
    );
    assert_eq!(
        explain_io_error("no", Some(5), true),
        "no [access denied; may need administrator rights]"
    );
    assert_eq!(explain_io_error("no", Some(5), false), "no");
    assert_eq!(explain_io_error("x", None, true), "x");
}

#[test]
fn dry_run_report() {
    let entries = vec![
        DeleteEntry::planned(PathBuf::from("a"), 1000),
        DeleteEntry::planned(PathBuf::from("b"), 500),
    ];
    let r = DeleteReport::new(false, entries, None, None).unwrap();
    assert!(r.dry_run);
    assert_eq!(r.reclaimed, 1500);
    assert_eq!(r.freed_disk, None);
    assert!(r.entries.iter().all(|e| !e.deleted && e.deleted_bytes.is_none()));
    assert!(matches!(entry_status(&r.entries[0], false), EntryStatus::WouldDelete));
}

#[test]
fn forced_report() {
    let mut ok = DeleteOutcome::new();
    ok.record_deleted(1000);
    let mut partial = DeleteOutcome::new();
    partial.record_deleted(300);
    partial.record_failure("denied".to_string());
    let entries = vec![
        DeleteEntry::attempted(PathBuf::from("a"), 1000, ok),
        DeleteEntry::attempted(PathBuf::from("b"), 800, partial),
    ];
    let r = DeleteReport::new(true, entries, Some(10_000), Some(11_500)).unwrap();
    assert!(!r.dry_run);
    assert_eq!(r.reclaimed, 1300);
    assert_eq!(r.freed_disk, Some(1500));
    assert!(r.entries[0].deleted);
    assert!(!r.entries[1].deleted);
    assert!(matches!(entry_status(&r.entries[0], true), EntryStatus::Deleted));
    match entry_status(&r.entries[1], true) {
        EntryStatus::Partial { freed, left, error } => {
            assert_eq!((freed, left, error.as_str()), (300, 1, "denied"));
        }
        other => panic!("expected a partial removal, got {other:?}"),
    }
}

#[test]
fn free_space_shrinking_counts_as_zero() {
    let r = DeleteReport::new(true, Vec::new(), Some(100), Some(40)).unwrap();
    assert_eq!(r.freed_disk, Some(0));
    let r = DeleteReport::new(true, Vec::new(), None, Some(40)).unwrap();
    assert_eq!(r.freed_disk, None);
}

#[test]
fn partial_with_several_items_and_no_error_text() {
    let e = DeleteEntry {
        path: PathBuf::from("p"),
        size: 10,
        deleted: false,
        deleted_bytes: Some(0),
        failed_items: Some(3),
        error: None,
    };
    match entry_status(&e, true) {
        EntryStatus::Partial { freed, left, error } => {
            assert_eq!((freed, left, error.as_str()), (0, 3, "unknown error"));
        }
        other => panic!("expected a partial removal, got {other:?}"),
    }
}

#[test]
fn report_total_overflow() {
    let entries = vec![
        DeleteEntry::planned(PathBuf::from("a"), u64::MAX),
        DeleteEntry::planned(PathBuf::from("b"), 1),
    ];
    assert!(DeleteReport::new(false, entries, None, None).is_none());
}

#[test]
fn dry_run_only_measures() {
    let mut run = DeleteRun::new(false, 2);
    let mut steps = Vec::new();
    loop {
        match run.step() {
            DeleteStep::Measure(i) => {
                steps.push(format!("m{i}"));
                run.measured(PathBuf::from(format!("p{i}")), 100 * (i as u64 + 1));
            }
            DeleteStep::Remove(i) => {
                steps.push(format!("r{i}"));
                run.removed(DeleteOutcome::new());
            }
            DeleteStep::Finish => break,
        }
    }
    assert_eq!(steps, vec!["m0", "m1"]);
    let r = run.finish(None, None).unwrap();
    assert!(r.dry_run);
    assert_eq!(r.reclaimed, 300);
    assert!(r.entries.iter().all(|e| !e.deleted));
    let listed: Vec<(PathBuf, u64)> = r.entries.iter().map(|e| (e.path.clone(), e.size)).collect();
    assert_eq!(listed, vec![(PathBuf::from("p0"), 100), (PathBuf::from("p1"), 200)]);
}

#[test]
fn forced_run_measures_then_removes_each_path() {
    let mut run = DeleteRun::new(true, 2);
    let mut steps = Vec::new();
    loop {
        match run.step() {
            DeleteStep::Measure(i) => {
                steps.push(format!("m{i}"));
                run.measured(PathBuf::from(format!("p{i}")), 100);
            }
            DeleteStep::Remove(i) => {
                steps.push(format!("r{i}"));
                let mut o = DeleteOutcome::new();
                o.record_deleted(40);
                run.removed(o);
            }
            DeleteStep::Finish => break,
        }
    }
    assert_eq!(steps, vec!["m0", "r0", "m1", "r1"]);
    let r = run.finish(Some(1), Some(81)).unwrap();
    assert!(!r.dry_run);
    assert_eq!(r.reclaimed, 80);
    assert_eq!(r.freed_disk, Some(80));
    assert!(r.entries.iter().all(|e| e.deleted && e.size == 100));
    assert_eq!(r.entries[1].path, PathBuf::from("p1"));
    assert_eq!(r.entries[1].deleted_bytes, Some(40));
}

fn fail(message: &str, os_code: Option<i32>) -> IoFailure {
    IoFailure { message: message.to_string(), os_code }
}

#[test]
fn walk_unlinks_a_file_and_counts_it() {
    let mut o = DeleteOutcome::new();
    let a = o.on_delete_event(None, DeleteEvent::Meta(Ok(PathKind::File(12))), false);
    assert!(matches!(a, DeleteAction::UnlinkFile));
    let a = o.on_delete_event(Some(PathKind::File(12)), DeleteEvent::Unlinked(Ok(())), false);
    assert!(matches!(a, DeleteAction::Done));
    assert_eq!((o.deleted_bytes, o.deleted_items, o.failed_items), (12, 1, 0));
}

#[test]
fn walk_never_follows_a_link() {
    let mut o = DeleteOutcome::new();
    let a = o.on_delete_event(None, DeleteEvent::Meta(Ok(PathKind::Link)), false);
    assert!(matches!(a, DeleteAction::UnlinkLink));
    let a = o.on_delete_event(
        Some(PathKind::Link),
        DeleteEvent::Unlinked(Err(fail("is a directory", None))),
        true,
    );
    assert!(matches!(a, DeleteAction::RemoveLinkDir));
    assert_eq!(o.failed_items, 0);
    let a = o.on_delete_event(
        Some(PathKind::Link),
        DeleteEvent::DirRemoved(Err(fail("denied", Some(5)))),
        true,
    );
    assert!(matches!(a, DeleteAction::Done));
    assert_eq!(o.failed_items, 1);
    assert_eq!(
        o.first_error.as_deref(),
        Some("denied [access denied; may need administrator rights]")
    );
    assert_eq!(o.deleted_bytes, 0);
}

#[test]
fn walk_lists_then_removes_a_directory() {
    let mut o = DeleteOutcome::new();
    let a = o.on_delete_event(None, DeleteEvent::Meta(Ok(PathKind::Dir)), false);
    assert!(matches!(a, DeleteAction::ListDir));
    let a = o.on_delete_event(Some(PathKind::Dir), DeleteEvent::Listed(Ok(())), false);
    assert!(matches!(a, DeleteAction::RemoveDir));
    let a = o.on_delete_event(Some(PathKind::Dir), DeleteEvent::DirRemoved(Ok(())), false);
    assert!(matches!(a, DeleteAction::Done));
    assert_eq!((o.deleted_items, o.failed_items), (0, 0));
}

#[test]
fn walk_skips_what_it_cannot_remove() {
    let mut o = DeleteOutcome::new();
    let a = o.on_delete_event(
        Some(PathKind::Dir),
        DeleteEvent::Listed(Err(fail("no access", None))),
        false,
    );
    assert!(matches!(a, DeleteAction::Done));
    let a = o.on_delete_event(
        Some(PathKind::File(9)),
        DeleteEvent::Unlinked(Err(fail("busy", Some(32)))),
        true,
    );
    assert!(matches!(a, DeleteAction::Done));
    let a = o.on_delete_event(None, DeleteEvent::Meta(Err(fail("gone", None))), false);
    assert!(matches!(a, DeleteAction::Done));
    assert_eq!((o.failed_items, o.deleted_bytes), (3, 0));
    assert_eq!(o.first_error.as_deref(), Some("no access"));
}
