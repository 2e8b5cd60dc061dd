use std::path::PathBuf;

use spacesniff::scan::{
    bounds_for, budget_bounds, ends_window, initial_budget, is_excluded, match_child, should_fork,
    sort_found, DirScan, EntryAction, EntryEvent, FileTally, FoundDir, TopFiles, Tuner,
    TUNE_WINDOW,
};

fn sizes(t: TopFiles) -> Vec<u64> {
    t.into_sorted().iter().map(|f| f.size).collect()
}

#[test]
fn top_files_keep_the_largest() {
    let mut t = TopFiles::new(3);
    for (i, s) in [5u64, 1, 9, 7, 3, 9, 2].iter().enumerate() {
        t.offer(PathBuf::from(format!("f{i}")), *s);
    }
    assert_eq!(t.floor(), Some(7));
    assert_eq!(sizes(t), vec![9, 9, 7]);
}

#[test]
fn top_files_keep_empty_files_until_full_and_ties() {
    let mut t = TopFiles::new(2);
    t.offer(PathBuf::from("zero"), 0);
    assert_eq!(t.floor(), None);
    t.offer(PathBuf::from("a"), 4);
    assert_eq!(t.floor(), Some(0));
    t.offer(PathBuf::from("b"), 4);
    assert_eq!(t.floor(), Some(4));
    t.offer(PathBuf::from("c"), 4);
    let kept: Vec<PathBuf> = t.into_sorted().into_iter().map(|f| f.path).collect();
    // "b" took the place of the empty file; equal sizes keep their places
    assert_eq!(kept, vec![PathBuf::from("b"), PathBuf::from("a")]);
}

#[test]
fn top_files_one_empty_file_is_listed() {
    let mut t = TopFiles::new(1);
    t.offer(PathBuf::from("empty"), 0);
    let kept: Vec<(PathBuf, u64)> = t.into_sorted().into_iter().map(|f| (f.path, f.size)).collect();
    assert_eq!(kept, vec![(PathBuf::from("empty"), 0)]);
}

#[test]
fn top_files_capacity_zero_keeps_nothing() {
    let mut t = TopFiles::new(0);
    t.offer(PathBuf::from("a"), 10);
    assert!(t.into_sorted().is_empty());
}

#[test]
fn top_files_not_full_keeps_everything() {
    let mut t = TopFiles::new(10);
    t.offer(PathBuf::from("a"), 1);
    t.offer(PathBuf::from("b"), 3);
    t.offer(PathBuf::from("z"), 0);
    t.offer(PathBuf::from("c"), 2);
    assert_eq!(t.floor(), None);
    assert_eq!(sizes(t), vec![3, 2, 1, 0]);
}

#[test]
fn names_and_matches() {
    let list = vec!["node_modules".to_string(), "target".to_string()];
    assert!(is_excluded(&list, &"target".to_string()));
    assert!(!is_excluded(&list, &"targets".to_string()));
    assert_eq!(match_child(&list, true, &"target".to_string()), (true, false));
    assert_eq!(match_child(&list, true, &"src".to_string()), (false, true));
    // inside a match nothing more is reported
    assert_eq!(match_child(&list, false, &"target".to_string()), (false, false));
}

#[test]
fn fork_decision() {
    assert!(!should_fork(1, 0, 100));
    assert!(should_fork(2, 0, 100));
    assert!(should_fork(50, 50, 100));
    assert!(!should_fork(51, 50, 100));
    assert!(!should_fork(2, usize::MAX, 100));
}

#[test]
fn windows_and_bounds() {
    assert!(ends_window(TUNE_WINDOW));
    assert!(ends_window(2 * TUNE_WINDOW));
    assert!(!ends_window(TUNE_WINDOW + 1));
    assert_eq!(bounds_for(8), (8, 512));
    let (lo, hi) = budget_bounds();
    assert!(lo >= 1 && hi == 64 * lo);
    let b = initial_budget();
    assert!(b >= 4 && b % 4 == 0);
}

#[test]
fn tuner_climbs_and_reverses() {
    let mut t = Tuner::new();
    // window not complete yet
    assert_eq!(t.tick(100, 1_000, 40, 8, 512), None);
    // first full window: keep increasing by half
    assert_eq!(t.tick(2048, 1_000_000, 40, 8, 512), Some(60));
    assert_eq!(t.window_start_dirs, 2048);
    // faster window: keep the direction
    assert_eq!(t.tick(4096, 500_000, 60, 8, 512), Some(90));
    assert!(t.increasing);
    // slower window: reverse and shrink by a quarter
    assert_eq!(t.tick(6144, 2_000_000, 90, 8, 512), Some(68));
    assert!(!t.increasing);
    // clamped to the bounds
    assert_eq!(t.tick(8192, 2_000_000, 9, 8, 512), Some(8));
    // no time elapsed: nothing happens
    assert_eq!(t.tick(10240, 0, 9, 8, 512), None);
    // a count taken before the current window started: nothing happens
    assert_eq!(t.tick(6000, 2_000_000, 9, 8, 512), None);
    assert_eq!(t.window_start_dirs, 8192);
}

#[test]
fn tuner_clamps_high() {
    let mut t = Tuner::new();
    assert_eq!(t.tick(4096, 10, 500, 8, 512), Some(512));
}

#[test]
fn file_tally() {
    let mut t = FileTally::new();
    assert!(t.add(10));
    assert!(t.add(5));
    assert_eq!((t.size, t.count), (15, 2));
    assert!(!t.add(u64::MAX));
    assert_eq!((t.size, t.count), (15, 2));
}

#[test]
fn found_sorted_largest_first() {
    let found = vec![
        FoundDir { path: PathBuf::from("a"), size: 1, files: 1 },
        FoundDir { path: PathBuf::from("b"), size: 5, files: 1 },
        FoundDir { path: PathBuf::from("c"), size: 5, files: 2 },
    ];
    let sorted: Vec<PathBuf> = sort_found(found).into_iter().map(|d| d.path).collect();
    assert_eq!(sorted, vec![PathBuf::from("b"), PathBuf::from("c"), PathBuf::from("a")]);
}

#[test]
fn dir_scan_counts_entries() {
    let exclude = vec![".git".to_string()];
    let mut d = DirScan::new();
    let a = d.on_entry(EntryEvent::File { path: PathBuf::from("f"), size: Some(10) }, &exclude, true);
    assert!(matches!(a, EntryAction::Offer { size: 10, .. }));
    let a = d.on_entry(EntryEvent::File { path: PathBuf::from("g"), size: Some(5) }, &exclude, false);
    assert!(matches!(a, EntryAction::Nothing));
    d.on_entry(EntryEvent::File { path: PathBuf::from("h"), size: None }, &exclude, true);
    d.on_entry(EntryEvent::Unreadable, &exclude, true);
    d.on_entry(
        EntryEvent::Directory { path: PathBuf::from(".git"), name: ".git".to_string() },
        &exclude,
        true,
    );
    d.on_entry(
        EntryEvent::Directory { path: PathBuf::from("src"), name: "src".to_string() },
        &exclude,
        true,
    );
    d.on_entry(EntryEvent::Other, &exclude, true);
    assert_eq!((d.tally.size, d.tally.count), (15, 2));
    assert_eq!(d.errors, 2);
    let names: Vec<String> = d.subdirs.iter().map(|(_, n)| n.clone()).collect();
    assert_eq!(names, vec!["src".to_string()]);
    let a = d.on_entry(
        EntryEvent::File { path: PathBuf::from("big"), size: Some(u64::MAX) },
        &exclude,
        true,
    );
    assert!(matches!(a, EntryAction::Overflow));
    assert_eq!((d.tally.size, d.tally.count), (15, 2));
}

#[test]
fn top_files_ignore_offer_order() {
    let files: Vec<(&str, u64)> = vec![("a", 5), ("b", 9), ("c", 5), ("d", 1), ("e", 7)];
    let mut forward = TopFiles::new(3);
    for (p, s) in &files {
        forward.offer(PathBuf::from(*p), *s);
    }
    let mut backward = TopFiles::new(3);
    for (p, s) in files.iter().rev() {
        backward.offer(PathBuf::from(*p), *s);
    }
    assert_eq!(sizes(forward), vec![9, 7, 5]);
    assert_eq!(sizes(backward), vec![9, 7, 5]);
}
