use std::path::PathBuf;

use spacesniff::listing::{found_total, more_line, shown_count};
use spacesniff::paths::strip_verbatim;
use spacesniff::scan::FoundDir;

#[test]
fn find_report_lines() {
    assert_eq!(more_line(4), "\u{2026} 4 more (raise -n to show)");
    assert_eq!(shown_count(10, 3), 3);
    assert_eq!(shown_count(2, 3), 2);
}

#[test]
fn found_totals() {
    let found = vec![
        FoundDir { path: PathBuf::from("a"), size: 3, files: 1 },
        FoundDir { path: PathBuf::from("b"), size: 4, files: 1 },
    ];
    assert_eq!(found_total(&found), Some(7));
    let big = vec![
        FoundDir { path: PathBuf::from("a"), size: u64::MAX, files: 1 },
        FoundDir { path: PathBuf::from("b"), size: 1, files: 1 },
    ];
    assert_eq!(found_total(&big), None);
}

#[test]
fn verbatim_prefixes() {
    assert_eq!(strip_verbatim("\\\\?\\C:\\Users"), Some("C:\\Users".to_string()));
    assert_eq!(
        strip_verbatim("\\\\?\\UNC\\server\\share"),
        Some("\\\\server\\share".to_string())
    );
    assert_eq!(strip_verbatim("/home/me"), None);
    assert_eq!(strip_verbatim("\\\\?"), None);
}
