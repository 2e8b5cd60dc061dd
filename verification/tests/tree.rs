use spacesniff::render::{scan_tree_lines, TreeRow};
use spacesniff::tree::{prune, tree_sizes_fit, DirNode, JsonNode};

fn leaf(name: &str, size: u64, files: u64) -> DirNode {
    DirNode::assemble(name.to_string(), size, files, Vec::new()).unwrap()
}

fn names(n: &DirNode) -> Vec<String> {
    n.children.iter().map(|c| c.name.clone()).collect()
}

#[test]
fn assemble_sums_and_orders_children() {
    let kids = vec![leaf("a", 10, 1), leaf("b", 30, 2), leaf("c", 20, 3), leaf("d", 30, 4)];
    let n = DirNode::assemble("root".to_string(), 5, 7, kids).unwrap();
    assert_eq!(n.size, 95);
    assert_eq!(n.files, 17);
    // largest first; equal sizes keep their order
    assert_eq!(names(&n), vec!["b", "d", "c", "a"]);
}

#[test]
fn assemble_refuses_overflow() {
    let kids = vec![leaf("a", u64::MAX, 1)];
    assert!(DirNode::assemble("root".to_string(), 1, 0, kids).is_none());
    let kids = vec![leaf("a", 1, u64::MAX)];
    assert!(DirNode::assemble("root".to_string(), 0, 1, kids).is_none());
}

#[test]
fn unreadable_directory_is_empty() {
    let n = DirNode::unreadable("x".to_string());
    assert_eq!((n.size, n.files, n.children.len()), (0, 0, 0));
}

fn sample() -> DirNode {
    let x = DirNode::assemble(
        "x".to_string(),
        0,
        0,
        vec![leaf("x1", 40, 1), leaf("x2", 20, 1)],
    )
    .unwrap();
    DirNode::assemble(
        "root".to_string(),
        0,
        0,
        vec![leaf("c", 10, 1), x, leaf("b", 30, 1)],
    )
    .unwrap()
}

fn child_names(n: &JsonNode) -> Vec<String> {
    n.children.iter().map(|c| c.name.clone()).collect()
}

#[test]
fn prune_limits_and_folds() {
    let root = sample();
    assert!(tree_sizes_fit(&root));
    let t = prune(&root, 1, 2, 0);
    assert_eq!(t.size, 100);
    assert_eq!(child_names(&t), vec!["x", "b"]);
    let other = t.other.as_ref().unwrap();
    assert_eq!((other.dirs, other.size), (1, 10));
    // depth 1: the children of x are folded
    let x = &t.children[0];
    assert!(x.children.is_empty());
    let xo = x.other.as_ref().unwrap();
    assert_eq!((xo.dirs, xo.size), (2, 60));
    // sizes add up to the parent
    let shown: u64 = t.children.iter().map(|c| c.size).sum();
    assert_eq!(shown + other.size, t.size);
}

#[test]
fn prune_min_size_and_depth_zero() {
    let root = sample();
    let t = prune(&root, 3, 10, 25);
    assert_eq!(child_names(&t), vec!["x", "b"]);
    assert_eq!(t.other.as_ref().map(|o| (o.dirs, o.size)), Some((1, 10)));
    let x = &t.children[0];
    assert_eq!(child_names(x), vec!["x1"]);
    assert_eq!(x.other.as_ref().map(|o| (o.dirs, o.size)), Some((1, 20)));
    let t0 = prune(&root, 0, 10, 0);
    assert!(t0.children.is_empty());
    assert_eq!(t0.other.as_ref().map(|o| (o.dirs, o.size)), Some((3, 100)));
    let leaf_only = prune(&leaf("z", 3, 1), 2, 2, 0);
    assert!(leaf_only.other.is_none());
}

#[test]
fn tree_sizes_fit_detects_overflow() {
    let bad = DirNode {
        name: "r".to_string(),
        size: 0,
        files: 0,
        children: vec![leaf("a", u64::MAX, 0), leaf("b", 1, 0)],
    };
    assert!(!tree_sizes_fit(&bad));
    assert!(tree_sizes_fit(&sample()));
}

fn row_parts(rows: &[TreeRow]) -> Vec<(String, u64, String)> {
    rows.iter().map(|r| (r.prefix.clone(), r.size, r.label.clone())).collect()
}

fn row(prefix: &str, size: u64, label: &str) -> (String, u64, String) {
    (prefix.to_string(), size, label.to_string())
}

#[test]
fn tree_lines_plain() {
    let root = sample();
    let t = prune(&root, 2, 2, 0);
    let lines = scan_tree_lines(&t);
    assert_eq!(
        row_parts(&lines),
        vec![
            row("\u{251c}\u{2500}", 60, "x"),
            row("\u{2502}  \u{251c}\u{2500}", 40, "x1"),
            row("\u{2502}  \u{2514}\u{2500}", 20, "x2"),
            row("\u{251c}\u{2500}", 30, "b"),
            row("\u{2514}\u{2500}", 10, "\u{2026} 1 more dir"),
        ]
    );
}

#[test]
fn tree_lines_last_child_indent() {
    let mid = DirNode::assemble("m".to_string(), 0, 0, vec![leaf("deep", 5, 1)]).unwrap();
    let root = DirNode::assemble("r".to_string(), 0, 0, vec![mid]).unwrap();
    let t = prune(&root, 3, 10, 0);
    let lines = scan_tree_lines(&t);
    assert_eq!(
        row_parts(&lines),
        vec![
            row("\u{2514}\u{2500}", 5, "m"),
            row("   \u{2514}\u{2500}", 5, "deep"),
        ]
    );
}

#[test]
fn tree_lines_of_empty_root() {
    let root = DirNode::unreadable("r".to_string());
    let t = prune(&root, 3, 10, 0);
    assert!(scan_tree_lines(&t).is_empty());
}

#[test]
fn folded_dirs_plural() {
    let root = sample();
    let t = prune(&root, 0, 10, 0);
    let lines = scan_tree_lines(&t);
    assert_eq!(row_parts(&lines), vec![row("\u{2514}\u{2500}", 100, "\u{2026} 3 more dirs")]);
}

#[test]
fn own_files_and_shown_and_folded_make_the_size() {
    let node = DirNode::assemble(
        "r".to_string(),
        7,
        3,
        vec![leaf("a", 50, 1), leaf("b", 20, 1), leaf("c", 3, 1)],
    )
    .unwrap();
    let t = prune(&node, 1, 1, 0);
    let shown: u64 = t.children.iter().map(|c| c.size).sum();
    let folded = t.other.as_ref().map(|o| o.size).unwrap_or(0);
    assert_eq!(shown + folded + 7, t.size);
    assert_eq!(t.children.len() + t.other.as_ref().map(|o| o.dirs).unwrap_or(0), 3);
}

#[test]
fn assemble_ignores_the_order_of_subdirectories() {
    let a = DirNode::assemble(
        "r".to_string(),
        5,
        1,
        vec![leaf("a", 10, 1), leaf("b", 30, 2), leaf("c", 10, 3)],
    )
    .unwrap();
    let b = DirNode::assemble(
        "r".to_string(),
        5,
        1,
        vec![leaf("c", 10, 3), leaf("a", 10, 1), leaf("b", 30, 2)],
    )
    .unwrap();
    assert_eq!((a.size, a.files), (b.size, b.files));
    let sizes = |n: &DirNode| n.children.iter().map(|c| c.size).collect::<Vec<u64>>();
    assert_eq!(sizes(&a), vec![30, 10, 10]);
    assert_eq!(sizes(&a), sizes(&b));
    assert!(tree_sizes_fit(&a));
}
