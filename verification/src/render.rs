//! The tree of a scan report: which row stands where, with what prefix and label.
use vstd::prelude::*;

use crate::text::{dec, push_all, push_dec, push_str, string_from_chars};
use crate::tree::{JsonNode, ShownTree};

verus! {

/// A line of the tree, before its numbers are drawn: the indentation and
/// branch in front of it, the size it stands for, and its label.
pub struct TreeRow {
    pub prefix: String,
    pub size: u64,
    pub label: String,
}

/// What a row holds, as plain values.
pub open spec fn row_view(r: TreeRow) -> (Seq<char>, u64, Seq<char>) {
    (r.prefix@, r.size, r.label@)
}

/// The contents of a list of rows.
pub open spec fn rows(v: Seq<TreeRow>) -> Seq<(Seq<char>, u64, Seq<char>)> {
    v.map_values(|r: TreeRow| row_view(r))
}

/// A row drawn at `indent` with `branch`, for `size` bytes, labelled `label`.
pub open spec fn row_spec(indent: Seq<char>, branch: Seq<char>, size: u64, label: Seq<char>) -> (
    Seq<char>,
    u64,
    Seq<char>,
) {
    (indent + branch, size, label)
}

/// Number of lines directly under `t`: its shown children, and one for the
/// folded ones.
pub open spec fn entry_count(t: ShownTree) -> nat {
    t.children.len() + if t.other is Some {
        1nat
    } else {
        0nat
    }
}

/// The label of the folded children: "… 3 more dirs" / "… 1 more dir".
pub open spec fn other_label(dirs: nat) -> Seq<char> {
    "\u{2026} "@ + dec(dirs) + " more dir"@ + if dirs == 1 {
        ""@
    } else {
        "s"@
    }
}

#[verifier::opaque]
/// The lines of the tree below `t`: for each shown child, its row (the last
/// entry drawn with "└─", the others with "├─") followed by its own lines
/// indented one level; then a row for the folded children.
pub open spec fn tree_lines(t: ShownTree, indent: Seq<char>) -> Seq<(Seq<char>, u64, Seq<char>)>
    decreases t, t.children.len() + 1,
{
    children_lines(t, indent, t.children.len()) + match t.other {
        Some((dirs, size)) => seq![
            row_spec(indent, "\u{2514}\u{2500}"@, size as u64, other_label(dirs)),
        ],
        None => Seq::empty(),
    }
}

#[verifier::opaque]
/// The lines of the first `k` shown children of `t`.
pub open spec fn children_lines(
    t: ShownTree,
    indent: Seq<char>,
    k: nat,
) -> Seq<(Seq<char>, u64, Seq<char>)>
    decreases t, k,
{
    if k == 0 || k > t.children.len() {
        Seq::empty()
    } else {
        let c = t.children[k - 1];
        let last = k == entry_count(t);
        let branch = if last {
            "\u{2514}\u{2500}"@
        } else {
            "\u{251c}\u{2500}"@
        };
        let next_indent = indent + (if last {
            " "@
        } else {
            "\u{2502}"@
        }) + "  "@;
        proof {
            assert(decreases_to!(t => t.children[k - 1]));
        }
        children_lines(t, indent, (k - 1) as nat) + seq![
            row_spec(indent, branch, c.size, c.name),
        ] + tree_lines(c, next_indent)
    }
}

proof fn lemma_children_lines_step(t: ShownTree, indent: Seq<char>, k: nat)
    requires
        0 < k <= t.children.len(),
    ensures
        ({
            let c = t.children[k - 1];
            let last = k == entry_count(t);
            children_lines(t, indent, k) == children_lines(
                t,
                indent,
                (k - 1) as nat,
            ) + seq![
                row_spec(
                    indent,
                    if last {
                        "\u{2514}\u{2500}"@
                    } else {
                        "\u{251c}\u{2500}"@
                    },
                    c.size,
                    c.name,
                ),
            ] + tree_lines(
                c,
                indent + (if last {
                    " "@
                } else {
                    "\u{2502}"@
                }) + "  "@,
            )
        }),
{
    reveal(children_lines);
    reveal(tree_lines);
}

proof fn lemma_tree_lines_unfold(t: ShownTree, indent: Seq<char>)
    ensures
        tree_lines(t, indent) == children_lines(
            t,
            indent,
            t.children.len(),
        ) + match t.other {
            Some((dirs, size)) => seq![
                row_spec(indent, "\u{2514}\u{2500}"@, size as u64, other_label(dirs)),
            ],
            None => Seq::empty(),
        },
        children_lines(t, indent, 0) == Seq::<(Seq<char>, u64, Seq<char>)>::empty(),
{
    reveal(tree_lines);
    reveal(children_lines);
}

fn push_row(
    out: &mut Vec<TreeRow>,
    indent: &Vec<char>,
    last: bool,
    size: u64,
    label: &Vec<char>,
)
    ensures
        rows(final(out)@) == rows(old(out)@).push(
            row_spec(
                indent@,
                if last {
                    "\u{2514}\u{2500}"@
                } else {
                    "\u{251c}\u{2500}"@
                },
                size,
                label@,
            ),
        ),
{
    let mut prefix: Vec<char> = Vec::new();
    push_all(&mut prefix, indent);
    if last {
        push_str(&mut prefix, "\u{2514}\u{2500}");
    } else {
        push_str(&mut prefix, "\u{251c}\u{2500}");
    }
    let row = TreeRow { prefix: string_from_chars(&prefix), size, label: string_from_chars(label) };
    let ghost before = out@;
    out.push(row);
    assert(rows(out@) =~= rows(before).push(row_view(row)));
}

/// Appends the row of `child` and, below it, its own lines.
fn push_child_lines(
    out: &mut Vec<TreeRow>,
    child: &JsonNode,
    indent: &Vec<char>,
    last: bool,
)
    ensures
        rows(final(out)@) == rows(old(out)@) + seq![
            row_spec(
                indent@,
                if last {
                    "\u{2514}\u{2500}"@
                } else {
                    "\u{251c}\u{2500}"@
                },
                child.size,
                child.name@,
            ),
        ] + tree_lines(
            child.shown(),
            indent@ + (if last {
                " "@
            } else {
                "\u{2502}"@
            }) + "  "@,
        ),
    decreases child, 2nat,
{
    let name = crate::text::chars_of(child.name.as_str());
    push_row(out, indent, last, child.size, &name);
    let mut next_indent: Vec<char> = Vec::new();
    push_all(&mut next_indent, indent);
    if last {
        push_str(&mut next_indent, " ");
    } else {
        push_str(&mut next_indent, "\u{2502}");
    }
    push_str(&mut next_indent, "  ");
    push_tree_lines(out, child, &next_indent);
    assert(rows(out@) =~= rows(old(out)@) + seq![
        row_spec(
            indent@,
            if last {
                "\u{2514}\u{2500}"@
            } else {
                "\u{251c}\u{2500}"@
            },
            child.size,
            child.name@,
        ),
    ] + tree_lines(child.shown(), next_indent@));
}

/// Appends the rows of the tree below `node`, drawn with `indent`.
pub fn push_tree_lines(out: &mut Vec<TreeRow>, node: &JsonNode, indent: &Vec<char>)
    ensures
        rows(final(out)@) == rows(old(out)@) + tree_lines(node.shown(), indent@),
    decreases node, 1nat,
{
    let ghost t = node.shown();
    proof {
        lemma_tree_lines_unfold(t, indent@);
    }
    let has_other = node.other.is_some();
    let mut i: usize = 0;
    while i < node.children.len()
        invariant
            i <= node.children.len(),
            t == node.shown(),
            has_other == (t.other is Some),
            rows(out@) == rows(old(out)@) + children_lines(t, indent@, i as nat),
        decreases node.children.len() - i,
    {
        let child = &node.children[i];
        let last = !has_other && i + 1 == node.children.len();
        proof {
            assert(last == (i + 1 == entry_count(t)));
            assert(t.children[i as int] == child.shown());
            assert(decreases_to!(*node => node.children@[i as int]));
            lemma_children_lines_step(t, indent@, (i + 1) as nat);
        }
        push_child_lines(out, child, indent, last);
        i += 1;
        assert(rows(out@) =~= rows(old(out)@) + children_lines(t, indent@, i as nat));
    }
    match &node.other {
        Some(o) => {
            let mut label: Vec<char> = Vec::new();
            push_str(&mut label, "\u{2026} ");
            push_dec(&mut label, o.dirs as u64);
            push_str(&mut label, " more dir");
            if o.dirs == 1 {
                push_str(&mut label, "");
            } else {
                push_str(&mut label, "s");
            }
            assert(label@ == other_label(o.dirs as nat));
            push_row(out, indent, true, o.size, &label);
            assert(rows(out@) =~= rows(old(out)@) + tree_lines(t, indent@));
        },
        None => {
            assert(rows(out@) =~= rows(old(out)@) + tree_lines(t, indent@));
        },
    }
}

/// The rows of a tree report below its header.
pub fn scan_tree_lines(tree: &JsonNode) -> (lines: Vec<TreeRow>)
    ensures
        rows(lines@) == tree_lines(tree.shown(), Seq::empty()),
{
    let mut out: Vec<TreeRow> = Vec::new();
    let indent: Vec<char> = Vec::new();
    assert(rows(out@) =~= Seq::<(Seq<char>, u64, Seq<char>)>::empty());
    push_tree_lines(&mut out, tree, &indent);
    assert(indent@ =~= Seq::<char>::empty());
    out
}

}
