use fs_rs::snapshot::FsNode;
use fs_rs::tree::{build_tree, collect_entries, generate_tree, join, render_line, render_tree, split};

fn file(name: &str, len: u64) -> (String, FsNode) {
    (name.to_string(), FsNode::File(len))
}

fn dir(name: &str, children: Vec<(String, FsNode)>) -> (String, FsNode) {
    (name.to_string(), FsNode::Dir(children))
}

/// `aaa_subdir/file1.txt` ("Hello\n") beside `file2.txt` ("Hello, Rust!\n").
fn sample() -> FsNode {
    FsNode::Dir(vec![
        dir("aaa_subdir", vec![file("file1.txt", 6)]),
        file("file2.txt", 13),
    ])
}

#[test]
fn test_generate_tree() {
    let root = sample();

    let tree = generate_tree(&root, None, false);

    assert!(tree.contains("file1.txt"));
    assert!(tree.contains("file2.txt"));

    let tree_ascii = generate_tree(&root, None, true);

    assert!(tree_ascii.contains("file1.txt"));
    assert!(tree_ascii.contains("file2.txt"));
    assert!(tree_ascii.contains("|"));
}

#[test]
fn generate_tree_exact_text() {
    let ascii = generate_tree(&sample(), None, true);
    assert_eq!(
        ascii,
        "+-- aaa_subdir/  (6 B)\n|   `-- file1.txt*  (6 B)\n`-- file2.txt*  (13 B)\n"
    );
    let unicode = generate_tree(&sample(), None, false);
    assert_eq!(
        unicode,
        "├── aaa_subdir/  (6 B)\n│   └── file1.txt*  (6 B)\n└── file2.txt*  (13 B)\n"
    );
}

#[test]
fn children_render_in_name_order() {
    let rows = vec![
        ("b".to_string(), 1, false),
        ("a".to_string(), 2, false),
    ];
    let text = render_tree(&build_tree(rows), "", true);
    assert_eq!(text, "+-- a*  (2 B)\n`-- b*  (1 B)\n");
    let a = text.find("a*").unwrap();
    let b = text.find("b*").unwrap();
    assert!(a < b);
}

#[test]
fn ascii_and_unicode_glyphs() {
    let root = FsNode::Dir(vec![
        dir("d1", vec![file("f", 1), dir("e", vec![file("g", 2)])]),
        dir("d2", vec![file("h", 3)]),
        file("z", 4),
    ]);
    let ascii = generate_tree(&root, None, true);
    for glyph in ['│', '├', '└', '─'] {
        assert!(!ascii.contains(glyph));
    }
    assert!(ascii.contains('|'));
    let unicode = generate_tree(&root, None, false);
    assert!(unicode.contains('│'));
    assert!(unicode.contains('├'));
    assert!(unicode.contains('└'));
    assert!(!unicode.contains('|'));
    assert!(!unicode.contains('`'));
}

#[test]
fn depth_one_lists_only_children() {
    let root = FsNode::Dir(vec![
        dir("a", vec![dir("b", vec![file("c", 1)])]),
        file("f", 2),
    ]);
    let mut one: Vec<String> = collect_entries(&root, "", 1, 1).into_iter().map(|r| r.0).collect();
    one.sort();
    assert_eq!(one, vec!["a", "f"]);
    let mut two: Vec<String> = collect_entries(&root, "", 1, 2).into_iter().map(|r| r.0).collect();
    two.sort();
    assert_eq!(two, vec!["a", "a/b", "f"]);
    let mut all: Vec<String> = collect_entries(&root, "", 1, usize::MAX).into_iter().map(|r| r.0).collect();
    all.sort();
    assert_eq!(all, vec!["a", "a/b", "a/b/c", "f"]);
}

#[test]
fn collected_rows_carry_sizes_and_kinds() {
    let root = FsNode::Dir(vec![
        dir("a", vec![file("x", 5), file("y", 7)]),
        ("sock".to_string(), FsNode::Other),
    ]);
    let rows = collect_entries(&root, "", 1, 3);
    assert_eq!(
        rows,
        vec![
            ("a".to_string(), 12, true),
            ("a/x".to_string(), 5, false),
            ("a/y".to_string(), 7, false),
        ]
    );
    assert!(collect_entries(&root, "", 2, 1).is_empty());
    assert!(collect_entries(&FsNode::File(3), "", 1, 3).is_empty());
}

#[test]
fn depth_limit_in_generate_tree() {
    let root = FsNode::Dir(vec![dir("a", vec![file("deep.txt", 9)])]);
    let shallow = generate_tree(&root, Some(1), true);
    assert_eq!(shallow, "`-- a/  (9 B)\n");
    assert!(generate_tree(&root, Some(0), true).is_empty());
}

#[test]
fn empty_directory_renders_nothing() {
    assert_eq!(generate_tree(&FsNode::Dir(vec![]), None, false), "");
}

#[test]
fn render_line_formats_sizes() {
    assert_eq!(render_line("|   ", "+-- ", "f", false, "1.50 kB"), "|   +-- f*  (1.50 kB)\n");
    assert_eq!(render_line("", "`-- ", "d", true, "0 B"), "`-- d/  (0 B)\n");
    let rows = vec![("big".to_string(), 1_500, false)];
    assert_eq!(render_tree(&build_tree(rows), "", true), "`-- big*  (1.50 kB)\n");
}

#[test]
fn build_tree_creates_missing_parents() {
    let rows = vec![("p/q".to_string(), 4, false)];
    let text = render_tree(&build_tree(rows), "", true);
    assert_eq!(text, "`-- p*  (0 B)\n    `-- q*  (4 B)\n");
}

#[test]
fn build_tree_later_row_wins() {
    let rows = vec![
        ("d".to_string(), 1, true),
        ("d".to_string(), 2, false),
    ];
    assert_eq!(render_tree(&build_tree(rows), "", true), "`-- d*  (2 B)\n");
}

#[test]
fn split_and_join_paths() {
    assert_eq!(split("a/b/c"), vec!["a", "b", "c"]);
    assert_eq!(split(""), vec![""]);
    assert_eq!(split("a//b/"), vec!["a", "", "b", ""]);
    assert_eq!(join("", "x"), "x");
    assert_eq!(join("a/b", "x"), "a/b/x");
}
