use fs_rs::scan::{scan_roots, Root};
use fs_rs::snapshot::FsNode;
use fs_rs::utils::sort_by_name;

fn root(path: &str, node: Option<FsNode>) -> Root {
    Root { path: path.to_string(), node }
}

#[test]
fn later_root_wins_on_shared_names() {
    let first = FsNode::Dir(vec![
        ("same.txt".to_string(), FsNode::File(1)),
        ("only_first".to_string(), FsNode::File(2)),
    ]);
    let second = FsNode::Dir(vec![("same.txt".to_string(), FsNode::File(30))]);
    let report = scan_roots(&vec![root("one", Some(first)), root("two", Some(second))]);
    assert_eq!(report.table.len(), 2);
    assert_eq!(
        sort_by_name(&report.table),
        vec![("only_first".to_string(), 2), ("same.txt".to_string(), 30)]
    );
    assert!(report.missing.is_empty());
    assert!(!report.halted);
}

#[test]
fn directories_are_marked_and_aggregated() {
    let node = FsNode::Dir(vec![
        (
            "a_very_long_directory_name".to_string(),
            FsNode::Dir(vec![("x".to_string(), FsNode::File(10)), ("y".to_string(), FsNode::File(5))]),
        ),
        ("f.txt".to_string(), FsNode::File(7)),
        ("link".to_string(), FsNode::Other),
    ]);
    let report = scan_roots(&vec![root(".", Some(node))]);
    assert_eq!(
        sort_by_name(&report.table),
        vec![("a_very_long_dir.../".to_string(), 15), ("f.txt".to_string(), 7)]
    );
    assert_eq!(report.table.total(), 22);
}

#[test]
fn file_roots_and_missing_roots() {
    let report = scan_roots(&vec![
        root("nowhere", None),
        root("docs/readme.md", Some(FsNode::File(12))),
        root("gone", None),
    ]);
    assert_eq!(sort_by_name(&report.table), vec![("readme.md".to_string(), 12)]);
    assert_eq!(report.missing, vec![0, 2]);
    assert!(report.halted);
}

#[test]
fn nothing_found() {
    let report = scan_roots(&vec![root("empty", Some(FsNode::Dir(vec![])))]);
    assert!(report.table.is_empty());
    assert!(!report.halted);
    let none = scan_roots(&vec![]);
    assert!(none.table.is_empty());
    assert!(!none.halted);
}
