use fs_rs::snapshot::{calculate_dir_size, FsNode};
use fs_rs::utils::dir_size;
use fs_rs::utils::{name_less, shorten_name, sort_by_name, sort_by_size, truncate_filename, SizeTable};

fn file(name: &str, len: u64) -> (String, FsNode) {
    (name.to_string(), FsNode::File(len))
}

fn dir(name: &str, children: Vec<(String, FsNode)>) -> (String, FsNode) {
    (name.to_string(), FsNode::Dir(children))
}

fn table_of(pairs: &[(&str, u64)]) -> SizeTable {
    let mut table = SizeTable::new();
    for (name, size) in pairs {
        table.insert(name.to_string(), *size);
    }
    table
}

#[test]
fn test_dir_size() {
    // "Hello\n" and "Hello, Rust!\n" as written by `writeln!`.
    let root = FsNode::Dir(vec![file("file1.txt", 6), file("file2.txt", 13)]);

    let size = dir_size(&root);

    assert!(
        size > 10,
        "Expected size to be greater than 10, but got {}",
        size
    );
}

#[test]
fn dir_size_of_two_files_is_exact() {
    let root = FsNode::Dir(vec![file("file1.txt", 6), file("file2.txt", 13)]);
    assert_eq!(dir_size(&root), 19);
    assert_eq!(calculate_dir_size(&root), 19);
}

#[test]
fn aggregate_is_files_plus_subdirectories() {
    let sub = vec![file("a.bin", 100), dir("deeper", vec![file("b.bin", 20)])];
    let root = FsNode::Dir(vec![file("top.txt", 3), dir("sub", vec![file("a.bin", 100), dir("deeper", vec![file("b.bin", 20)])]), ("link".to_string(), FsNode::Other)]);
    let sub_node = FsNode::Dir(sub);
    assert_eq!(dir_size(&sub_node), 120);
    assert_eq!(dir_size(&root), 3 + dir_size(&sub_node));
    assert_eq!(calculate_dir_size(&root), 123);
}

#[test]
fn aggregate_ignores_child_order() {
    let a = FsNode::Dir(vec![file("x", 1), dir("d", vec![file("y", 10)]), file("z", 100)]);
    let b = FsNode::Dir(vec![file("z", 100), file("x", 1), dir("d", vec![file("y", 10)])]);
    assert_eq!(dir_size(&a), dir_size(&b));
    assert_eq!(calculate_dir_size(&a), calculate_dir_size(&b));
    assert_eq!(dir_size(&a), calculate_dir_size(&b));
}

#[test]
fn aggregate_of_empty_missing_and_file_is_zero() {
    assert_eq!(dir_size(&FsNode::Dir(vec![])), 0);
    assert_eq!(dir_size(&FsNode::Other), 0);
    assert_eq!(dir_size(&FsNode::File(42)), 0);
    assert_eq!(calculate_dir_size(&FsNode::Dir(vec![])), 0);
    assert_eq!(calculate_dir_size(&FsNode::Other), 0);
}

#[test]
fn aggregate_saturates() {
    let root = FsNode::Dir(vec![file("a", u64::MAX), file("b", 5)]);
    assert_eq!(dir_size(&root), u64::MAX);
    assert_eq!(calculate_dir_size(&root), u64::MAX);
}

#[test]
fn test_sort_by_size() {
    let left = table_of(&[("file1.txt", 100), ("file2.txt", 200)]);

    let right: Vec<(String, u64)> = vec![
        ("file2.txt".to_string(), 200),
        ("file1.txt".to_string(), 100),
    ];

    let sorted_vec = sort_by_size(&left);

    assert_eq!(
        sorted_vec, right,
        "Expected {:?}, but got {:?}",
        right, sorted_vec
    );
}

#[test]
fn test_sort_by_name() {
    let left = table_of(&[("file2.txt", 200), ("file1.txt", 100)]);

    let right: Vec<(String, u64)> = vec![
        ("file1.txt".to_string(), 100),
        ("file2.txt".to_string(), 200),
    ];

    let sorted_vec = sort_by_name(&left);

    assert_eq!(
        sorted_vec, right,
        "Expected {:?}, but got {:?}",
        right, sorted_vec
    );
}

#[test]
fn sort_by_name_orders_like_str() {
    let table = table_of(&[("b", 1), ("B", 2), ("ab", 3), ("a", 4), ("é", 5), ("", 6)]);
    let names: Vec<String> = sort_by_name(&table).into_iter().map(|(n, _)| n).collect();
    let mut expected: Vec<String> = vec!["b", "B", "ab", "a", "é", ""].into_iter().map(String::from).collect();
    expected.sort();
    assert_eq!(names, expected);
}

#[test]
fn sort_by_size_keeps_every_pair() {
    let table = table_of(&[("a", 5), ("b", 50), ("c", 5), ("d", 0), ("e", 500)]);
    let sorted = sort_by_size(&table);
    let sizes: Vec<u64> = sorted.iter().map(|(_, s)| *s).collect();
    assert_eq!(sizes, vec![500, 50, 5, 5, 0]);
    let mut names: Vec<String> = sorted.into_iter().map(|(n, _)| n).collect();
    names.sort();
    assert_eq!(names, vec!["a", "b", "c", "d", "e"]);
}

#[test]
fn sorting_an_empty_table() {
    let table = SizeTable::new();
    assert!(table.is_empty());
    assert!(sort_by_size(&table).is_empty());
    assert!(sort_by_name(&table).is_empty());
}

#[test]
fn insert_replaces_existing_name() {
    let mut table = table_of(&[("a", 1), ("b", 2)]);
    table.insert("a".to_string(), 10);
    assert_eq!(table.len(), 2);
    assert_eq!(table.total(), 12);
    assert_eq!(sort_by_name(&table), vec![("a".to_string(), 10), ("b".to_string(), 2)]);
}

#[test]
fn table_total_saturates() {
    let table = table_of(&[("a", u64::MAX), ("b", 1)]);
    assert_eq!(table.total(), u64::MAX);
}

#[test]
fn test_truncate_filename() {
    let path = "this_is_a_long_filename.txt";
    let truncated = truncate_filename(path);
    let right = "this_is_a_long_....txt";

    assert_eq!(
        truncated, right,
        "Expected {:?}, but got {:?}",
        right, truncated
    );
}

#[test]
fn truncate_keeps_short_names_and_uses_last_component() {
    assert_eq!(truncate_filename("notes.md"), "notes.md");
    assert_eq!(truncate_filename("some/dir/report.pdf"), "report.pdf");
    assert_eq!(truncate_filename("Makefile"), "Makefile");
    assert_eq!(truncate_filename(".bashrc"), ".bashrc");
    assert_eq!(truncate_filename("exactly_fifteen.rs"), "exactly_fifteen.rs");
    assert_eq!(truncate_filename("sixteen_chars_xx"), "sixteen_chars_x...");
    assert_eq!(truncate_filename("archive.tar.gz"), "archive.tar.gz");
}

#[test]
fn shorten_cuts_at_a_character_boundary() {
    // Eight two-byte characters: byte 15 falls inside the eighth one.
    assert_eq!(shorten_name("éééééééé", "txt"), "ééééééé....txt");
    assert_eq!(shorten_name("abcdefghijklmnop", ""), "abcdefghijklmno...");
    assert_eq!(shorten_name("abc", ""), "abc");
}

#[test]
fn name_less_is_str_order() {
    assert!(name_less("a", "b"));
    assert!(name_less("a", "ab"));
    assert!(!name_less("ab", "a"));
    assert!(!name_less("a", "a"));
    assert!(name_less("B", "a"));
    assert!(name_less("z", "é"));
    assert!(name_less("", "a"));
}
