//! The bounded tree: the end-to-end scenarios and the caps.

use disk_scanner::records::MftRecord;
use disk_scanner::tree::build_tree_from_mft_records;
use disk_scanner::tree::count_nodes;
use disk_scanner::tree::FileNode;

fn rec(path: &str, size: u64, is_dir: bool) -> MftRecord {
    MftRecord { full_path: path.to_string(), size, is_dir, modified: None }
}

fn rec_m(path: &str, size: u64, is_dir: bool, modified: Option<u64>) -> MftRecord {
    MftRecord { full_path: path.to_string(), size, is_dir, modified }
}

fn build(
    records: &Vec<MftRecord>,
    drive: char,
    root_str: &str,
    shallow_dirs: bool,
    shallow_names: &Vec<String>,
) -> (FileNode, u64, u64) {
    let trim = format!("{}:", drive);
    let key = format!("{}:\\", drive);
    build_tree_from_mft_records(records, &trim, &key, root_str, root_str, shallow_dirs, shallow_names)
        .unwrap()
}

/// Depth of the deepest leaf, counting the root as one node.
fn depth_of(n: &FileNode) -> usize {
    1 + n.children.iter().map(depth_of).max().unwrap_or(0)
}

fn max_fanout(n: &FileNode) -> usize {
    n.children
        .iter()
        .map(max_fanout)
        .max()
        .unwrap_or(0)
        .max(n.children.len())
}

/// Every directory with children carries the sum of its children's sizes.
fn sizes_consistent(n: &FileNode) -> bool {
    (n.children.is_empty() || n.size == n.children.iter().map(|c| c.size).sum::<u64>())
        && n.children.iter().all(sizes_consistent)
}

/// Every path below the root is canonical: `X:\...`, no trailing backslash,
/// no doubled separator.
fn paths_canonical(n: &FileNode, drive: char) -> bool {
    n.children.iter().all(|c| {
        let p = &c.path;
        p.len() >= 3
            && p.starts_with(&format!("{}:\\", drive))
            && (p.len() == 3 || !p.ends_with('\\'))
            && !p.contains("\\\\")
            && paths_canonical(c, drive)
    })
}

#[test]
fn empty_volume_root() {
    let records = vec![rec("F:\\", 0, true)];
    let (root, file_count, total_size) = build(&records, 'F', "F:\\", false, &vec![]);
    assert_eq!(root.path, "F:\\");
    assert_eq!(root.name, "F:\\");
    assert_eq!(root.size, 0);
    assert!(root.is_dir);
    assert!(root.children.is_empty());
    assert_eq!(file_count, 1);
    assert_eq!(total_size, 0);
}

#[test]
fn single_file() {
    let records = vec![rec("F:\\", 0, true), rec_m("F:\\a.bin", 100, false, Some(9))];
    let (root, file_count, total_size) = build(&records, 'F', "F:\\", false, &vec![]);
    assert_eq!(root.size, 100);
    assert_eq!(total_size, 100);
    assert_eq!(file_count, 2);
    assert_eq!(root.children.len(), 1);
    let c = &root.children[0];
    assert_eq!(c.path, "F:\\a.bin");
    assert_eq!(c.name, "a.bin");
    assert_eq!(c.size, 100);
    assert!(!c.is_dir);
    assert_eq!(c.modified, Some(9));
}

#[test]
fn nested_aggregation() {
    let records = vec![
        rec("F:\\", 0, true),
        rec("F:\\d", 0, true),
        rec("F:\\d\\x", 10, false),
        rec("F:\\d\\y", 20, false),
    ];
    let (root, file_count, total_size) = build(&records, 'F', "F:\\", false, &vec![]);
    assert_eq!(root.size, 30);
    assert_eq!(total_size, 30);
    assert_eq!(file_count, 4);
    assert_eq!(root.children.len(), 1);
    let d = &root.children[0];
    assert_eq!(d.path, "F:\\d");
    assert_eq!(d.size, 30);
    assert!(d.is_dir);
    let mut leaf_sizes: Vec<u64> = d.children.iter().map(|c| c.size).collect();
    leaf_sizes.sort();
    assert_eq!(leaf_sizes, vec![10, 20]);
    assert!(sizes_consistent(&root));
    assert!(paths_canonical(&root, 'F'));
}

#[test]
fn shallow_collapse() {
    let records = vec![
        rec("C:\\", 0, true),
        rec("C:\\Windows", 0, true),
        rec("C:\\Windows\\a", 5, false),
        rec("C:\\Windows\\b", 7, false),
    ];
    let names = vec!["Windows".to_string()];
    let (root, file_count, total_size) = build(&records, 'C', "C:\\", true, &names);
    assert_eq!(root.children.len(), 1);
    let w = &root.children[0];
    assert_eq!(w.path, "C:\\Windows");
    assert_eq!(w.size, 12);
    assert!(w.is_dir);
    assert!(w.children.is_empty());
    assert_eq!(file_count, 2);
    assert_eq!(total_size, 12);
}

#[test]
fn shallow_names_match_case_insensitively() {
    let records = vec![
        rec("C:\\", 0, true),
        rec("C:\\WINDOWS", 0, true),
        rec("C:\\WINDOWS\\a", 5, false),
    ];
    let names = vec!["Windows".to_string()];
    let (root, _, _) = build(&records, 'C', "C:\\", true, &names);
    assert_eq!(root.children.len(), 1);
    assert!(root.children[0].children.is_empty());
    assert_eq!(root.children[0].size, 5);
}

#[test]
fn shallow_policy_off_expands_normally() {
    let records = vec![
        rec("C:\\", 0, true),
        rec("C:\\Windows", 0, true),
        rec("C:\\Windows\\a", 5, false),
    ];
    let names = vec!["Windows".to_string()];
    let (root, file_count, _) = build(&records, 'C', "C:\\", false, &names);
    assert_eq!(root.children.len(), 1);
    assert_eq!(root.children[0].children.len(), 1);
    assert_eq!(file_count, 3);
}

#[test]
fn fanout_cap_keeps_first_five_hundred() {
    let mut records = vec![rec("F:\\", 0, true)];
    for i in 1..=600u64 {
        records.push(rec(&format!("F:\\f{:03}", i), i, false));
    }
    let (root, file_count, total_size) = build(&records, 'F', "F:\\", false, &vec![]);
    assert_eq!(root.children.len(), 500);
    // the first 500 files in child-index order, which is input order
    let expected: u64 = (1..=500u64).sum();
    assert_eq!(root.size, expected);
    assert_eq!(total_size, expected);
    assert_eq!(file_count, 501);
    assert!(max_fanout(&root) <= 500);
}

#[test]
fn depth_cap_expands_depth_ten_and_stops_below() {
    // a chain a1\...\a11 of directories with one file below a11
    let mut records = vec![rec("F:\\", 0, true)];
    let mut p = String::from("F:");
    for i in 1..=11usize {
        p = format!("{}\\a{}", p, i);
        records.push(rec(&p, 0, true));
    }
    records.push(rec(&format!("{}\\deep.bin", p), 3, false));
    let (root, _, _) = build(&records, 'F', "F:\\", false, &vec![]);
    // walk to the node at depth 10 (a10)
    let mut node = &root;
    for i in 1..=10usize {
        assert_eq!(node.children.len(), 1, "missing child at depth {}", i);
        node = &node.children[0];
        assert!(node.name.starts_with('a'));
    }
    // a10 is fully expanded: its child a11 is a leaf, although the index
    // has a record below it
    assert_eq!(node.name, "a10");
    assert_eq!(node.children.len(), 1);
    let a11 = &node.children[0];
    assert_eq!(a11.name, "a11");
    assert!(a11.children.is_empty());
    assert_eq!(a11.size, 0);
    // no path from root to leaf exceeds the cap
    assert!(depth_of(&root) <= 12);
    assert_eq!(depth_of(&root), 12);
}

#[test]
fn count_nodes_counts_whole_subtree() {
    let records = vec![
        rec("F:\\", 0, true),
        rec("F:\\d", 0, true),
        rec("F:\\d\\x", 10, false),
        rec("F:\\d\\y", 20, false),
    ];
    let (root, file_count, _) = build(&records, 'F', "F:\\", false, &vec![]);
    assert_eq!(count_nodes(&root), 4);
    assert_eq!(count_nodes(&root), file_count);
}

#[test]
fn root_record_supplies_own_size_and_modified() {
    let records = vec![
        rec_m("F:\\", 11, true, Some(77)),
        rec("F:\\a", 100, false),
    ];
    let (root, _, total_size) = build(&records, 'F', "F:\\", false, &vec![]);
    assert_eq!(root.modified, Some(77));
    assert_eq!(root.size, 111);
    assert_eq!(total_size, 111);
}

#[test]
fn interior_directory_modified_is_absent() {
    let records = vec![
        rec("F:\\", 0, true),
        rec_m("F:\\d", 0, true, Some(5)),
        rec("F:\\d\\x", 1, false),
    ];
    let (root, _, _) = build(&records, 'F', "F:\\", false, &vec![]);
    assert_eq!(root.children[0].modified, None);
}

#[test]
fn missing_root_record_defaults_to_zero() {
    let records = vec![rec("F:\\a", 5, false)];
    let (root, file_count, total_size) = build(&records, 'F', "F:\\", false, &vec![]);
    assert_eq!(root.modified, None);
    assert_eq!(root.size, 5);
    assert_eq!(total_size, 5);
    assert_eq!(file_count, 2);
}

#[test]
fn root_probe_falls_back_to_case_insensitive_key() {
    // records built by hand with a lowercase drive: the child is keyed
    // under "f:", which only the case-insensitive probe finds
    let records = vec![rec("F:\\", 0, true), rec("f:\\x", 5, false)];
    let (root, _, total_size) = build(&records, 'F', "F:\\", false, &vec![]);
    assert_eq!(root.children.len(), 1);
    assert_eq!(root.children[0].path, "f:\\x");
    assert_eq!(total_size, 5);
}
