//! The top-N largest-files mode.

use disk_scanner::records::MftRecord;
use disk_scanner::top_files::sort_entries_by_size_desc;
use disk_scanner::top_files::top_files_from_records;
use disk_scanner::top_files::TopFileEntry;
use disk_scanner::top_files::TopFiles;

fn file(path: &str, size: u64) -> MftRecord {
    MftRecord { full_path: path.to_string(), size, is_dir: false, modified: None }
}

fn dir(path: &str) -> MftRecord {
    MftRecord { full_path: path.to_string(), size: 0, is_dir: true, modified: None }
}

#[test]
fn top_three_of_six() {
    let records = vec![
        file("F:\\a", 10),
        file("F:\\b", 50),
        file("F:\\c", 50),
        file("F:\\d", 7),
        file("F:\\e", 200),
        file("F:\\f", 3),
    ];
    let r = top_files_from_records(&records, 3);
    let sizes: Vec<u64> = r.iter().map(|e| e.size).collect();
    assert_eq!(sizes, vec![200, 50, 50]);
}

#[test]
fn directories_are_excluded() {
    let records = vec![dir("F:\\"), dir("F:\\huge_dir"), file("F:\\x", 5)];
    let r = top_files_from_records(&records, 10);
    assert_eq!(r.len(), 1);
    assert_eq!(r[0].path, "F:\\x");
    assert_eq!(r[0].size, 5);
}

#[test]
fn fewer_files_than_n_returns_all_sorted() {
    let records = vec![file("F:\\a", 1), file("F:\\b", 9), file("F:\\c", 4)];
    let r = top_files_from_records(&records, 10);
    let sizes: Vec<u64> = r.iter().map(|e| e.size).collect();
    assert_eq!(sizes, vec![9, 4, 1]);
}

#[test]
fn zero_n_returns_nothing() {
    let records = vec![file("F:\\a", 1)];
    let r = top_files_from_records(&records, 0);
    assert!(r.is_empty());
}

#[test]
fn no_larger_file_is_left_out() {
    let records = vec![
        file("F:\\small1", 1),
        file("F:\\big", 1000),
        file("F:\\small2", 2),
        file("F:\\mid", 500),
    ];
    let r = top_files_from_records(&records, 2);
    assert_eq!(r.len(), 2);
    assert_eq!(r[0].size, 1000);
    assert_eq!(r[0].path, "F:\\big");
    assert_eq!(r[1].size, 500);
    assert_eq!(r[1].path, "F:\\mid");
}

#[test]
fn streaming_buffer_keeps_largest() {
    let mut top = TopFiles::new(2);
    top.push_file("F:\\a".to_string(), 3, None);
    top.push_file("F:\\b".to_string(), 1, Some(4));
    top.push_file("F:\\c".to_string(), 7, None);
    let entries = sort_entries_by_size_desc(top.into_entries());
    let sizes: Vec<u64> = entries.iter().map(|e| e.size).collect();
    assert_eq!(sizes, vec![7, 3]);
}

#[test]
fn sort_is_by_size_descending_and_keeps_entries() {
    let v = vec![
        TopFileEntry { path: "F:\\x".to_string(), size: 2, modified: None },
        TopFileEntry { path: "F:\\y".to_string(), size: 8, modified: Some(1) },
        TopFileEntry { path: "F:\\z".to_string(), size: 5, modified: None },
    ];
    let r = sort_entries_by_size_desc(v);
    let sizes: Vec<u64> = r.iter().map(|e| e.size).collect();
    assert_eq!(sizes, vec![8, 5, 2]);
    assert_eq!(r[0].path, "F:\\y");
    assert_eq!(r[0].modified, Some(1));
}
