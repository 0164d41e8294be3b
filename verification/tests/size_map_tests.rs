//! The recursive size map: ancestor accumulation and saturation.

use disk_scanner::records::MftRecord;
use disk_scanner::size_map::build_recursive_size_map;

fn rec(path: &str, size: u64, is_dir: bool) -> MftRecord {
    MftRecord { full_path: path.to_string(), size, is_dir, modified: None }
}

#[test]
fn ancestors_accumulate_sizes() {
    let records = vec![
        rec("F:\\", 0, true),
        rec("F:\\d", 0, true),
        rec("F:\\d\\x", 10, false),
        rec("F:\\d\\y", 20, false),
    ];
    let m = build_recursive_size_map(&records);
    assert_eq!(m.get(&"F:\\d\\x".to_string()), Some(10));
    assert_eq!(m.get(&"F:\\d\\y".to_string()), Some(20));
    assert_eq!(m.get(&"F:\\d".to_string()), Some(30));
    assert_eq!(m.get(&"F:".to_string()), Some(30));
    assert_eq!(m.get(&"F:\\".to_string()), None);
    assert_eq!(m.get(&"F:\\e".to_string()), None);
}

#[test]
fn every_strict_ancestor_is_present_with_at_least_the_file_size() {
    let records = vec![rec("C:\\a\\b\\c\\f.bin", 7, false)];
    let m = build_recursive_size_map(&records);
    for key in ["C:\\a\\b\\c\\f.bin", "C:\\a\\b\\c", "C:\\a\\b", "C:\\a", "C:"] {
        let v = m.get(&key.to_string()).expect("ancestor key missing");
        assert!(v >= 7);
        assert_eq!(v, 7);
    }
}

#[test]
fn totals_saturate_instead_of_wrapping() {
    let records = vec![
        rec("F:\\big1", u64::MAX, false),
        rec("F:\\big2", u64::MAX, false),
    ];
    let m = build_recursive_size_map(&records);
    assert_eq!(m.get(&"F:".to_string()), Some(u64::MAX));
    assert_eq!(m.get(&"F:\\big1".to_string()), Some(u64::MAX));
}

#[test]
fn empty_trimmed_paths_charge_nothing() {
    let records = vec![rec("\\\\\\", 5, false), rec("F:\\x", 1, false)];
    let m = build_recursive_size_map(&records);
    assert_eq!(m.get(&"".to_string()), None);
    assert_eq!(m.get(&"F:".to_string()), Some(1));
}

#[test]
fn duplicate_paths_add_up() {
    let records = vec![rec("F:\\x", 4, false), rec("F:\\x", 6, false)];
    let m = build_recursive_size_map(&records);
    assert_eq!(m.get(&"F:\\x".to_string()), Some(10));
    assert_eq!(m.get(&"F:".to_string()), Some(10));
}
