//! Per-record decisions of the enumeration phase.

use disk_scanner::records::mft_load_percent;
use disk_scanner::records::modified_from_timestamp;
use disk_scanner::records::process_mft_record;
use disk_scanner::records::should_emit_progress;
use disk_scanner::records::MAX_CHILDREN_PER_DIR;
use disk_scanner::records::MAX_DEPTH;
use disk_scanner::records::PROGRESS_EVERY;
use disk_scanner::records::TOP_FILES_DEFAULT_N;

#[test]
fn accepted_record_is_normalized() {
    let r = process_mft_record("\\\\.\\F:\\dir\\file.txt", 'F', 42, false, Some(100))
        .expect("record should be accepted");
    assert_eq!(r.full_path, "F:\\dir\\file.txt");
    assert_eq!(r.size, 42);
    assert!(!r.is_dir);
    assert_eq!(r.modified, Some(100));
}

#[test]
fn root_record_is_accepted() {
    let r = process_mft_record("\\\\.\\F:", 'F', 0, true, None).expect("root accepted");
    assert_eq!(r.full_path, "F:\\");
    assert!(r.is_dir);
}

#[test]
fn foreign_record_is_rejected() {
    assert!(process_mft_record("G:\\x", 'F', 1, false, None).is_none());
    assert!(process_mft_record("\\\\?\\G:\\x", 'F', 1, false, None).is_none());
    assert!(process_mft_record("relative\\path", 'F', 1, false, None).is_none());
}

#[test]
fn modified_keeps_only_positive_seconds() {
    assert_eq!(modified_from_timestamp(Some(5)), Some(5));
    assert_eq!(modified_from_timestamp(Some(0)), None);
    assert_eq!(modified_from_timestamp(Some(-3)), None);
    assert_eq!(modified_from_timestamp(None), None);
}

#[test]
fn progress_cadence() {
    assert!(!should_emit_progress(0));
    assert!(!should_emit_progress(1));
    assert!(!should_emit_progress(4999));
    assert!(should_emit_progress(5000));
    assert!(!should_emit_progress(5001));
    assert!(should_emit_progress(10000));
}

#[test]
fn load_percent_is_capped() {
    assert_eq!(mft_load_percent(0, 0), 0);
    assert_eq!(mft_load_percent(50, 100), 50);
    assert_eq!(mft_load_percent(1, 3), 33);
    assert_eq!(mft_load_percent(100, 100), 100);
    assert_eq!(mft_load_percent(200, 100), 100);
    assert_eq!(mft_load_percent(u64::MAX, 1), 100);
}

#[test]
fn limits_match_the_design() {
    assert_eq!(MAX_DEPTH, 10);
    assert_eq!(MAX_CHILDREN_PER_DIR, 500);
    assert_eq!(PROGRESS_EVERY, 5000);
    assert_eq!(TOP_FILES_DEFAULT_N, 100);
}
