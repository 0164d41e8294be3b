//! Scan-level validation, derived strings, errors, and plain data types.

use disk_scanner::errors::DiskAnalyzerError;
use disk_scanner::filters::ScanFilters;
use disk_scanner::scan::drive_root_string;
use disk_scanner::scan::validate_volume_root;
use disk_scanner::scan::volume_device_path;
use disk_scanner::scan::volume_root_display;
use disk_scanner::scan::ScanResult;
use disk_scanner::tree::FileNode;
use disk_scanner::upload::UploadConfig;
use disk_scanner::upload::UploadProgressEvent;
use disk_scanner::upload::UploadResult;

#[test]
fn volume_roots_validate_to_uppercase_drives() {
    assert_eq!(validate_volume_root("C:\\").unwrap(), 'C');
    assert_eq!(validate_volume_root("f:").unwrap(), 'F');
    assert_eq!(validate_volume_root("\\\\?\\d:\\").unwrap(), 'D');
}

#[test]
fn non_roots_are_invalid_paths() {
    let e = validate_volume_root("C:\\Users").unwrap_err();
    assert!(matches!(e, DiskAnalyzerError::InvalidPath(_)));
    assert_eq!(e.message(), "not a volume root");
    assert!(validate_volume_root("relative").is_err());
    assert!(validate_volume_root("1:\\").is_err());
}

#[test]
fn root_display_restores_backslash_after_colon() {
    assert_eq!(volume_root_display("C:\\"), "C:\\");
    assert_eq!(volume_root_display("C:"), "C:\\");
    assert_eq!(volume_root_display("\\\\?\\F:\\"), "\\\\?\\F:\\");
    assert_eq!(volume_root_display("C:\\x\\"), "C:\\x");
}

#[test]
fn derived_volume_strings() {
    assert_eq!(volume_device_path('F'), "\\\\.\\F:");
    assert_eq!(drive_root_string('F'), "F:\\");
}

#[test]
fn every_error_kind_carries_its_detail() {
    let kinds = vec![
        DiskAnalyzerError::InvalidPath("p".to_string()),
        DiskAnalyzerError::ElevationRequired("e".to_string()),
        DiskAnalyzerError::Io("i".to_string()),
        DiskAnalyzerError::Parse("m".to_string()),
    ];
    let details: Vec<&String> = kinds.iter().map(|k| k.message()).collect();
    assert_eq!(details, vec!["p", "e", "i", "m"]);
}

#[test]
fn default_filters_are_empty() {
    let f = ScanFilters::default();
    assert!(f.exclude_patterns.is_empty());
    assert!(f.max_depth.is_none());
}

#[test]
fn scan_result_carries_the_summary() {
    let root = FileNode {
        path: "F:\\".to_string(),
        name: "F:\\".to_string(),
        size: 0,
        is_dir: true,
        modified: None,
        children: Vec::new(),
    };
    let r = ScanResult {
        root,
        scan_time_ms: 12,
        file_count: 1,
        total_size: 0,
        scan_warning: None,
        volume_total_bytes: Some(1000),
        volume_free_bytes: Some(400),
    };
    assert_eq!(r.root.path, "F:\\");
    assert_eq!(r.scan_time_ms, 12);
    assert_eq!(r.volume_total_bytes, Some(1000));
    assert_eq!(r.volume_free_bytes, Some(400));
}

#[test]
fn upload_data_types_hold_their_fields() {
    let c = UploadConfig {
        provider: "google_drive".to_string(),
        name: "My Drive".to_string(),
        access_token: "SECRET-REDACTED".to_string(),
        target_path: "/backup".to_string(),
    };
    assert_eq!(c.provider, "google_drive");
    let r = UploadResult {
        success: true,
        provider: c.provider.clone(),
        file_id: Some("abc".to_string()),
        message: "uploaded".to_string(),
        source_deleted: false,
    };
    assert!(r.success && !r.source_deleted);
    let p = UploadProgressEvent {
        task_id: "t1".to_string(),
        provider: c.provider.clone(),
        progress: 50,
        uploaded_bytes: 5,
        total_bytes: 10,
    };
    assert_eq!(p.progress, 50);
}
