//! Path normalization, volume filtering, and volume-root recognition.

use disk_scanner::paths::drive_letter_from_volume_root;
use disk_scanner::paths::is_windows_volume_root;
use disk_scanner::paths::normalize_ntfs_path;
use disk_scanner::paths::path_under_volume_ascii;

#[test]
fn normalize_covers_all_input_shapes() {
    assert_eq!(normalize_ntfs_path("\\\\.\\F:\\x", 'F'), "F:\\x");
    assert_eq!(normalize_ntfs_path("\\\\?\\F:\\x", 'F'), "F:\\x");
    assert_eq!(normalize_ntfs_path("F:\\x", 'F'), "F:\\x");
    assert_eq!(normalize_ntfs_path("F:/x", 'F'), "F:\\x");
    assert_eq!(normalize_ntfs_path("F:\\x\\", 'F'), "F:\\x");
}

#[test]
fn normalize_device_root_to_drive_root() {
    assert_eq!(normalize_ntfs_path("\\\\.\\F:", 'F'), "F:\\");
}

#[test]
fn normalize_uppercases_drive() {
    assert_eq!(normalize_ntfs_path("f:\\x", 'F'), "F:\\x");
    assert_eq!(normalize_ntfs_path("f:", 'F'), "F:\\");
}

#[test]
fn normalize_leaves_foreign_paths_alone() {
    assert_eq!(normalize_ntfs_path("G:\\x", 'F'), "G:\\x");
    assert_eq!(normalize_ntfs_path("\\\\?\\G:\\x", 'F'), "\\\\?\\G:\\x");
    assert_eq!(normalize_ntfs_path("relative\\path", 'F'), "relative\\path");
}

#[test]
fn normalize_nested_and_verbatim_root() {
    assert_eq!(normalize_ntfs_path("\\\\.\\C:\\a\\b\\c", 'C'), "C:\\a\\b\\c");
    assert_eq!(normalize_ntfs_path("\\\\?\\C:", 'C'), "C:\\");
}

#[test]
fn normalize_is_idempotent_on_accepted_shapes() {
    for raw in ["\\\\.\\F:\\x", "\\\\?\\F:\\x", "F:\\x", "F:/x", "F:\\x\\", "\\\\.\\F:"] {
        let once = normalize_ntfs_path(raw, 'F');
        let twice = normalize_ntfs_path(&once, 'F');
        assert_eq!(twice, once);
    }
}

#[test]
fn path_under_volume_matches_case_insensitively() {
    assert!(path_under_volume_ascii("F:\\x", "F:"));
    assert!(path_under_volume_ascii("f:\\x", "F:"));
    assert!(path_under_volume_ascii("F:", "F:"));
    assert!(path_under_volume_ascii("f:", "F:"));
}

#[test]
fn path_under_volume_requires_separator_boundary() {
    assert!(!path_under_volume_ascii("F:x", "F:"));
    assert!(!path_under_volume_ascii("FX\\y", "F:"));
    assert!(!path_under_volume_ascii("G:\\x", "F:"));
    assert!(!path_under_volume_ascii("F", "F:"));
}

#[test]
fn volume_root_recognition() {
    assert!(is_windows_volume_root("C:"));
    assert!(is_windows_volume_root("C:\\"));
    assert!(is_windows_volume_root("\\\\?\\C:"));
    assert!(is_windows_volume_root("\\\\?\\C:\\"));
    assert!(!is_windows_volume_root("C:\\Users"));
    assert!(!is_windows_volume_root("relative"));
    assert!(!is_windows_volume_root("1:"));
}

#[test]
fn drive_letter_extraction() {
    assert_eq!(drive_letter_from_volume_root("f:\\"), Some('F'));
    assert_eq!(drive_letter_from_volume_root("G:"), Some('G'));
    assert_eq!(drive_letter_from_volume_root("\\\\?\\d:\\"), Some('D'));
    assert_eq!(drive_letter_from_volume_root("C:\\Users"), None);
    assert_eq!(drive_letter_from_volume_root("9:"), None);
}
