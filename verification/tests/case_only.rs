//! Case-only rename detection.

use fren_date::is_case_only_rename;

#[test]
fn is_case_only_rename_detects_case_difference() {
    assert!(is_case_only_rename("/dir/Foo.txt", "/dir/foo.txt"));
    assert!(is_case_only_rename("/dir/FOO.TXT", "/dir/foo.txt"));
}

#[test]
fn is_case_only_rename_false_for_different_names() {
    assert!(!is_case_only_rename("/dir/foo.txt", "/dir/bar.txt"));
}

#[test]
fn is_case_only_rename_false_for_identical_paths() {
    assert!(!is_case_only_rename("/dir/foo.txt", "/dir/foo.txt"));
}
