//! Merge decisions: free names with `_Copy` suffixes and where each file
//! of a source goes.

use fren_date::{merge_destination, sort_paths, unique_file_name, unique_file_name_avoiding, FrenError};

fn paths(ps: &[&str]) -> Vec<String> {
    ps.iter().map(|p| p.to_string()).collect()
}

#[test]
fn test_unique_file_name_numeric_index() {
    let mut existing: Vec<String> = Vec::new();
    // Doesn't exist: returned as-is.
    assert_eq!(unique_file_name("/t/file.txt", &existing), "/t/file.txt");

    existing.push("/t/file.txt".to_string());
    assert_eq!(unique_file_name("/t/file.txt", &existing), "/t/file_Copy.txt");

    existing.push("/t/file_Copy.txt".to_string());
    assert_eq!(unique_file_name("/t/file_Copy.txt", &existing), "/t/file_Copy1.txt");

    existing.push("/t/file_Copy1.txt".to_string());
    assert_eq!(unique_file_name("/t/file_Copy1.txt", &existing), "/t/file_Copy2.txt");
}

#[test]
fn unique_file_name_walks_past_taken_copies() {
    let existing = paths(&["/t/a.txt", "/t/a_Copy.txt", "/t/a_Copy1.txt"]);
    assert_eq!(unique_file_name("/t/a.txt", &existing), "/t/a_Copy2.txt");
}

#[test]
fn unique_file_name_continues_any_case_copy_suffix() {
    let existing = paths(&["/t/photo_COPY7.jpg"]);
    assert_eq!(unique_file_name("/t/photo_COPY7.jpg", &existing), "/t/photo_Copy8.jpg");
    let existing = paths(&["/t/noext_copy"]);
    assert_eq!(unique_file_name("/t/noext_copy", &existing), "/t/noext_Copy1");
}

#[test]
fn unique_file_name_index_beyond_u32_restarts_at_one() {
    let existing = paths(&["/t/x_Copy99999999999.txt"]);
    assert_eq!(unique_file_name("/t/x_Copy99999999999.txt", &existing), "/t/x_Copy1.txt");
}

#[test]
fn unique_file_name_avoiding_taken_destinations() {
    let existing = paths(&["/t/a.txt"]);
    let taken = paths(&["/t/a_Copy.txt"]);
    assert_eq!(unique_file_name_avoiding("/t/a.txt", &existing, &taken), "/t/a_Copy1.txt");
    assert_eq!(unique_file_name_avoiding("/t/b.txt", &existing, &taken), "/t/b.txt");
}

#[test]
fn merge_destination_mirrors_the_source_tree() {
    let existing = paths(&["/t/2020/12/one.txt", "/t/2020/root.txt"]);
    let planned: Vec<String> = Vec::new();
    let mv = merge_destination("/t", "/t/other", "/t/other/2020/12/one.txt", &existing, &planned, false)
        .unwrap()
        .unwrap();
    assert_eq!(mv.from, "/t/other/2020/12/one.txt");
    assert_eq!(mv.to, "/t/2020/12/one_Copy.txt");
    let mv = merge_destination("/t", "/t/other", "/t/other/2021/01/three.txt", &existing, &planned, false)
        .unwrap()
        .unwrap();
    assert_eq!(mv.to, "/t/2021/01/three.txt");
}

#[test]
fn merge_destination_dry_run_avoids_planned() {
    let existing = paths(&["/t/a.txt"]);
    let planned = paths(&["/t/a_Copy.txt"]);
    let mv = merge_destination("/t", "/t/src", "/t/src/a.txt", &existing, &planned, true)
        .unwrap()
        .unwrap();
    assert_eq!(mv.to, "/t/a_Copy1.txt");
    let mv = merge_destination("/t", "/t/src", "/t/src/a.txt", &existing, &planned, false)
        .unwrap()
        .unwrap();
    assert_eq!(mv.to, "/t/a_Copy.txt");
}

#[test]
fn merge_skips_ds_store() {
    let none = merge_destination("/t", "/t/src", "/t/src/.DS_Store", &Vec::new(), &Vec::new(), false).unwrap();
    assert!(none.is_none());
}

#[test]
fn merge_destination_outside_source_is_invalid() {
    match merge_destination("/t", "/t/src", "/elsewhere/a.txt", &Vec::new(), &Vec::new(), false) {
        Err(FrenError::InvalidInput(m)) => assert_eq!(m, "path /elsewhere/a.txt not under source /t/src"),
        other => panic!("expected InvalidInput, got {other:?}"),
    }
}

#[test]
fn test_merge_directories_full() {
    // The target tree and the two sources of a full merge scenario;
    // each move updates what exists, as moving files does.
    let mut existing = paths(&["/t/2020/12/one.txt", "/t/2020/root.txt"]);
    let planned: Vec<String> = Vec::new();
    let moves = [
        ("/t/other", "/t/other/2020/12/one.txt"),
        ("/t/other", "/t/other/2020/12/two.txt"),
        ("/t/other", "/t/other/2020/root_Copy.txt"),
        ("/t/other", "/t/other/2021/01/three.txt"),
        ("/t/another", "/t/another/2020/12/one.txt"),
        ("/t/another", "/t/another/2020/12/two.txt"),
        ("/t/another", "/t/another/2020/root_Copy.txt"),
    ];
    for (src, file) in moves {
        let mv = merge_destination("/t", src, file, &existing, &planned, false).unwrap().unwrap();
        existing.push(mv.to);
    }
    existing.sort();
    let expected = paths(&[
        "/t/2020/12/one.txt",
        "/t/2020/12/one_Copy.txt",
        "/t/2020/12/one_Copy1.txt",
        "/t/2020/12/two.txt",
        "/t/2020/12/two_Copy.txt",
        "/t/2020/root.txt",
        "/t/2020/root_Copy.txt",
        "/t/2020/root_Copy1.txt",
        "/t/2021/01/three.txt",
    ]);
    assert_eq!(existing, expected);
}

#[test]
fn sort_paths_orders_by_components() {
    let mut ps = paths(&["src/a-c", "src/b", "src/a/z", "src/a"]);
    sort_paths(&mut ps);
    assert_eq!(ps, paths(&["src/a", "src/a/z", "src/a-c", "src/b"]));
}

#[test]
fn sort_paths_keeps_sorted_input() {
    let mut ps = paths(&["r/A.txt", "r/a.txt", "r/b/c.txt"]);
    sort_paths(&mut ps);
    assert_eq!(ps, paths(&["r/A.txt", "r/a.txt", "r/b/c.txt"]));
}

#[test]
fn sort_paths_keeps_order_of_same_components() {
    let mut ps = paths(&["r/b", "r//a", "r/a"]);
    sort_paths(&mut ps);
    assert_eq!(ps, paths(&["r//a", "r/a", "r/b"]));
}
