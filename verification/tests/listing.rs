//! The colored lines printed for renames and merge moves.

use fren_date::{format_merge_line, format_rename_line, join_components, path_components, ItemKind, RenamePlan};

const GREEN: &str = "\u{1b}[92m";
const BLUE: &str = "\u{1b}[94m";
const WHITE: &str = "\u{1b}[37m";
const BRIGHT_WHITE: &str = "\u{1b}[97m";
const RESET: &str = "\u{1b}[0m";

fn plan(parent: &str, old: &str, new: &str, kind: ItemKind) -> RenamePlan {
    RenamePlan {
        original_path: format!("{parent}/{old}"),
        parent: parent.to_string(),
        old_name: old.to_string(),
        new_name: new.to_string(),
        depth: 1,
        kind,
        detected_date: None,
        batch_id: 0,
    }
}

#[test]
fn path_components_drop_empty_pieces() {
    assert_eq!(path_components("./foo/bar"), vec![".", "foo", "bar"]);
    assert_eq!(path_components("/a//b/"), vec!["a", "b"]);
    assert!(path_components("").is_empty());
}

#[test]
fn join_components_with_and_without_leading_slash() {
    let parts = vec!["a".to_string(), "b".to_string()];
    assert_eq!(join_components(&parts, true), "/a/b");
    assert_eq!(join_components(&parts, false), "a/b");
    assert_eq!(join_components(&Vec::new(), true), "/");
}

#[test]
fn rename_line_for_file() {
    let line = format_rename_line(&plan("/photos", "My Photo.jpg", "My-Photo.jpg", ItemKind::File));
    assert_eq!(
        line,
        format!("-> {GREEN}My-Photo.jpg{RESET} from {WHITE}/photos/{RESET}{BRIGHT_WHITE}My Photo.jpg{RESET}")
    );
}

#[test]
fn rename_line_for_directory_has_trailing_slash() {
    let line = format_rename_line(&plan("/photos/", "My Trip", "My-Trip", ItemKind::Dir));
    assert_eq!(
        line,
        format!("-> {BLUE}My-Trip/{RESET} from {WHITE}/photos/{RESET}{BRIGHT_WHITE}My Trip/{RESET}")
    );
}

#[test]
fn merge_line_splits_common_suffix() {
    let line = format_merge_line("/t/2020/12/one_Copy.txt", "/t/other/2020/12/one.txt");
    assert_eq!(
        line,
        format!(
            "-> {BLUE}/t/2020/12/one_Copy.txt{RESET} from {BLUE}/t/other/2020/12/one.txt{RESET}"
        )
    );
    let line = format_merge_line("/t/2020/12/one.txt", "/t/other/2020/12/one.txt");
    assert_eq!(
        line,
        format!(
            "-> {BLUE}/t/{RESET}{BRIGHT_WHITE}2020/12/one.txt{RESET} from {BLUE}/t/other/{RESET}{BRIGHT_WHITE}2020/12/one.txt{RESET}"
        )
    );
}

#[test]
fn merge_line_identical_paths_are_all_dim() {
    let line = format_merge_line("a/b", "a/b");
    assert_eq!(line, format!("-> {BRIGHT_WHITE}a/b{RESET} from {BRIGHT_WHITE}a/b{RESET}"));
}
