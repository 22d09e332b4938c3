//! Conflict resolution: numbered names, within-batch and pre-existing
//! targets. What exists on disk is given as a list of paths.

use fren_date::{
    check_preexisting, check_within_batch, numbered_name, resolve_preexisting,
    resolve_within_batch, ConflictPolicy, FrenError, ItemKind, RenamePlan,
};
use std::collections::BTreeMap;

const DIR: &str = "/tmp/fren-test";

fn make_plan(dir: &str, original: &str, new: &str) -> RenamePlan {
    RenamePlan {
        original_path: format!("{dir}/{original}"),
        parent: dir.to_string(),
        old_name: original.to_string(),
        new_name: new.to_string(),
        depth: 0,
        kind: ItemKind::File,
        detected_date: None,
        batch_id: 0,
    }
}

fn on_disk(names: &[&str]) -> Vec<String> {
    names.iter().map(|n| format!("{DIR}/{n}")).collect()
}

fn names_by_old(plans: &[RenamePlan]) -> BTreeMap<String, String> {
    plans
        .iter()
        .map(|p| (p.old_name.clone(), p.new_name.clone()))
        .collect()
}

#[test]
fn numbered_name_with_extension() {
    assert_eq!(numbered_name("2022-02-21t18-59-15.mp3", 1), "2022-02-21t18-59-15-copy-1.mp3");
}

#[test]
fn numbered_name_multi_dot_keeps_only_final_ext() {
    assert_eq!(numbered_name("report.tar.gz", 2), "report.tar-copy-2.gz");
}

#[test]
fn numbered_name_no_extension() {
    assert_eq!(numbered_name("README", 1), "README-copy-1");
}

#[test]
fn numbered_name_dotfile_empty_ext() {
    assert_eq!(numbered_name(".gitignore", 1), ".gitignore-copy-1");
}

#[test]
fn numbered_name_single_char_ext() {
    assert_eq!(numbered_name("a.b", 3), "a-copy-3.b");
}

#[test]
fn numbered_name_trailing_dot_drops_empty_extension() {
    assert_eq!(numbered_name("a.", 12), "a-copy-12");
}

#[test]
fn within_batch_abort_returns_collision_error() {
    let mut plans = vec![make_plan(DIR, "i", "i"), make_plan(DIR, "I", "i")];
    let result = resolve_within_batch(&mut plans, ConflictPolicy::Abort);
    match result {
        Err(FrenError::WithinBatchCollision { a, b, target }) => {
            assert_eq!(a, format!("{DIR}/i"));
            assert_eq!(b, format!("{DIR}/I"));
            assert_eq!(target, format!("{DIR}/i"));
        }
        other => panic!("expected WithinBatchCollision, got {other:?}"),
    }
    assert_eq!(plans[0].new_name, "i");
    assert_eq!(plans[1].new_name, "i");
}

#[test]
fn within_batch_number_two_sources_alpha_first_keeps_plain() {
    // "I" sorts before "i" (uppercase < lowercase).
    let mut plans = vec![make_plan(DIR, "i", "i"), make_plan(DIR, "I", "i")];
    resolve_within_batch(&mut plans, ConflictPolicy::Number).unwrap();
    let big = plans.iter().find(|p| p.old_name == "I").unwrap();
    let small = plans.iter().find(|p| p.old_name == "i").unwrap();
    assert_eq!(big.new_name, "i", "alpha-first plan should keep plain target");
    assert_eq!(small.new_name, "i-copy-1", "alpha-second plan should get -copy-1");
}

#[test]
fn within_batch_number_three_sources_get_sequential_copies() {
    // "I" < "I " < "i" in lexicographic order.
    let mut plans = vec![
        make_plan(DIR, "i", "i"),
        make_plan(DIR, "I", "i"),
        make_plan(DIR, "I ", "i"),
    ];
    resolve_within_batch(&mut plans, ConflictPolicy::Number).unwrap();
    let names = names_by_old(&plans);
    assert_eq!(names["I"], "i");
    assert_eq!(names["I "], "i-copy-1");
    assert_eq!(names["i"], "i-copy-2");
}

#[test]
fn within_batch_number_cross_group_collision_skips_taken_slot() {
    // Group {src0, src1} targets "foo"; src2 alone targets "foo-copy-1".
    let mut plans = vec![
        make_plan(DIR, "src0", "foo"),
        make_plan(DIR, "src1", "foo"),
        make_plan(DIR, "src2", "foo-copy-1"),
    ];
    resolve_within_batch(&mut plans, ConflictPolicy::Number).unwrap();
    let names = names_by_old(&plans);
    assert_eq!(names["src0"], "foo");
    assert_eq!(names["src2"], "foo-copy-1");
    assert_eq!(
        names["src1"], "foo-copy-2",
        "cross-group collision: src1 should skip foo-copy-1 (taken by src2)"
    );
}

#[test]
fn within_batch_number_two_groups_number_their_own_names() {
    // Two colliding groups in one directory: each numbers its own name, the
    // extension staying last.
    let mut plans = vec![
        make_plan(DIR, "x1", "a"),
        make_plan(DIR, "x2", "a"),
        make_plan(DIR, "y1", "b.txt"),
        make_plan(DIR, "y2", "b.txt"),
        make_plan(DIR, "y3", "b.txt"),
    ];
    resolve_within_batch(&mut plans, ConflictPolicy::Number).unwrap();
    let names = names_by_old(&plans);
    assert_eq!(names["x1"], "a");
    assert_eq!(names["x2"], "a-copy-1");
    assert_eq!(names["y1"], "b.txt");
    assert_eq!(names["y2"], "b-copy-1.txt");
    assert_eq!(names["y3"], "b-copy-2.txt");
}

#[test]
fn within_batch_no_conflict_is_unchanged() {
    let mut plans = vec![make_plan(DIR, "a", "alpha"), make_plan(DIR, "b", "beta")];
    resolve_within_batch(&mut plans, ConflictPolicy::Number).unwrap();
    assert_eq!(plans[0].new_name, "alpha");
    assert_eq!(plans[1].new_name, "beta");
}

#[test]
fn within_batch_skip_is_not_yet_implemented() {
    let mut plans = vec![make_plan(DIR, "a", "x"), make_plan(DIR, "b", "x")];
    match resolve_within_batch(&mut plans, ConflictPolicy::Skip) {
        Err(FrenError::NotYetImplemented(m)) => assert_eq!(m, "Skip/Merge conflict policy"),
        other => panic!("expected NotYetImplemented, got {other:?}"),
    }
    let mut ok = vec![make_plan(DIR, "a", "x"), make_plan(DIR, "b", "y")];
    assert!(resolve_within_batch(&mut ok, ConflictPolicy::Merge).is_ok());
}

#[test]
fn preexisting_abort_returns_target_exists_error() {
    let existing = on_disk(&["i"]);
    let mut plans = vec![make_plan(DIR, "j", "i")];
    let result = resolve_preexisting(&mut plans, ConflictPolicy::Abort, &existing);
    match result {
        Err(FrenError::TargetExists(t)) => assert_eq!(t, format!("{DIR}/i")),
        other => panic!("expected TargetExists, got {other:?}"),
    }
}

#[test]
fn preexisting_number_renames_to_copy_1() {
    let existing = on_disk(&["i"]);
    let mut plans = vec![make_plan(DIR, "j", "i")];
    resolve_preexisting(&mut plans, ConflictPolicy::Number, &existing).unwrap();
    assert_eq!(plans[0].new_name, "i-copy-1", "should rename to i-copy-1 when i exists");
}

#[test]
fn preexisting_number_skips_over_occupied_copies() {
    let existing = on_disk(&["i", "i-copy-1"]);
    let mut plans = vec![make_plan(DIR, "j", "i")];
    resolve_preexisting(&mut plans, ConflictPolicy::Number, &existing).unwrap();
    assert_eq!(plans[0].new_name, "i-copy-2");
}

#[test]
fn preexisting_chain_exemption_preserved() {
    // a -> b and b -> c, with "b" on disk: "b" is the source of the second
    // plan, so the first plan is exempt.
    let existing = on_disk(&["b"]);
    let mut plans = vec![make_plan(DIR, "a", "b"), make_plan(DIR, "b", "c")];
    resolve_preexisting(&mut plans, ConflictPolicy::Abort, &existing).unwrap();
    assert_eq!(plans[0].new_name, "b");
    assert_eq!(plans[1].new_name, "c");
}

#[test]
fn preexisting_no_conflict_unchanged() {
    let existing = on_disk(&[]);
    let mut plans = vec![make_plan(DIR, "old", "new")];
    resolve_preexisting(&mut plans, ConflictPolicy::Number, &existing).unwrap();
    assert_eq!(plans[0].new_name, "new");
}

#[test]
fn preexisting_strips_copy_suffix_before_numbering() {
    let existing = on_disk(&["photo-copy-1.jpg", "photo-copy-2.jpg"]);
    let mut plans = vec![make_plan(DIR, "x.jpg", "photo-copy-1.jpg")];
    resolve_preexisting(&mut plans, ConflictPolicy::Number, &existing).unwrap();
    assert_eq!(plans[0].new_name, "photo-copy-3.jpg");
}

#[test]
fn preexisting_numbering_avoids_other_batch_targets() {
    // "i" exists; another plan already targets "i-copy-1".
    let existing = on_disk(&["i"]);
    let mut plans = vec![make_plan(DIR, "j", "i"), make_plan(DIR, "k", "i-copy-1")];
    resolve_preexisting(&mut plans, ConflictPolicy::Number, &existing).unwrap();
    assert_eq!(plans[0].new_name, "i-copy-2");
    assert_eq!(plans[1].new_name, "i-copy-1");
}

#[test]
fn within_batch_then_preexisting_combined_scenario() {
    // "i" and "I" both map to "i"; "i-copy-1" already exists on disk.
    let existing = on_disk(&["i-copy-1"]);
    let mut plans = vec![make_plan(DIR, "i", "i"), make_plan(DIR, "I", "i")];
    resolve_within_batch(&mut plans, ConflictPolicy::Number).unwrap();
    resolve_preexisting(&mut plans, ConflictPolicy::Number, &existing).unwrap();
    let big = plans.iter().find(|p| p.old_name == "I").unwrap();
    let small = plans.iter().find(|p| p.old_name == "i").unwrap();
    assert_eq!(big.new_name, "i");
    assert_eq!(small.new_name, "i-copy-2");
}

#[test]
fn check_within_batch_reports_first_repeat() {
    let plans = vec![
        make_plan(DIR, "a", "x"),
        make_plan(DIR, "b", "y"),
        make_plan(DIR, "c", "y"),
        make_plan(DIR, "d", "x"),
    ];
    match check_within_batch(&plans) {
        Err(FrenError::WithinBatchCollision { a, b, target }) => {
            assert_eq!(a, format!("{DIR}/b"));
            assert_eq!(b, format!("{DIR}/c"));
            assert_eq!(target, format!("{DIR}/y"));
        }
        other => panic!("expected WithinBatchCollision, got {other:?}"),
    }
    let fine = vec![make_plan(DIR, "a", "x"), make_plan(DIR, "b", "y")];
    assert!(check_within_batch(&fine).is_ok());
}

#[test]
fn check_preexisting_reports_existing_target() {
    let existing = on_disk(&["Hello-World.txt"]);
    let plans = vec![make_plan(DIR, "Hello World.txt", "Hello-World.txt")];
    match check_preexisting(&plans, &existing) {
        Err(FrenError::TargetExists(t)) => assert_eq!(t, format!("{DIR}/Hello-World.txt")),
        other => panic!("expected TargetExists, got {other:?}"),
    }
    let chain = vec![make_plan(DIR, "a", "b"), make_plan(DIR, "b", "c")];
    assert!(check_preexisting(&chain, &on_disk(&["b"])).is_ok());
}
