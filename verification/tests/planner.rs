//! Planning from walked items: new names, filtering, order, conflicts.

use fren_date::{
    compute_new_name, is_excluded, is_hidden_entry, plan_reorder_with_year, plan_with_year,
    reorder_new_name, should_descend, sort_bottom_up, CaseMode, ConflictPolicy, DiscoveredItem,
    FrenError, ItemKind, PlanOpts, RenamePlan, SlugOpts,
};

const ROOT: &str = "/data/root";

fn default_slug_opts() -> SlugOpts {
    SlugOpts {
        separator: '-',
        case: CaseMode::Preserve,
        split_camel: false,
    }
}

fn item(rel: &str, kind: ItemKind, depth: usize) -> DiscoveredItem {
    let path = if rel.is_empty() {
        ROOT.to_string()
    } else {
        format!("{ROOT}/{rel}")
    };
    DiscoveredItem { path, kind, depth }
}

fn walked(items: Vec<DiscoveredItem>) -> (Vec<String>, Vec<Vec<DiscoveredItem>>) {
    let mut all = vec![item("", ItemKind::Dir, 0)];
    all.extend(items);
    (vec![ROOT.to_string()], vec![all])
}

fn recursive(on_conflict: ConflictPolicy) -> PlanOpts {
    PlanOpts {
        exclude: Vec::new(),
        recursive: true,
        on_conflict,
    }
}

#[test]
fn bottom_up_sort_files_then_dirs() {
    let (roots, w) = walked(vec![
        item("My Vacation", ItemKind::Dir, 1),
        item("My Vacation/photo 1.txt", ItemKind::File, 2),
        item("My Vacation/photo 2.txt", ItemKind::File, 2),
    ]);
    let plans = plan_with_year(
        &roots,
        &w,
        &default_slug_opts(),
        &recursive(ConflictPolicy::Number),
        2024,
        &Vec::new(),
    )
    .expect("plan ok");
    let mut prev_depth = usize::MAX;
    let mut saw_file_at_deepest = false;
    for plan in &plans {
        if plan.depth == 2 && matches!(plan.kind, ItemKind::File) {
            saw_file_at_deepest = true;
        }
        assert!(
            plan.depth <= prev_depth,
            "depths must monotonically decrease (deepest first), got {} after {}",
            plan.depth,
            prev_depth
        );
        prev_depth = plan.depth;
    }
    assert!(saw_file_at_deepest, "expected to find a file at depth 2");
    assert_eq!(plans.len(), 3);
    assert_eq!(plans[2].new_name, "My-Vacation");
    assert_eq!(plans[0].new_name, "photo-1.txt");
    assert_eq!(plans[0].parent, format!("{ROOT}/My Vacation"));
    assert_eq!(plans[0].old_name, "photo 1.txt");
}

#[test]
fn no_op_renames_are_filtered() {
    let (roots, w) = walked(vec![item("already-good.txt", ItemKind::File, 1)]);
    let plans = plan_with_year(
        &roots,
        &w,
        &default_slug_opts(),
        &recursive(ConflictPolicy::Number),
        2024,
        &Vec::new(),
    )
    .expect("plan ok");
    let originals: Vec<_> = plans.iter().map(|p| p.old_name.clone()).collect();
    assert!(
        !originals.iter().any(|n| n == "already-good.txt"),
        "no-op should be filtered, got: {originals:?}"
    );
}

#[test]
fn directory_root_is_not_renamed_but_file_root_is() {
    let roots = vec!["/data/My Dir".to_string(), "/data/My File.txt".to_string()];
    let w = vec![
        vec![DiscoveredItem { path: "/data/My Dir".to_string(), kind: ItemKind::Dir, depth: 0 }],
        vec![DiscoveredItem { path: "/data/My File.txt".to_string(), kind: ItemKind::File, depth: 0 }],
    ];
    let plans = plan_with_year(&roots, &w, &default_slug_opts(), &PlanOpts::default(), 2024, &Vec::new())
        .expect("plan ok");
    assert_eq!(plans.len(), 1);
    assert_eq!(plans[0].new_name, "My-File.txt");
    assert_eq!(plans[0].parent, "/data");
}

#[test]
fn within_batch_collision_detected() {
    let (roots, w) = walked(vec![
        item("Hello World.txt", ItemKind::File, 1),
        item("Hello   World.txt", ItemKind::File, 1),
    ]);
    let result = plan_with_year(
        &roots,
        &w,
        &default_slug_opts(),
        &recursive(ConflictPolicy::Abort),
        2024,
        &Vec::new(),
    );
    match result {
        Err(FrenError::WithinBatchCollision { .. }) => {}
        other => panic!("expected WithinBatchCollision, got {other:?}"),
    }
}

#[test]
fn within_batch_collision_numbered_by_default() {
    let (roots, w) = walked(vec![
        item("Hello World.txt", ItemKind::File, 1),
        item("Hello   World.txt", ItemKind::File, 1),
    ]);
    let plans = plan_with_year(&roots, &w, &default_slug_opts(), &PlanOpts::default(), 2024, &Vec::new())
        .expect("plan ok");
    let mut names: Vec<_> = plans.iter().map(|p| (p.old_name.clone(), p.new_name.clone())).collect();
    names.sort();
    assert_eq!(
        names,
        vec![
            ("Hello   World.txt".to_string(), "Hello-World.txt".to_string()),
            ("Hello World.txt".to_string(), "Hello-World-copy-1.txt".to_string()),
        ]
    );
}

#[test]
fn preexisting_target_aborts() {
    let (roots, w) = walked(vec![
        item("Hello World.txt", ItemKind::File, 1),
        item("Hello-World.txt", ItemKind::File, 1),
    ]);
    let existing = vec![format!("{ROOT}/Hello World.txt"), format!("{ROOT}/Hello-World.txt")];
    let result = plan_with_year(
        &roots,
        &w,
        &default_slug_opts(),
        &recursive(ConflictPolicy::Abort),
        2024,
        &existing,
    );
    match result {
        Err(FrenError::TargetExists(_)) => {}
        other => panic!("expected TargetExists, got {other:?}"),
    }
}

#[test]
fn extension_lowercased() {
    let (roots, w) = walked(vec![item("My Doc.PDF", ItemKind::File, 1)]);
    let plans = plan_with_year(
        &roots,
        &w,
        &default_slug_opts(),
        &recursive(ConflictPolicy::Number),
        2024,
        &Vec::new(),
    )
    .expect("plan ok");
    let new_names: Vec<String> = plans.iter().map(|p| p.new_name.clone()).collect();
    assert!(
        new_names.iter().any(|n| n == "My-Doc.pdf"),
        "extension should be lowercased: {new_names:?}"
    );
}

#[test]
fn date_detected_in_filename() {
    let (roots, w) = walked(vec![item("photo_20240115.jpg", ItemKind::File, 1)]);
    let plans = plan_with_year(
        &roots,
        &w,
        &default_slug_opts(),
        &recursive(ConflictPolicy::Number),
        2024,
        &Vec::new(),
    )
    .expect("plan ok");
    let new_names: Vec<String> = plans.iter().map(|p| p.new_name.clone()).collect();
    assert!(
        new_names.iter().any(|n| n == "photo-2024-01-15.jpg"),
        "expected date detection: {new_names:?}"
    );
}

#[test]
fn all_plans_share_one_batch_id() {
    let (roots, w) = walked(vec![
        item("A B.txt", ItemKind::File, 1),
        item("C D.txt", ItemKind::File, 1),
    ]);
    let plans = plan_with_year(&roots, &w, &default_slug_opts(), &PlanOpts::default(), 2024, &Vec::new())
        .expect("plan ok");
    assert_eq!(plans.len(), 2);
    assert_eq!(plans[0].batch_id, plans[1].batch_id);
    assert!(plans.iter().all(|p| p.detected_date.is_none()));
}

#[test]
fn compute_new_name_dir_and_file() {
    let opts = default_slug_opts();
    let dir = item("My Vacation 2024-01-15", ItemKind::Dir, 1);
    assert_eq!(compute_new_name(&dir, &opts, 2024), "My-Vacation-2024-01-15");
    let file = item("Report Final.TXT", ItemKind::File, 1);
    assert_eq!(compute_new_name(&file, &opts, 2024), "Report-Final.txt");
    let dotfile = item(".bashrc", ItemKind::File, 1);
    assert_eq!(compute_new_name(&dotfile, &opts, 2024), "bashrc");
}

#[test]
fn reorder_moves_date_to_front() {
    let opts = default_slug_opts();
    let it = item("IMG-01-12-2025-Something-bla.jpg", ItemKind::File, 1);
    let (name, det) = reorder_new_name(&it, &opts, 2024).expect("reorderable");
    assert_eq!(name, "2025-12-01-IMG-Something-bla.jpg");
    assert_eq!(det.expect("date").iso_string, "2025-12-01");
}

#[test]
fn reorder_slugifies_dateless_name() {
    let opts = default_slug_opts();
    let it = item("My Photo from the trip.jpg", ItemKind::File, 1);
    let (name, det) = reorder_new_name(&it, &opts, 2024).expect("reorderable");
    assert_eq!(name, "My-Photo-from-the-trip.jpg");
    assert!(det.is_none());
}

#[test]
fn reorder_plan_skips_already_canonical() {
    let (roots, w) = walked(vec![
        item("2025-12-01-IMG-something.jpg", ItemKind::File, 1),
        item("my-photo-from-the-trip.jpg", ItemKind::File, 1),
    ]);
    let plans = plan_reorder_with_year(&roots, &w, &default_slug_opts(), &PlanOpts::default(), 2024, &Vec::new())
        .expect("plan ok");
    assert!(plans.is_empty(), "already canonical: {plans:?}");
}

#[test]
fn reorder_plan_numbers_on_conflict() {
    let (roots, w) = walked(vec![
        item("IMG-01-12-2025.jpg", ItemKind::File, 1),
        item("2025-12-01-IMG.jpg", ItemKind::File, 1),
    ]);
    let existing = vec![format!("{ROOT}/IMG-01-12-2025.jpg"), format!("{ROOT}/2025-12-01-IMG.jpg")];
    let plans = plan_reorder_with_year(&roots, &w, &default_slug_opts(), &PlanOpts::default(), 2024, &existing)
        .expect("plan ok");
    assert_eq!(plans.len(), 1);
    assert_eq!(plans[0].new_name, "2025-12-01-IMG-copy-1.jpg");
    assert_eq!(plans[0].detected_date.as_ref().expect("date").iso_string, "2025-12-01");
}

#[test]
fn reorder_plan_aborts_on_existing_target() {
    let (roots, w) = walked(vec![
        item("IMG-01-12-2025.jpg", ItemKind::File, 1),
        item("2025-12-01-IMG.jpg", ItemKind::File, 1),
    ]);
    let existing = vec![format!("{ROOT}/IMG-01-12-2025.jpg"), format!("{ROOT}/2025-12-01-IMG.jpg")];
    match plan_reorder_with_year(&roots, &w, &default_slug_opts(), &recursive(ConflictPolicy::Abort), 2024, &existing) {
        Err(FrenError::TargetExists(t)) => assert_eq!(t, format!("{ROOT}/2025-12-01-IMG.jpg")),
        other => panic!("expected TargetExists, got {other:?}"),
    }
}

#[test]
fn reorder_matches_rename_for_dateless() {
    let (roots, w) = walked(vec![item("My Photo from the trip.jpg", ItemKind::File, 1)]);
    let a = plan_with_year(&roots, &w, &default_slug_opts(), &PlanOpts::default(), 2024, &Vec::new()).unwrap();
    let b = plan_reorder_with_year(&roots, &w, &default_slug_opts(), &PlanOpts::default(), 2024, &Vec::new())
        .unwrap();
    assert_eq!(a[0].new_name, b[0].new_name);
    assert_eq!(a[0].new_name, "My-Photo-from-the-trip.jpg");
}

#[test]
fn walker_decisions() {
    assert!(is_hidden_entry(".hidden"));
    assert!(!is_hidden_entry("visible"));
    let exclude = vec!["/data/root/Skip Me".to_string()];
    assert!(is_excluded("/data/root/Skip Me", &exclude));
    assert!(is_excluded("/data/root/Skip Me/inside.txt", &exclude));
    assert!(!is_excluded("/data/root/Skip Mealso.txt", &exclude));
    assert!(!is_excluded("/data/root/Keep Me.txt", &exclude));
    assert!(should_descend(ItemKind::Dir, false, 0));
    assert!(!should_descend(ItemKind::Dir, false, 1));
    assert!(should_descend(ItemKind::Dir, true, 3));
    assert!(!should_descend(ItemKind::Symlink, true, 0));
}

fn plan_at(depth: usize, kind: ItemKind, name: &str) -> RenamePlan {
    RenamePlan {
        original_path: name.to_string(),
        parent: String::new(),
        old_name: name.to_string(),
        new_name: name.to_string(),
        depth,
        kind,
        detected_date: None,
        batch_id: 0,
    }
}

#[test]
fn sort_bottom_up_is_stable() {
    let mut plans = vec![
        plan_at(1, ItemKind::Dir, "d1"),
        plan_at(2, ItemKind::File, "f2a"),
        plan_at(1, ItemKind::File, "f1"),
        plan_at(2, ItemKind::Dir, "d2"),
        plan_at(2, ItemKind::Symlink, "s2"),
        plan_at(1, ItemKind::Dir, "d1b"),
    ];
    sort_bottom_up(&mut plans);
    let order: Vec<_> = plans.iter().map(|p| p.old_name.as_str()).collect();
    assert_eq!(order, vec!["f2a", "s2", "d2", "f1", "d1", "d1b"]);
}

fn flat(names: &[&str]) -> (Vec<String>, Vec<Vec<DiscoveredItem>>, Vec<String>) {
    let (roots, w) = walked(names.iter().map(|n| item(n, ItemKind::File, 1)).collect());
    let existing = names.iter().map(|n| format!("{ROOT}/{n}")).collect();
    (roots, w, existing)
}

#[test]
fn reorder_skips_canonical() {
    let (roots, w, existing) = flat(&["2025-12-01-IMG-something.jpg"]);
    let plans = plan_reorder_with_year(&roots, &w, &default_slug_opts(), &PlanOpts::default(), 2025, &existing)
        .expect("plan ok");
    assert_eq!(plans.len(), 0, "canonical file (date already at front) should be skipped, got {:?}", plans);
}

#[test]
fn reorder_skips_no_date() {
    let (roots, w, existing) = flat(&["some-file-no-date.txt"]);
    let plans = plan_reorder_with_year(&roots, &w, &default_slug_opts(), &PlanOpts::default(), 2025, &existing)
        .expect("plan ok");
    assert_eq!(plans.len(), 0, "file with no date should be skipped, got {:?}", plans);
}

#[test]
fn reorder_uses_first_date() {
    let (roots, w, existing) = flat(&["Meeting-2024-01-15-review-2023-11-20.mp4"]);
    let plans = plan_reorder_with_year(&roots, &w, &default_slug_opts(), &PlanOpts::default(), 2024, &existing)
        .expect("plan ok");
    assert_eq!(plans.len(), 1, "expected exactly 1 plan, got {:?}", plans);
    assert!(
        plans[0].new_name.starts_with("2024-01-15"),
        "new name should start with first detected date, got: {}",
        plans[0].new_name
    );
}

#[test]
fn reorder_moves_date_to_front_lower_case_mode() {
    let (roots, w, existing) = flat(&["IMG-01-12-2025-Something.jpg"]);
    let lower_opts = SlugOpts {
        separator: '-',
        case: CaseMode::Lower,
        split_camel: false,
    };
    let plans = plan_reorder_with_year(&roots, &w, &lower_opts, &PlanOpts::default(), 2025, &existing)
        .expect("plan ok");
    assert_eq!(plans.len(), 1, "expected exactly 1 plan, got {:?}", plans);
    assert!(
        plans[0].new_name.starts_with("2025-12-01"),
        "date prefix should be correct under lower case mode, got: {}",
        plans[0].new_name
    );
}

#[test]
fn reorder_file_passed_as_root() {
    let file = "/data/tmp/EngageMe-Survey-2026-05-22.pdf".to_string();
    let roots = vec![file.clone()];
    let w = vec![vec![DiscoveredItem { path: file.clone(), kind: ItemKind::File, depth: 0 }]];
    let plans = plan_reorder_with_year(&roots, &w, &default_slug_opts(), &PlanOpts::default(), 2026, &vec![file])
        .expect("plan ok");
    assert_eq!(plans.len(), 1, "file passed as root should be planned, got {:?}", plans);
    assert!(
        plans[0].new_name.starts_with("2026-05-22"),
        "date should be moved to front, got: {}",
        plans[0].new_name
    );
}

#[test]
fn rename_file_passed_as_root() {
    let file = "/data/tmp/IMG_2025_12_01_photo.jpg".to_string();
    let roots = vec![file.clone()];
    let w = vec![vec![DiscoveredItem { path: file.clone(), kind: ItemKind::File, depth: 0 }]];
    let plans = plan_with_year(&roots, &w, &default_slug_opts(), &PlanOpts::default(), 2025, &vec![file])
        .expect("plan ok");
    assert_eq!(plans.len(), 1, "file passed as root should be planned, got {:?}", plans);
}

#[test]
fn exclude_paths_are_skipped() {
    let opts = PlanOpts {
        recursive: true,
        exclude: vec![format!("{ROOT}/Skip Me")],
        on_conflict: ConflictPolicy::Number,
    };
    // What a walk with these options yields: excluded entries and what lies
    // under them are left out.
    let candidates = vec![
        item("Keep Me.txt", ItemKind::File, 1),
        item("Skip Me", ItemKind::Dir, 1),
        item("Skip Me/inside.txt", ItemKind::File, 2),
    ];
    let kept: Vec<DiscoveredItem> =
        candidates.into_iter().filter(|it| !is_excluded(&it.path, &opts.exclude)).collect();
    let (roots, w) = walked(kept);
    let plans = plan_with_year(&roots, &w, &default_slug_opts(), &opts, 2024, &Vec::new()).expect("plan ok");
    let originals: Vec<String> = plans.iter().map(|p| p.original_path.clone()).collect();
    assert!(originals.iter().any(|p| p.contains("Keep Me.txt")));
    assert!(!originals.iter().any(|p| p.contains("Skip Me")), "excluded path leaked: {originals:?}");
}

fn top_level(on_conflict: ConflictPolicy) -> PlanOpts {
    PlanOpts {
        exclude: Vec::new(),
        recursive: false,
        on_conflict,
    }
}

#[test]
fn on_conflict_number_default_does_not_abort() {
    let (roots, w, existing) = flat(&["Report 2022-02-21.txt", "Report-2022-02-21.txt"]);
    let plans = plan_with_year(&roots, &w, &default_slug_opts(), &PlanOpts::default(), 2026, &existing)
        .expect("expected success");
    let news: Vec<&str> = plans.iter().map(|p| p.new_name.as_str()).collect();
    assert!(news.contains(&"Report-2022-02-21-copy-1.txt"), "-copy-1 variant should be planned: {news:?}");
}

#[test]
fn on_conflict_abort_aborts() {
    let (roots, w, existing) = flat(&["Report 2022-02-21.txt", "Report-2022-02-21.txt"]);
    match plan_with_year(&roots, &w, &default_slug_opts(), &top_level(ConflictPolicy::Abort), 2026, &existing) {
        Err(FrenError::TargetExists(t)) => assert_eq!(t, format!("{ROOT}/Report-2022-02-21.txt")),
        other => panic!("expected failure with abort, got {other:?}"),
    }
}

#[test]
fn on_conflict_number_explicit() {
    let (roots, w, existing) = flat(&["Report 2022-02-21.txt", "Report-2022-02-21.txt"]);
    let plans = plan_with_year(&roots, &w, &default_slug_opts(), &top_level(ConflictPolicy::Number), 2026, &existing)
        .expect("expected success");
    let news: Vec<&str> = plans.iter().map(|p| p.new_name.as_str()).collect();
    assert!(news.contains(&"Report-2022-02-21-copy-1.txt"), "-copy-1 variant should be planned: {news:?}");
}

#[test]
fn reorder_apply_moves_date_to_front() {
    let (roots, w, existing) = flat(&["IMG-01-12-2025-Something-bla.jpg"]);
    let plans = plan_reorder_with_year(&roots, &w, &default_slug_opts(), &PlanOpts::default(), 2026, &existing)
        .expect("expected success");
    assert_eq!(plans.len(), 1);
    assert_eq!(plans[0].new_name, "2025-12-01-IMG-Something-bla.jpg");
}

#[test]
fn reorder_skips_already_canonical() {
    let (roots, w, existing) = flat(&["2025-12-01-IMG-something.jpg"]);
    let plans = plan_reorder_with_year(&roots, &w, &default_slug_opts(), &PlanOpts::default(), 2026, &existing)
        .expect("expected success");
    assert!(plans.is_empty(), "all names already in canonical form: {plans:?}");
}

#[test]
fn reorder_on_conflict_numbering() {
    let (roots, w, existing) = flat(&["IMG-01-12-2025.jpg", "2025-12-01-IMG.jpg"]);
    let plans = plan_reorder_with_year(&roots, &w, &default_slug_opts(), &PlanOpts::default(), 2026, &existing)
        .expect("expected success with default number policy");
    let numbered = plans
        .iter()
        .map(|p| p.new_name.as_str())
        .find(|name| name.starts_with("2025-12-01-IMG") && *name != "2025-12-01-IMG.jpg");
    assert!(numbered.is_some(), "expected a numbered variant of '2025-12-01-IMG.jpg'");
}

#[test]
fn reorder_slugifies_dateless_file() {
    let (roots, w, existing) = flat(&["My Photo from the trip.jpg"]);
    let plans = plan_reorder_with_year(&roots, &w, &default_slug_opts(), &PlanOpts::default(), 2026, &existing)
        .expect("expected success");
    assert_eq!(plans.len(), 1, "original file should be renamed");
    assert!(!plans[0].new_name.contains(' '), "no space after reorder: {}", plans[0].new_name);
    assert_eq!(plans[0].new_name, "My-Photo-from-the-trip.jpg");
}

#[test]
fn reorder_skips_dateless_canonical() {
    let (roots, w, existing) = flat(&["my-photo-from-the-trip.jpg"]);
    let plans = plan_reorder_with_year(&roots, &w, &default_slug_opts(), &PlanOpts::default(), 2026, &existing)
        .expect("expected success");
    assert!(plans.is_empty(), "all names already in canonical form: {plans:?}");
}

#[test]
fn reorder_dry_run_respects_on_conflict() {
    let (roots, w, existing) = flat(&["IMG-01-12-2025.jpg", "2025-12-01-IMG.jpg"]);
    match plan_reorder_with_year(&roots, &w, &default_slug_opts(), &top_level(ConflictPolicy::Abort), 2026, &existing) {
        Err(FrenError::TargetExists(t)) => assert_eq!(t, format!("{ROOT}/2025-12-01-IMG.jpg")),
        other => panic!("expected failure with abort and a collision, got {other:?}"),
    }
}

/// What exists after applying `plans` in order to the paths in `existing`,
/// each rename refused when its target exists.
fn apply_on_disk(plans: &[RenamePlan], existing: &mut Vec<String>) -> usize {
    let mut applied = 0;
    for p in plans {
        let to = fren_date::rename_target(p);
        if existing.contains(&to) || !existing.contains(&p.original_path) {
            break;
        }
        let prefix = format!("{}/", p.original_path);
        for e in existing.iter_mut() {
            if *e == p.original_path {
                *e = to.clone();
            } else if let Some(rest) = e.strip_prefix(&prefix) {
                *e = format!("{to}/{rest}");
            }
        }
        applied += 1;
    }
    applied
}

#[test]
fn renames_files_with_dates() {
    let (roots, w, mut existing) = flat(&["Photo 2024-01-15.jpg"]);
    let plans = plan_with_year(&roots, &w, &default_slug_opts(), &recursive(ConflictPolicy::Number), 2024, &existing)
        .unwrap();
    let applied = apply_on_disk(&plans, &mut existing);
    assert_eq!(applied, plans.len(), "all plans should apply");
    assert!(existing.contains(&format!("{ROOT}/Photo-2024-01-15.jpg")));
    assert!(!existing.contains(&format!("{ROOT}/Photo 2024-01-15.jpg")));
}

#[test]
fn bottom_up_renames_dir_after_its_files() {
    let (roots, w) = walked(vec![
        item("My Vacation", ItemKind::Dir, 1),
        item("My Vacation/photo 1.jpg", ItemKind::File, 2),
        item("My Vacation/photo 2.jpg", ItemKind::File, 2),
    ]);
    let mut existing = vec![
        format!("{ROOT}/My Vacation"),
        format!("{ROOT}/My Vacation/photo 1.jpg"),
        format!("{ROOT}/My Vacation/photo 2.jpg"),
    ];
    let plans = plan_with_year(&roots, &w, &default_slug_opts(), &recursive(ConflictPolicy::Number), 2024, &existing)
        .unwrap();
    let applied = apply_on_disk(&plans, &mut existing);
    assert_eq!(applied, plans.len());
    assert!(existing.contains(&format!("{ROOT}/My-Vacation")), "renamed dir must exist");
    assert!(existing.contains(&format!("{ROOT}/My-Vacation/photo-1.jpg")));
    assert!(existing.contains(&format!("{ROOT}/My-Vacation/photo-2.jpg")));
}

#[test]
fn aborts_when_target_exists_outside_batch() {
    let (roots, w, existing) = flat(&["Hello World.txt", "Hello-World.txt"]);
    let result = plan_with_year(&roots, &w, &default_slug_opts(), &recursive(ConflictPolicy::Abort), 2024, &existing);
    assert!(matches!(result, Err(FrenError::TargetExists(_))));
    assert!(existing.contains(&format!("{ROOT}/Hello World.txt")));
    assert!(existing.contains(&format!("{ROOT}/Hello-World.txt")));
}

#[test]
fn reorder_batch_without_collisions() {
    let (roots, w, existing) = flat(&["Report 2017_12_30_10_44_56 Final.PDF", "Holiday Photos.JPG"]);
    let lower_opts = SlugOpts {
        separator: '-',
        case: CaseMode::Lower,
        split_camel: false,
    };
    let plans = plan_reorder_with_year(&roots, &w, &lower_opts, &PlanOpts::default(), 2019, &existing)
        .expect("plan ok");
    assert_eq!(plans.len(), 2, "got {:?}", plans);
    for p in &plans {
        assert_ne!(p.new_name, p.old_name);
        match &p.detected_date {
            Some(d) => {
                assert_eq!(d.iso_string, "2017-12-30T10-44-56");
                assert!(p.new_name.starts_with(&d.iso_string), "got {}", p.new_name);
                assert_eq!(p.new_name, "2017-12-30T10-44-56-report-final.pdf");
            }
            None => {
                let raw = DiscoveredItem {
                    path: p.original_path.clone(),
                    kind: p.kind,
                    depth: p.depth,
                };
                assert_eq!(p.new_name, compute_new_name(&raw, &lower_opts, 2019));
                assert_eq!(p.new_name, "holiday-photos.jpg");
            }
        }
    }
}
