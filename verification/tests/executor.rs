//! Executor decisions: outcomes, log records, temporary names, log paths.

use fren_date::{
    after_rename_reply, check_path_bytes, rename_precheck, RenameReply,
    batch_id_of, default_log_dir, empty_report, end_status, kind_label, log_file_name,
    make_temp_path, needs_temp_retry, record_log_outcome, record_outcome, rename_preview, rename_record, rename_target,
    resolve_pager, temp_path_with_id, uuid_string, FrenError, ItemKind, LogRecord, LogSink,
    NullLogSink, RenamePlan,
};

fn plan(parent: &str, old: &str, new: &str, kind: ItemKind, batch_id: u128) -> RenamePlan {
    RenamePlan {
        original_path: format!("{parent}/{old}"),
        parent: parent.to_string(),
        old_name: old.to_string(),
        new_name: new.to_string(),
        depth: 1,
        kind,
        detected_date: None,
        batch_id,
    }
}

#[test]
fn empty_plans_succeed_with_zero_applied() {
    let report = empty_report(&Vec::new());
    assert_eq!(report.applied, 0);
    assert!(report.errors.is_empty());
    assert_eq!(report.batch_id, 0);
    assert!(report.log_path.is_none());
}

#[test]
fn outcomes_count_and_stop() {
    let plans = vec![plan("/d", "a b", "a-b", ItemKind::File, 7)];
    let mut report = empty_report(&plans);
    assert_eq!(report.batch_id, 7);
    assert!(record_outcome(&mut report, Ok(())));
    assert_eq!(report.applied, 1);
    assert_eq!(end_status(&report), "ok");
    assert!(!record_outcome(&mut report, Err(FrenError::TargetExists("/d/x".to_string()))));
    assert_eq!(report.applied, 1);
    assert_eq!(report.errors.len(), 1);
    assert_eq!(end_status(&report), "partial");
    let mut failed = empty_report(&plans);
    record_outcome(&mut failed, Err(FrenError::InvalidInput("x".to_string())));
    assert_eq!(end_status(&failed), "error");
}

#[test]
fn rename_records_name_the_target_and_kind() {
    let p = plan("/d", "My Trip", "My-Trip", ItemKind::Dir, 1);
    assert_eq!(rename_target(&p), "/d/My-Trip");
    match rename_record(&p, "2024-01-01T00:00:00Z".to_string()) {
        LogRecord::Rename { v, ts, from, to, kind } => {
            assert_eq!(v, 1);
            assert_eq!(ts, "2024-01-01T00:00:00Z");
            assert_eq!(from, "/d/My Trip");
            assert_eq!(to, "/d/My-Trip");
            assert_eq!(kind, "dir");
        }
        other => panic!("expected a rename record, got {other:?}"),
    }
    assert_eq!(kind_label(ItemKind::File), "file");
    assert_eq!(kind_label(ItemKind::Symlink), "symlink");
}

#[test]
fn case_only_conflicts_are_retried() {
    let exists = FrenError::TargetExists("/dir/foo.txt".to_string());
    assert!(needs_temp_retry(&exists, "/dir/Foo.txt", "/dir/foo.txt"));
    assert!(!needs_temp_retry(&exists, "/dir/bar.txt", "/dir/foo.txt"));
    let io = FrenError::Io { path: "/dir/Foo.txt".to_string(), message: "denied".to_string() };
    assert!(!needs_temp_retry(&io, "/dir/Foo.txt", "/dir/foo.txt"));
}

#[test]
fn uuid_string_is_hyphenated_lowercase_hex() {
    assert_eq!(uuid_string(0), "00000000-0000-0000-0000-000000000000");
    assert_eq!(
        uuid_string(0x0123_4567_89ab_cdef_fedc_ba98_7654_3210),
        "01234567-89ab-cdef-fedc-ba9876543210"
    );
}

#[test]
fn make_temp_path_is_in_same_dir() {
    let temp = make_temp_path("/some/dir/myfile.txt");
    assert!(temp.starts_with("/some/dir/.fren_tmp_myfile.txt_"), "{temp}");
    assert_eq!(
        temp_path_with_id("/some/dir/myfile.txt", 255),
        "/some/dir/.fren_tmp_myfile.txt_00000000-0000-0000-0000-0000000000ff"
    );
    assert_eq!(
        temp_path_with_id("myfile.txt", 0),
        ".fren_tmp_myfile.txt_00000000-0000-0000-0000-000000000000"
    );
}

#[test]
fn log_locations() {
    assert_eq!(default_log_dir(Some("/state"), Some("/home/u")), "/state/fren/log");
    assert_eq!(default_log_dir(None, Some("/home/u")), "/home/u/.local/state/fren/log");
    assert_eq!(default_log_dir(None, None), ".fren-log");
    assert_eq!(
        log_file_name("20240101T000000Z", 1),
        "20240101T000000Z-00000000-0000-0000-0000-000000000001.jsonl"
    );
}

#[test]
fn null_log_sink_accepts_everything() {
    let mut sink = NullLogSink;
    let rec = LogRecord::End {
        v: 1,
        ts: String::new(),
        status: "ok".to_string(),
        applied: 0,
        skipped: 0,
        errors: 0,
    };
    assert!(sink.append(&rec).is_ok());
    assert!(sink.path().is_none());
    assert_eq!(batch_id_of(&Vec::new()), 0);
}

#[test]
fn resolve_pager_empty_env_gives_default() {
    assert_eq!(resolve_pager(None), "less -FIRX");
    assert_eq!(resolve_pager(Some("  \t")), "less -FIRX");
    assert_eq!(resolve_pager(Some("most -s")), "most -s");
}

#[test]
fn kernel_replies_decide_the_rename() {
    assert_eq!(after_rename_reply("a", "b", RenameReply::Renamed), Ok(true));
    assert_eq!(after_rename_reply("a", "b", RenameReply::Unsupported), Ok(false));
    assert_eq!(
        after_rename_reply("a", "b", RenameReply::TargetPresent),
        Err(FrenError::TargetExists("b".to_string()))
    );
    assert_eq!(
        after_rename_reply("a", "b", RenameReply::Failed("denied".to_string())),
        Err(FrenError::Io { path: "a".to_string(), message: "denied".to_string() })
    );
}

#[test]
fn fallback_refuses_an_existing_target() {
    assert_eq!(rename_precheck("x/b", false), Ok(()));
    assert_eq!(rename_precheck("x/b", true), Err(FrenError::TargetExists("x/b".to_string())));
}

#[test]
fn nul_in_a_path_is_invalid_input() {
    assert_eq!(check_path_bytes("dir/file.txt"), Ok(()));
    assert_eq!(
        check_path_bytes("dir/fi\0le"),
        Err(FrenError::InvalidInput("path contains null byte: dir/fi\0le".to_string()))
    );
}

#[test]
fn log_failure_stops_with_one_error() {
    let plans = vec![plan("/d", "a b", "a-b", ItemKind::File, 3)];
    let mut report = empty_report(&plans);
    assert!(record_outcome(&mut report, Ok(())));
    assert!(record_log_outcome(&mut report, Ok(())));
    assert!(report.errors.is_empty());
    assert!(!record_log_outcome(&mut report, Err(FrenError::InvalidInput("log".to_string()))));
    assert_eq!(report.errors.len(), 1);
    assert_eq!(report.applied, 1);
    assert_eq!(end_status(&report), "partial");
}

#[test]
fn preview_reports_nothing_applied() {
    let plans = vec![plan("/d", "a b", "a-b", ItemKind::File, 9)];
    let (ps, rep) = rename_preview(Ok(plans)).expect("preview");
    assert_eq!(ps.len(), 1);
    assert_eq!(rep.applied, 0);
    assert_eq!(rep.skipped, 0);
    assert!(rep.errors.is_empty());
    assert_eq!(rep.batch_id, 9);
    assert!(rep.log_path.is_none());
    let (_, empty) = rename_preview(Ok(Vec::new())).expect("preview");
    assert_eq!(empty.batch_id, 0);
    match rename_preview(Err(FrenError::InvalidInput("bad".to_string()))) {
        Err(FrenError::InvalidInput(m)) => assert_eq!(m, "bad"),
        other => panic!("unexpected {:?}", other.map(|(p, _)| p.len())),
    }
}
