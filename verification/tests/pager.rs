//! Pager command-line splitting.

use fren_date::{parse_pager_cmd, resolve_pager};

#[test]
fn resolve_pager_empty_env_gives_fallback() {
    // Test the filter logic: an empty PAGER string should fall through to default.
    // We test via parse_pager_cmd with the known default string instead.
    let (cmd, _args) = parse_pager_cmd("less -FIRX");
    assert_eq!(cmd, "less");
}

#[test]
fn parse_pager_cmd_splits_args() {
    let (cmd, args) = parse_pager_cmd("less -FIRX");
    assert_eq!(cmd, "less");
    assert_eq!(args, vec!["-FIRX"]);
}

#[test]
fn parse_pager_cmd_no_args() {
    let (cmd, args) = parse_pager_cmd("more");
    assert_eq!(cmd, "more");
    assert!(args.is_empty());
}

#[test]
fn parse_pager_cmd_empty_falls_back_to_less() {
    let (cmd, args) = parse_pager_cmd("   \t ");
    assert_eq!(cmd, "less");
    assert!(args.is_empty());
    let (cmd, args) = parse_pager_cmd("  most  -s\t-w ");
    assert_eq!(cmd, "most");
    assert_eq!(args, vec!["-s", "-w"]);
}

#[test]
fn resolve_pager_returns_string() {
    assert!(!resolve_pager(None).is_empty());
    assert!(!resolve_pager(Some("")).is_empty());
}
