use entryconf::cli::{parse_args, Kind};

fn args(items: &[&str]) -> Vec<String> {
    items.iter().map(|s| (*s).to_string()).collect()
}

#[test]
fn parses_inspect_and_edit() {
    let c = parse_args(&args(&["inspect", "cfg"])).unwrap();
    assert!(matches!(c.kind, Kind::Inspect { pointer: None, .. }));
    let c = parse_args(&args(&["inspect", "-v", "cfg", "/a"])).unwrap();
    assert!(c.verbose);
    assert!(matches!(c.kind, Kind::Inspect { pointer: Some(_), .. }));
    let c = parse_args(&args(&["edit", "-n", "cfg", "-"])).unwrap();
    assert!(c.dry_run);
    assert!(matches!(c.kind, Kind::Edit { ref request, .. } if request == "-"));
}

#[test]
fn rejects_bad_invocations() {
    assert!(parse_args(&args(&[])).is_none());
    assert!(parse_args(&args(&["inspect"])).is_none());
    assert!(parse_args(&args(&["inspect", "a", "b", "c"])).is_none());
    assert!(parse_args(&args(&["edit", "cfg"])).is_none());
    assert!(parse_args(&args(&["edit", "--nope", "cfg", "r.json"])).is_none());
    assert!(parse_args(&args(&["inspect", "-n", "cfg"])).is_none());
    assert!(parse_args(&args(&["frobnicate", "cfg"])).is_none());
}

#[test]
fn operands_and_flags_are_kept_exactly() {
    let c = parse_args(&args(&["inspect", "cfg", "/a/b"])).unwrap();
    assert!(!c.verbose);
    assert!(!c.dry_run);
    assert_eq!(c.kind, Kind::Inspect { dir: "cfg".to_string(), pointer: Some("/a/b".to_string()) });
    let c = parse_args(&args(&["edit", "--dry-run", "-v", "d", "req.json"])).unwrap();
    assert!(c.dry_run);
    assert!(c.verbose);
    assert_eq!(c.kind, Kind::Edit { dir: "d".to_string(), request: "req.json".to_string() });
}

#[test]
fn an_empty_pointer_operand_is_the_root() {
    let c = parse_args(&args(&["inspect", "cfg", ""])).unwrap();
    assert_eq!(c.kind, Kind::Inspect { dir: "cfg".to_string(), pointer: Some(String::new()) });
}
