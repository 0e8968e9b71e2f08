use entryconf::edit::{affected_pointers, scan_references};
use entryconf::envfile::{parse_env_file, Vars};
use entryconf::interp::interpolate_string;
use entryconf::json::{Json, Number};
use entryconf::lock::{lock_file_name, lock_step, unix_time_rfc3339, LockAction, LockAttempt, FIRST_WAIT_MS};
use entryconf::parse::format_for_path;
use entryconf::parse::toml_fmt::{render_datetime, TomlDate, TomlDatetime, TomlOffset, TomlTime};
use entryconf::pointer::{parse, remove};
use entryconf::{escape_literal, CommitOptions, ErrorCode, Format};

fn num(i: i64) -> Json {
    Json::Number(Number::Int(i))
}

fn s(t: &str) -> Json {
    Json::Str(t.to_string())
}

fn obj(es: Vec<(&str, Json)>) -> Json {
    Json::Object(es.into_iter().map(|(k, v)| (k.to_string(), v)).collect())
}

fn vars(process: &[(&str, &str)]) -> Vars {
    Vars::new(
        process.iter().map(|(k, v)| (k.to_string(), v.to_string())).collect(),
        Vec::new(),
        Vec::new(),
    )
}

#[test]
fn the_lock_protocol_decides_each_attempt() {
    assert_eq!(lock_file_name(), ".entryconf.lock");
    assert!(matches!(lock_step("/d/.entryconf.lock", LockAttempt::Created, 0, 100, 5), LockAction::Acquired));
    match lock_step("/d/.entryconf.lock", LockAttempt::Failed("denied".to_string()), 0, 100, 5) {
        LockAction::Fail(e) => assert_eq!(e.kind(), ErrorCode::Locked),
        other => panic!("unexpected {other:?}"),
    }
    assert!(matches!(
        lock_step("/d/.entryconf.lock", LockAttempt::Held(Some(30_001)), 0, 100, 5),
        LockAction::BreakStale
    ));
    assert!(matches!(
        lock_step("/d/.entryconf.lock", LockAttempt::Held(Some(30_000)), 0, 100, FIRST_WAIT_MS),
        LockAction::Wait(5, 10)
    ));
    assert!(matches!(lock_step("/d/.entryconf.lock", LockAttempt::Held(None), 10, 100, 80), LockAction::Wait(80, 160)));
    assert!(matches!(lock_step("/d/.entryconf.lock", LockAttempt::Held(None), 10, 100, 160), LockAction::Wait(160, 160)));
    match lock_step("/d/.entryconf.lock", LockAttempt::Held(Some(10)), 100, 100, 5) {
        LockAction::Fail(e) => assert_eq!(e.kind(), ErrorCode::Locked),
        other => panic!("unexpected {other:?}"),
    }
    assert_eq!(CommitOptions::new().lock_timeout_ms, 5000);
}

#[test]
fn lock_timestamps_are_rfc3339_utc() {
    assert_eq!(unix_time_rfc3339(0), "1970-01-01T00:00:00Z");
    assert_eq!(unix_time_rfc3339(951_782_400), "2000-02-29T00:00:00Z");
    assert_eq!(unix_time_rfc3339(1_700_000_000), "2023-11-14T22:13:20Z");
}

#[test]
fn toml_datetimes_render_as_their_text() {
    let date = TomlDate { year: 1979, month: 5, day: 27 };
    let time = TomlTime { hour: 0, minute: 32, second: 0, nanosecond: 999_999_000 };
    let full = TomlDatetime { date: Some(date), time: Some(time), offset: Some(TomlOffset::Custom(-420)) };
    assert_eq!(render_datetime(&full), "1979-05-27T00:32:00.999999-07:00");
    let z = TomlDatetime {
        date: Some(date),
        time: Some(TomlTime { hour: 7, minute: 32, second: 0, nanosecond: 0 }),
        offset: Some(TomlOffset::Z),
    };
    assert_eq!(render_datetime(&z), "1979-05-27T07:32:00Z");
    assert_eq!(render_datetime(&TomlDatetime { date: Some(date), time: None, offset: None }), "1979-05-27");
    assert_eq!(render_datetime(&TomlDatetime { date: None, time: Some(time), offset: None }), "00:32:00.999999");
}

#[test]
fn formats_come_from_extensions() {
    assert_eq!(format_for_path("/c/a.json"), Some(Format::Json));
    assert_eq!(format_for_path("/c/a.yml"), Some(Format::Yaml));
    assert_eq!(format_for_path("/c/a.yaml"), Some(Format::Yaml));
    assert_eq!(format_for_path("/c/a.toml"), Some(Format::Toml));
    assert_eq!(format_for_path("/c/a.txt"), None);
    assert!(Format::Json.writable());
    assert!(!Format::Yaml.writable());
    assert_eq!(Format::Toml.as_str(), "toml");
}

#[test]
fn pointers_parse_set_and_remove() {
    assert_eq!(parse("/a~1b/~0c").unwrap(), vec!["a/b".to_string(), "~c".to_string()]);
    assert_eq!(parse("a").unwrap_err().kind(), ErrorCode::Path);
    let root = obj(vec![("a", Json::Array(vec![num(1), num(2)]))]);
    let r = entryconf::pointer::set(root, "/a/-", num(3)).unwrap();
    assert_eq!(r, obj(vec![("a", Json::Array(vec![num(1), num(2), num(3)]))]));
    let r = entryconf::pointer::set(r, "/b", s("x")).unwrap();
    assert_eq!(r, obj(vec![("a", Json::Array(vec![num(1), num(2), num(3)])), ("b", s("x"))]));
    let r = remove(r, "/a/0").unwrap();
    assert_eq!(r, obj(vec![("a", Json::Array(vec![num(2), num(3)])), ("b", s("x"))]));
    assert_eq!(remove(r, "/nope").unwrap_err().kind(), ErrorCode::Path);
    assert_eq!(entryconf::pointer::set(num(1), "", s("root")).unwrap(), s("root"));
}

#[test]
fn env_files_parse_and_reject_duplicates() {
    let pairs = parse_env_file("# comment\nA=1\n  B= two words \nC=\"q\\n\"\nD='x'\n\n", "/c/a.env").unwrap();
    assert_eq!(pairs[0], ("A".to_string(), "1".to_string()));
    assert_eq!(pairs[1], ("B".to_string(), "two words".to_string()));
    assert_eq!(pairs[2], ("C".to_string(), "q\\n".to_string()));
    assert_eq!(pairs[3], ("D".to_string(), "x".to_string()));
    assert_eq!(parse_env_file("A=1\nA=2\n", "/c/a.env").unwrap_err().kind(), ErrorCode::EnvConflict);
    assert_eq!(parse_env_file("not a line\n", "/c/a.env").unwrap_err().kind(), ErrorCode::Parse);
    assert_eq!(parse_env_file("FOO = bar\n", "/c/a.env").unwrap_err().kind(), ErrorCode::Parse);
}

#[test]
fn interpolation_resolves_forms_and_escapes() {
    let mut v = vars(&[("HOST", "db"), ("PORT", "5432")]);
    assert_eq!(interpolate_string("${HOST}:$PORT", &mut v).unwrap(), s("db:5432"));
    assert_eq!(interpolate_string("$$HOST", &mut v).unwrap(), s("$HOST"));
    assert_eq!(interpolate_string("${MISSING:-x}", &mut v).unwrap(), s("x"));
    assert_eq!(interpolate_string("$MISSING", &mut v).unwrap_err().kind(), ErrorCode::MissingVar);
    assert_eq!(interpolate_string("${", &mut v).unwrap_err().kind(), ErrorCode::Substitution);
    assert_eq!(v.used(), vec!["HOST".to_string(), "MISSING".to_string(), "PORT".to_string()]);
}

#[test]
fn literals_escape_so_they_load_back_as_themselves() {
    let v = obj(vec![("a", s("$X and @file:y")), ("n", Json::Array(vec![s("${Y}"), num(1)]))]);
    let e = escape_literal(v);
    assert_eq!(e, obj(vec![("a", s("$$X and @file:y")), ("n", Json::Array(vec![s("$${Y}"), num(1)]))]));
    assert_eq!(escape_literal(s("@file:x.json")), s("@@file:x.json"));
    let mut none = vars(&[]);
    let back = entryconf::interp::interpolate(e, &mut none).unwrap();
    assert_eq!(back, obj(vec![("a", s("$X and @file:y")), ("n", Json::Array(vec![s("${Y}"), num(1)]))]));
}

#[test]
fn references_are_scanned_in_order() {
    let refs = scan_references("${A} $B ${C:-d} $$E");
    assert_eq!(refs, vec![("A".to_string(), false), ("B".to_string(), false), ("C".to_string(), true)]);
}

#[test]
fn affected_pointers_name_every_difference() {
    let before = obj(vec![("a", num(1)), ("b", Json::Array(vec![num(1)])), ("c", s("x"))]);
    let after = obj(vec![("a", num(1)), ("b", Json::Array(vec![num(2)])), ("d", Json::Null)]);
    assert_eq!(affected_pointers(&before, &after), vec!["/b/0".to_string(), "/c".to_string(), "/d".to_string()]);
    assert!(affected_pointers(&before, &before).is_empty());
    let f = obj(vec![("n", Json::Number(Number::Float("2".to_string())))]);
    let i = obj(vec![("n", num(2))]);
    assert!(affected_pointers(&f, &i).is_empty());
    let z = obj(vec![("n", Json::Number(Number::Float("-0".to_string())))]);
    let zero = obj(vec![("n", Json::Number(Number::Float("0".to_string())))]);
    assert!(affected_pointers(&z, &zero).is_empty());
    assert_eq!(affected_pointers(&f, &zero), vec!["/n".to_string()]);
    let big_int = obj(vec![("n", num(9007199254740992))]);
    let big_float = obj(vec![("n", Json::Number(Number::Float(9007199254740992.0_f64.to_string())))]);
    assert!(affected_pointers(&big_int, &big_float).is_empty());
    let huge_u = obj(vec![("n", Json::Number(Number::UInt(10_000_000_000_000_000_000)))]);
    let huge_f = obj(vec![("n", Json::Number(Number::Float(1e19_f64.to_string())))]);
    assert!(affected_pointers(&huge_u, &huge_f).is_empty());
}

#[test]
fn include_strings_and_variable_names_are_recognized() {
    assert!(entryconf::load::is_include("@file:x.json"));
    assert!(!entryconf::load::is_include("@@file:x.json"));
    assert!(!entryconf::load::is_include("@fil"));
    assert!(entryconf::envfile::is_var_name("_A1"));
    assert!(!entryconf::envfile::is_var_name("1A"));
    assert!(!entryconf::envfile::is_var_name(""));
    assert!(!entryconf::envfile::is_var_name("A-B"));
}

#[test]
fn a_whole_reference_takes_the_type_of_its_value() {
    let mut v = vars(&[("N", "1.50"), ("I", "10"), ("B", "true"), ("S", " 1"), ("E", "1e2")]);
    assert_eq!(interpolate_string("${N}", &mut v).unwrap(), Json::Number(Number::Float("1.5".to_string())));
    assert_eq!(interpolate_string("$I", &mut v).unwrap(), num(10));
    assert_eq!(interpolate_string("$B", &mut v).unwrap(), Json::Bool(true));
    assert_eq!(interpolate_string("$S", &mut v).unwrap(), s(" 1"));
    assert_eq!(interpolate_string("$E", &mut v).unwrap(), Json::Number(Number::Float("100".to_string())));
    assert_eq!(interpolate_string("x$I", &mut v).unwrap(), s("x10"));
}

#[test]
fn json_numbers_parse_to_their_shortest_text() {
    assert_eq!(entryconf::json::json_number("2.50"), Some(Number::Float("2.5".to_string())));
    assert_eq!(entryconf::json::json_number("-7"), Some(Number::Int(-7)));
    assert_eq!(entryconf::json::json_number("18446744073709551615"), Some(Number::UInt(18446744073709551615)));
    assert_eq!(entryconf::json::json_number("01"), None);
    assert_eq!(entryconf::json::json_number("1e999"), None);
    assert_eq!(entryconf::json::json_number("1e300"), Some(Number::Float(format!("1{}", "0".repeat(300)))));
    assert_eq!(entryconf::json::json_number("1.5e-7"), Some(Number::Float("0.00000015".to_string())));
}

#[test]
fn set_and_remove_touch_only_their_target() {
    let root = obj(vec![("a", obj(vec![("x", num(1)), ("y", num(2))])), ("b", Json::Array(vec![num(1), num(2), num(3)]))]);
    let r = entryconf::pointer::set(root, "/a/x", s("new")).unwrap();
    assert_eq!(
        r,
        obj(vec![("a", obj(vec![("x", s("new")), ("y", num(2))])), ("b", Json::Array(vec![num(1), num(2), num(3)]))])
    );
    let r = remove(r, "/b/1").unwrap();
    // The earlier element stays; the later one shifts down.
    assert_eq!(r, obj(vec![("a", obj(vec![("x", s("new")), ("y", num(2))])), ("b", Json::Array(vec![num(1), num(3)]))]));
    let r = remove(r, "/a/x").unwrap();
    assert_eq!(r, obj(vec![("a", obj(vec![("y", num(2))])), ("b", Json::Array(vec![num(1), num(3)]))]));
    let r = entryconf::pointer::set(r, "/c/d", Json::Null).unwrap();
    assert_eq!(
        r,
        obj(vec![
            ("a", obj(vec![("y", num(2))])),
            ("b", Json::Array(vec![num(1), num(3)])),
            ("c", obj(vec![("d", Json::Null)]))
        ])
    );
}

#[test]
fn removing_a_new_member_restores_the_tree() {
    let root = || obj(vec![("a", obj(vec![("x", num(1))])), ("b", num(2))]);
    let grown = entryconf::pointer::set(root(), "/a/y", s("new")).unwrap();
    assert_ne!(grown, root());
    assert_eq!(remove(grown, "/a/y").unwrap(), root());
}

#[test]
fn parsing_escaped_tokens_gives_them_back() {
    let tokens = vec!["a/b".to_string(), "~x~1".to_string(), "".to_string(), "plain".to_string()];
    let text: String = tokens.iter().map(|t| format!("/{}", entryconf::pointer::escape_token(t))).collect();
    assert_eq!(text, "/a~1b/~0x~01//plain");
    assert_eq!(parse(&text).unwrap(), tokens);
}

#[test]
fn formatted_text_ends_in_one_newline() {
    let v = obj(vec![("a", Json::Array(vec![num(1), s("x\r\ny")])), ("b", obj(vec![]))]);
    let text = entryconf::jsonfmt::format(&v);
    assert!(text.ends_with("}\n"));
    assert!(!text.ends_with("\n\n"));
    assert!(!text.contains('\r'));
    assert!(!text.starts_with('\u{feff}'));
}

#[test]
fn affected_pointers_are_sorted_and_empty_only_for_the_same_value() {
    let before = obj(vec![("a", Json::Array(vec![num(1), num(2)])), ("b", num(1)), ("z", num(1))]);
    let after = obj(vec![("a", Json::Array(vec![num(1), num(3)])), ("b", num(2)), ("y", num(2))]);
    let r = affected_pointers(&before, &after);
    assert_eq!(r, vec!["/a/1".to_string(), "/b".to_string(), "/y".to_string(), "/z".to_string()]);
    let same = obj(vec![("a", Json::Array(vec![Json::Number(Number::Float("1".to_string())), num(2)])), ("b", num(1)), ("z", num(1))]);
    assert!(affected_pointers(&before, &same).is_empty());
    assert!(!affected_pointers(&before, &obj(vec![])).is_empty());
    assert_eq!(affected_pointers(&after, &before), r);
    let deep = obj(vec![("a", obj(vec![("b", obj(vec![("c", num(1))]))]))]);
    let changed = obj(vec![("a", obj(vec![("b", num(1))]))]);
    assert_eq!(affected_pointers(&deep, &changed), vec!["/a/b".to_string()]);
}

#[test]
fn a_whole_reference_to_text_that_is_no_number_stays_a_string() {
    let mut v = vars(&[("W", "x"), ("D", "1."), ("H", "0x10")]);
    assert_eq!(interpolate_string("$W", &mut v).unwrap(), s("x"));
    assert_eq!(interpolate_string("$D", &mut v).unwrap(), s("1."));
    assert_eq!(interpolate_string("$H", &mut v).unwrap(), s("0x10"));
}
