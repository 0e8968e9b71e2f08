use entryconf::json::{Json, Number};

use entryconf::pointer::escape_token;

/// An object built member by member through pointer `set`, so the library
/// decides where each key goes.
fn obj(members: Vec<(&str, Json)>) -> Json {
    let mut root = Json::Object(Vec::new());
    for (k, v) in members {
        let ptr = format!("/{}", escape_token(k));
        root = entryconf::pointer::set(root, &ptr, v).unwrap();
    }
    root
}

fn num(i: i64) -> Json {
    Json::Number(Number::Int(i))
}

fn float(t: &str) -> Json {
    Json::Number(Number::Float(t.to_string()))
}

fn s(t: &str) -> Json {
    Json::Str(t.to_string())
}

#[test]
fn normalized_form() {
    let v = obj(vec![
        ("b", Json::Array(vec![num(1), float(&2.0_f64.to_string()), float("1.5"), s("x")])),
        ("a", Json::Object(Vec::new())),
        ("c", Json::Array(Vec::new())),
        ("s", s("q\"\\\n\t\u{1}é")),
        ("big", float("9007199254740991.0")),
    ]);
    let want = "{\n  \"a\": {},\n  \"b\": [\n    1,\n    2,\n    1.5,\n    \"x\"\n  ],\n  \"big\": 9007199254740991,\n  \"c\": [],\n  \"s\": \"q\\\"\\\\\\n\\t\\u0001é\"\n}\n";
    assert_eq!(entryconf::jsonfmt::format(&v), want);
}

#[test]
fn keys_sort_by_code_point() {
    let v = obj(vec![("é", num(1)), ("z", num(2)), ("Z", num(3)), ("a", num(4))]);
    assert_eq!(entryconf::jsonfmt::format(&v), "{\n  \"Z\": 3,\n  \"a\": 4,\n  \"z\": 2,\n  \"é\": 1\n}\n");
}

#[test]
fn scalars_and_nesting() {
    assert_eq!(entryconf::jsonfmt::format(&Json::Null), "null\n");
    assert_eq!(entryconf::jsonfmt::format(&Json::Bool(true)), "true\n");
    assert_eq!(entryconf::jsonfmt::format(&Json::Number(Number::UInt(18446744073709551615))), "18446744073709551615\n");
    assert_eq!(entryconf::jsonfmt::format(&num(-7)), "-7\n");
    assert_eq!(entryconf::jsonfmt::format(&float("0.25")), "0.25\n");
    let v = obj(vec![("k", Json::Array(vec![Json::Array(vec![Json::Null])]))]);
    assert_eq!(entryconf::jsonfmt::format(&v), "{\n  \"k\": [\n    [\n      null\n    ]\n  ]\n}\n");
}

#[test]
fn control_characters_escape_as_lowercase_hex() {
    assert_eq!(entryconf::jsonfmt::format(&s("\u{1f}\u{7f}/")), "\"\\u001f\u{7f}/\"\n");
    assert_eq!(entryconf::jsonfmt::format(&s("\r\u{8}\u{c}")), "\"\\r\\b\\f\"\n");
}

#[test]
fn integral_floats_print_as_integers() {
    assert_eq!(entryconf::jsonfmt::format(&float("-3.0")), "-3\n");
    assert_eq!(entryconf::jsonfmt::format(&float("0.0")), "0\n");
}

#[test]
fn large_and_small_floats_are_written_in_full_decimal() {
    assert_eq!(entryconf::jsonfmt::format(&float(&1e300_f64.to_string())), format!("1{}\n", "0".repeat(300)));
    assert_eq!(entryconf::jsonfmt::format(&float(&9007199254740992.0_f64.to_string())), "9007199254740992\n");
    assert_eq!(entryconf::jsonfmt::format(&float(&1.5e-7_f64.to_string())), "0.00000015\n");
    assert_eq!(entryconf::jsonfmt::format(&float(&(-0.0_f64).to_string())), "0\n");
}
