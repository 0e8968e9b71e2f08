use entryconf::json::{Json, Number};
use entryconf::parse::yaml_tree::{parse_yaml, NODE_BUDGET};

/// Under the counting rule each layer costs nine slots plus nine copies of
/// the layer below, so five layers fit inside the budget and six do not.
fn layered_bomb(layers: usize) -> String {
    let mut text = String::from("layer0: &layer0 seed\n");
    for n in 1..=layers {
        let refs = (0..9).map(|_| format!("*layer{}", n - 1)).collect::<Vec<_>>().join(", ");
        text.push_str(&format!("layer{n}: &layer{n} [{refs}]\n"));
    }
    text
}

fn member<'a>(j: &'a Json, key: &str) -> &'a Json {
    match j {
        Json::Object(es) => &es.iter().find(|(k, _)| k == key).expect("member present").1,
        other => panic!("expected a mapping, got {other:?}"),
    }
}

fn item(j: &Json, i: usize) -> &Json {
    match j {
        Json::Array(xs) => &xs[i],
        other => panic!("expected a sequence, got {other:?}"),
    }
}

fn num(i: i64) -> Json {
    Json::Number(Number::Int(i))
}

fn s(t: &str) -> Json {
    Json::Str(t.to_string())
}

#[test]
fn an_alias_bomb_is_rejected_rather_than_expanded() {
    let err = parse_yaml(&layered_bomb(9)).expect_err("48M nodes is over budget");
    assert!(err.contains(&NODE_BUDGET.to_string()), "the message should name the budget: {err}");
}

#[test]
fn an_alias_bomb_is_rejected_quickly() {
    let start = std::time::Instant::now();
    assert!(parse_yaml(&layered_bomb(9)).is_err());
    assert!(
        start.elapsed() < std::time::Duration::from_secs(1),
        "took {:?}; the budget is not being charged before expansion",
        start.elapsed()
    );
}

#[test]
fn heavy_but_legal_aliasing_still_loads() {
    let tree = parse_yaml(&layered_bomb(5)).expect("141,163 nodes is inside the budget");
    let Json::Object(map) = &tree else {
        panic!("expected a mapping, got {tree:?}");
    };
    assert_eq!(map.len(), 6, "one key per layer, plus layer0");
    let mut j = member(&tree, "layer5");
    for _ in 0..5 {
        j = item(j, 0);
    }
    assert_eq!(*j, s("seed"));
}

#[test]
fn the_counting_rule_charges_a_slot_plus_the_value() {
    let doc = |copies: usize| {
        let row = vec!["x"; 1000].join(", ");
        let refs = vec!["*row"; copies].join(", ");
        format!("row: &row [{row}]\nbomb: [{refs}]\n")
    };

    let tree = parse_yaml(&doc(498)).expect("998,500 nodes is inside the budget");
    assert_eq!(*item(item(member(&tree, "bomb"), 497), 999), s("x"));

    let err = parse_yaml(&doc(499)).expect_err("1,000,501 nodes is over budget");
    assert!(err.contains(&NODE_BUDGET.to_string()), "the message should name the budget: {err}");
}

#[test]
fn empty_collections_and_keys_are_free() {
    let tree = parse_yaml("a: {}\nb: []\n").expect("valid");
    assert_eq!(*member(&tree, "a"), Json::Object(Vec::new()));
    assert_eq!(*member(&tree, "b"), Json::Array(Vec::new()));
}

#[test]
fn ordinary_documents_are_unaffected() {
    let tree = parse_yaml("a: &x [1, 2]\nb: *x\n").expect("tiny document");
    assert_eq!(member(&tree, "a"), member(&tree, "b"));
    assert_eq!(*item(member(&tree, "b"), 1), num(2));
}

#[test]
fn leading_zero_integers_are_decimal() {
    let tree = parse_yaml("d: 010\no: 0o10\nh: 0x10\nq: \"010\"\nneg: -010\n").expect("valid");
    assert_eq!(*member(&tree, "d"), num(10));
    assert_eq!(*member(&tree, "o"), num(8));
    assert_eq!(*member(&tree, "h"), num(16));
    assert_eq!(*member(&tree, "q"), s("010"));
    assert_eq!(*member(&tree, "neg"), num(-10));
}

#[test]
fn signed_hex_and_octal_are_strings() {
    let tree = parse_yaml("h: -0x10\no: +0o10\n").expect("valid");
    assert_eq!(*member(&tree, "h"), s("-0x10"));
    assert_eq!(*member(&tree, "o"), s("+0o10"));
}

#[test]
fn core_schema_scalars_resolve() {
    let tree = parse_yaml("n: ~\nt: true\nf: False\nx: 1.50\ne: \"\"\nw: null\ny: 1e2\n").expect("valid");
    assert_eq!(*member(&tree, "n"), Json::Null);
    assert_eq!(*member(&tree, "w"), Json::Null);
    assert_eq!(*member(&tree, "t"), Json::Bool(true));
    assert_eq!(*member(&tree, "f"), Json::Bool(false));
    assert_eq!(*member(&tree, "x"), Json::Number(Number::Float("1.5".to_string())));
    assert_eq!(*member(&tree, "e"), s(""));
    assert_eq!(*member(&tree, "y"), Json::Number(Number::Float("100".to_string())));
}

#[test]
fn an_exact_budget_is_accepted_and_one_more_is_not() {
    // 1 + 2 * n slots for a single sequence of n scalars under one key.
    let doc = |n: usize| format!("k: [{}]\n", vec!["1"; n].join(", "));
    assert!(parse_yaml(&doc(499_999)).is_ok());
    assert!(parse_yaml(&doc(500_000)).is_err());
}

#[test]
fn malformed_yaml_is_an_error() {
    assert!(parse_yaml("a: [1, 2\n").is_err());
    assert!(parse_yaml("a: *missing\n").is_err());
}
