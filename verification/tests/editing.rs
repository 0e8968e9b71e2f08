use std::collections::BTreeMap;

use entryconf::json::{Json, Number};
use entryconf::{
    load_with_env, open_with_env, parse_edits, revision_of, Disk, Edit, ErrorCode, FileEntry, Format, Mode, Op, Plan, Receipt, Reread,
    Snapshot, Step, VariableOrigin,
};

const DIR: &str = "/cfg";

/// An in-memory filesystem: path to bytes.
struct Fs {
    files: BTreeMap<String, Vec<u8>>,
}

impl Fs {
    fn with(files: &[(&str, &str)]) -> Fs {
        Fs { files: files.iter().map(|(p, t)| (format!("{DIR}/{p}"), t.as_bytes().to_vec())).collect() }
    }

    fn env_names(&self) -> Vec<String> {
        self.files
            .keys()
            .filter_map(|p| p.strip_prefix(&format!("{DIR}/")))
            .filter(|n| !n.contains('/') && n.ends_with(".env"))
            .map(|n| n.to_string())
            .collect()
    }

    fn read(&self, path: &str) -> String {
        String::from_utf8(self.files[path].clone()).unwrap()
    }
}

fn to_json(v: &serde_json::Value) -> Json {
    match v {
        serde_json::Value::Null => Json::Null,
        serde_json::Value::Bool(b) => Json::Bool(*b),
        serde_json::Value::Number(n) => Json::Number(match (n.as_i64(), n.as_u64()) {
            (Some(i), _) => Number::Int(i),
            (None, Some(u)) => Number::UInt(u),
            _ => Number::Float(n.as_f64().unwrap().to_string()),
        }),
        serde_json::Value::String(s) => Json::Str(s.clone()),
        serde_json::Value::Array(xs) => Json::Array(xs.iter().map(to_json).collect()),
        serde_json::Value::Object(m) => {
            let mut es: Vec<(String, Json)> = m.iter().map(|(k, x)| (k.clone(), to_json(x))).collect();
            es.sort_by(|a, b| a.0.cmp(&b.0));
            Json::Object(es)
        }
    }
}

fn parse_json(text: &str) -> Json {
    to_json(&serde_json::from_str::<serde_json::Value>(text).unwrap())
}

/// What the filesystem (or an overlay) says about `path`.
fn entry(path: &str, data: Option<Vec<u8>>) -> FileEntry {
    match data {
        None => FileEntry {
            path: path.to_string(),
            is_file: false,
            canonical: Err("not found".to_string()),
            data: Err("not found".to_string()),
            text: None,
            parsed: None,
        },
        Some(d) => {
            let text = String::from_utf8(d.clone()).ok();
            let parsed = if path.ends_with(".json") {
                text.as_ref().map(|t| {
                    serde_json::from_str::<serde_json::Value>(t).map(|v| to_json(&v)).map_err(|e| e.to_string())
                })
            } else {
                None
            };
            FileEntry { path: path.to_string(), is_file: true, canonical: Ok(path.to_string()), data: Ok(d), text, parsed }
        }
    }
}

/// Runs a step of the loader until it stops asking for paths.
fn drive<T>(env_names: Vec<String>, mut data: impl FnMut(&str) -> Option<Vec<u8>>, mut f: impl FnMut(&Disk) -> Step<T>) -> T {
    let mut disk = Disk { files: Vec::new(), env_names };
    loop {
        match f(&disk) {
            Step::Done(t) => return t,
            Step::Need(p) => {
                let d = data(&p);
                disk.files.push(entry(&p, d));
            }
        }
    }
}

fn open(fs: &Fs, captured: &[(&str, &str)]) -> Result<Snapshot, entryconf::Error> {
    let captured: Vec<(String, String)> = captured.iter().map(|(k, v)| (k.to_string(), v.to_string())).collect();
    drive(fs.env_names(), |p| fs.files.get(p).cloned(), |d| open_with_env(DIR, "/", d, &captured))
}

fn load(fs: &Fs, env: &[(&str, &str)]) -> Result<Json, entryconf::Error> {
    let env: Vec<(String, String)> = env.iter().map(|(k, v)| (k.to_string(), v.to_string())).collect();
    drive(fs.env_names(), |p| fs.files.get(p).cloned(), |d| load_with_env(DIR, d, &env))
}

fn plan(fs: &Fs, snap: &Snapshot, edits: Vec<Edit>) -> Result<Plan, entryconf::Error> {
    let prepared = snap.prepare(&edits)?;
    drive(
        snap.env_file_names(),
        |p| snap.overlay_data(&prepared, p).or_else(|| fs.files.get(p).cloned()),
        |d| snap.plan(&edits, d),
    )
}

/// Re-reads the plan's documents, decides, and writes on success.
fn commit(fs: &mut Fs, plan: &Plan, live: &[(&str, &str)]) -> Result<Receipt, entryconf::Error> {
    let reads: Vec<Reread> = plan
        .revisions
        .iter()
        .map(|(k, _)| {
            let path = if *k == plan.document {
                plan.path.clone()
            } else {
                plan.paths.iter().find(|(pk, _)| pk == k).map(|(_, p)| p.clone()).unwrap_or_default()
            };
            match fs.files.get(&path) {
                Some(d) => Reread { data: Ok(d.clone()), text: String::from_utf8_lossy(d).into_owned() },
                None => Reread { data: Err("not found".to_string()), text: String::new() },
            }
        })
        .collect();
    let live: Vec<(String, String)> = live.iter().map(|(k, v)| (k.to_string(), v.to_string())).collect();
    let receipt = plan.commit(&reads, &live)?;
    fs.files.insert(plan.path.clone(), plan.after.as_bytes().to_vec());
    Ok(receipt)
}

fn num(i: i64) -> Json {
    Json::Number(Number::Int(i))
}

fn s(t: &str) -> Json {
    Json::Str(t.to_string())
}

fn member<'a>(j: &'a Json, key: &str) -> Option<&'a Json> {
    match j {
        Json::Object(es) => es.iter().find(|(k, _)| k == key).map(|(_, v)| v),
        _ => None,
    }
}

#[test]
fn two_cooperating_writers_the_second_is_stale() {
    let mut fs = Fs::with(&[("entrypoint.json", r#"{"a": 1, "b": 2}"#)]);
    let snap = open(&fs, &[]).unwrap();
    let p1 = plan(&fs, &snap, vec![Edit::set("entrypoint.json", "/a", num(10))]).unwrap();
    let p2 = plan(&fs, &snap, vec![Edit::set("entrypoint.json", "/b", num(20))]).unwrap();
    commit(&mut fs, &p1, &[]).unwrap();
    assert_eq!(commit(&mut fs, &p2, &[]).unwrap_err().kind(), ErrorCode::StalePlan);
    // The same plan twice is stale too: its own write moved the revision.
    assert_eq!(commit(&mut fs, &p1, &[]).unwrap_err().kind(), ErrorCode::StalePlan);
    let tree = load(&fs, &[]).unwrap();
    assert_eq!(tree, parse_json(r#"{"a": 10, "b": 2}"#));
}

#[test]
fn a_live_environment_change_makes_a_plan_stale() {
    let mut fs = Fs::with(&[("entrypoint.json", r#"{"host": "${EC_EDIT_HOST}"}"#)]);
    let snap = open(&fs, &[("EC_EDIT_HOST", "prod")]).unwrap();
    assert_eq!(member(&snap.tree, "host"), Some(&s("prod")));
    let origin = snap.inspect("/host").unwrap();
    assert_eq!(origin.variables.len(), 1);
    assert_eq!(origin.variables[0].origin, VariableOrigin::Process);

    let plan = plan(&fs, &snap, vec![Edit::set("entrypoint.json", "/x", num(1))]).unwrap();
    assert_eq!(commit(&mut fs, &plan, &[("EC_EDIT_HOST", "other")]).unwrap_err().kind(), ErrorCode::StalePlan);
}

#[test]
fn edits_deserialize_from_the_request_shape() {
    let request = parse_json(
        r#"[
        {"document": "a.json", "op": "set", "pointer": "/k", "value": "$X"},
        {"document": "a.json", "op": "set", "pointer": "/e", "value": "$X", "mode": "expression"},
        {"document": "a.json", "op": "remove", "pointer": "/r"}
    ]"#,
    );
    let edits = parse_edits(&request).unwrap();
    assert_eq!(edits[0], Edit::set("a.json", "/k", s("$X")));
    assert_eq!(edits[1], Edit::set_expression("a.json", "/e", "$X"));
    assert_eq!(edits[2], Edit::remove("a.json", "/r"));
}

#[test]
fn a_request_with_an_unknown_op_or_missing_document_is_refused() {
    let bad_op = parse_json(r#"[{"document": "a.json", "op": "move", "pointer": "/k"}]"#);
    assert_eq!(parse_edits(&bad_op).unwrap_err().kind(), ErrorCode::Edit);
    let no_doc = parse_json(r#"[{"op": "remove", "pointer": "/k"}]"#);
    assert_eq!(parse_edits(&no_doc).unwrap_err().kind(), ErrorCode::Edit);
    let e = parse_edits(&parse_json(r#"[{"document": "a.json", "op": "set", "pointer": "/k", "value": null}]"#)).unwrap();
    assert_eq!(e[0].op, Op::Put);
    assert_eq!(e[0].value, Some(Json::Null));
    assert_eq!(e[0].mode, Mode::Literal);
}

#[test]
fn a_commit_writes_the_normalized_text_and_returns_the_new_revision() {
    let mut fs = Fs::with(&[("entrypoint.json", r#"{"b": 1, "a": "x"}"#)]);
    let snap = open(&fs, &[]).unwrap();
    let p = plan(&fs, &snap, vec![Edit::set("entrypoint.json", "/c", s("$HOME"))]).unwrap();
    assert_eq!(p.after, "{\n  \"a\": \"x\",\n  \"b\": 1,\n  \"c\": \"$$HOME\"\n}\n");
    assert_eq!(p.affected, vec!["/c".to_string()]);
    let r = commit(&mut fs, &p, &[]).unwrap();
    assert_eq!(r.document, "entrypoint.json");
    assert_eq!(r.revision, revision_of(p.after.as_bytes()));
    assert_eq!(fs.read("/cfg/entrypoint.json"), p.after);
    // The literal loads back as itself.
    let tree = load(&fs, &[("HOME", "/root")]).unwrap();
    assert_eq!(member(&tree, "c"), Some(&s("$HOME")));
}

#[test]
fn included_documents_are_documents_of_the_snapshot() {
    let fs = Fs::with(&[
        ("entrypoint.json", r#"{"db": "@file:db.json", "name": "app"}"#),
        ("db.json", r#"{"port": 5432}"#),
    ]);
    let snap = open(&fs, &[]).unwrap();
    let keys: Vec<&str> = snap.documents.iter().map(|d| d.key.as_str()).collect();
    assert_eq!(keys, vec!["db.json", "entrypoint.json"]);
    let db = &snap.documents[0];
    assert_eq!(db.grafts.len(), 1);
    assert_eq!(db.grafts[0].effective, "/db");
    assert_eq!(db.grafts[0].chain[0].document, "entrypoint.json");
    assert_eq!(db.grafts[0].chain[0].pointer, "/db");
    assert_eq!(db.revision, revision_of(br#"{"port": 5432}"#));
    let origin = snap.inspect("/db/port").unwrap();
    assert_eq!(origin.document, "db.json");
    assert_eq!(origin.pointer, "/port");
    assert_eq!(origin.authored, num(5432));
    assert!(origin.writable);
}

#[test]
fn an_edit_through_an_include_changes_the_grafted_value() {
    let mut fs = Fs::with(&[
        ("entrypoint.json", r#"{"db": "@file:db.json"}"#),
        ("db.json", r#"{"port": 5432}"#),
    ]);
    let snap = open(&fs, &[]).unwrap();
    let p = plan(&fs, &snap, vec![Edit::set("db.json", "/port", num(6543))]).unwrap();
    assert_eq!(p.affected, vec!["/db/port".to_string()]);
    assert_eq!(p.revisions.len(), 2);
    commit(&mut fs, &p, &[]).unwrap();
    let tree = load(&fs, &[]).unwrap();
    assert_eq!(member(member(&tree, "db").unwrap(), "port"), Some(&num(6543)));
}

#[test]
fn env_files_supply_variables_and_are_dependencies() {
    let mut fs = Fs::with(&[("entrypoint.json", r#"{"host": "${HOST}"}"#), ("a.env", "HOST=from-file\n")]);
    let snap = open(&fs, &[]).unwrap();
    assert_eq!(member(&snap.tree, "host"), Some(&s("from-file")));
    let origin = snap.inspect("/host").unwrap();
    assert_eq!(origin.variables[0].origin, VariableOrigin::File);
    assert_eq!(origin.variables[0].file.as_deref(), Some("a.env"));
    let p = plan(&fs, &snap, vec![Edit::set("entrypoint.json", "/x", num(1))]).unwrap();
    fs.files.insert("/cfg/a.env".to_string(), b"HOST=changed\n".to_vec());
    assert_eq!(commit(&mut fs, &p, &[]).unwrap_err().kind(), ErrorCode::StalePlan);
}

#[test]
fn a_missing_or_ambiguous_entrypoint_is_an_error() {
    let fs = Fs::with(&[("other.json", "{}")]);
    assert_eq!(open(&fs, &[]).unwrap_err().kind(), ErrorCode::NoEntrypoint);
    let fs = Fs::with(&[("entrypoint.json", "{}"), ("entrypoint.yaml", "{}\n")]);
    assert_eq!(open(&fs, &[]).unwrap_err().kind(), ErrorCode::MultipleEntrypoints);
}

#[test]
fn an_unset_variable_without_default_fails_the_load() {
    let fs = Fs::with(&[("entrypoint.json", r#"{"v": "$NOPE"}"#)]);
    assert_eq!(load(&fs, &[]).unwrap_err().kind(), ErrorCode::MissingVar);
    let fs = Fs::with(&[("entrypoint.json", r#"{"v": "${NOPE:-fallback}"}"#)]);
    assert_eq!(member(&load(&fs, &[]).unwrap(), "v"), Some(&s("fallback")));
}

#[test]
fn an_include_cycle_is_an_error() {
    let fs = Fs::with(&[("entrypoint.json", r#"{"a": "@file:a.json"}"#), ("a.json", r#"{"b": "@file:a.json"}"#)]);
    assert_eq!(load(&fs, &[]).unwrap_err().kind(), ErrorCode::IncludeCycle);
}

#[test]
fn editing_a_yaml_document_is_refused() {
    let fs = Fs::with(&[("entrypoint.yaml", "a: 1\n")]);
    let snap = open(&fs, &[]).unwrap();
    let e = plan(&fs, &snap, vec![Edit::set("entrypoint.yaml", "/a", num(2))]).unwrap_err();
    assert_eq!(e.kind(), ErrorCode::UnsupportedEdit);
}

#[test]
fn revision_of_is_the_sha256_of_the_bytes() {
    assert_eq!(revision_of(b""), "sha256:e3b0c44298fc1c149afbf4c8996fb92427ae41e4649b934ca495991b7852b855");
    assert_eq!(revision_of(b"abc"), "sha256:ba7816bf8f01cfea414140de5dae2223b00361a396177a9cb410ff61f20015ad");
}

#[test]
fn a_deep_include_chain_loads() {
    let fs = Fs::with(&[
        ("entrypoint.json", r#"{"a": "@file:a.json"}"#),
        ("a.json", r#"{"b": "@file:b.json"}"#),
        ("b.json", r#"{"c": "@file:c.json"}"#),
        ("c.json", r#"{"d": "@file:d.json"}"#),
        ("d.json", r#"{"e": "@file:e.json"}"#),
        ("e.json", r#"{"leaf": true}"#),
    ]);
    let tree = load(&fs, &[]).unwrap();
    assert_eq!(
        tree,
        parse_json(r#"{"a": {"b": {"c": {"d": {"e": {"leaf": true}}}}}}"#)
    );
}

#[test]
fn a_snapshot_tree_is_what_a_load_returns() {
    let fs = Fs::with(&[
        ("entrypoint.yaml", "x: \"@file:x.json\"\nv: ${V:-dflt}\n"),
        ("x.json", r#"{"n": [1, 2.5, "s"]}"#),
        ("v.env", "V=from-env-file\n"),
    ]);
    let snap = open(&fs, &[]).unwrap();
    assert_eq!(snap.tree, load(&fs, &[]).unwrap());
    assert_eq!(member(&snap.tree, "v"), Some(&s("from-env-file")));
    let keys: Vec<&str> = snap.documents.iter().map(|d| d.key.as_str()).collect();
    assert_eq!(keys, vec!["entrypoint.yaml", "v.env", "x.json"]);
}

#[test]
fn toml_documents_load_with_datetimes_as_text() {
    let fs = Fs::with(&[(
        "entrypoint.toml",
        "name = \"demo\"\nwhen = 1979-05-27T07:32:00+00:00\nratio = 0.5\n[db]\nport = 5432\nhosts = [\"a\", \"b\"]\n",
    )]);
    let tree = load(&fs, &[]).unwrap();
    assert_eq!(
        tree,
        parse_json(
            r#"{"name": "demo", "when": "1979-05-27T07:32:00Z", "ratio": 0.5, "db": {"port": 5432, "hosts": ["a", "b"]}}"#
        )
    );
}

#[test]
fn a_toml_float_that_is_not_finite_is_a_parse_error() {
    let fs = Fs::with(&[("entrypoint.toml", "x = inf\n")]);
    assert_eq!(load(&fs, &[]).unwrap_err().kind(), ErrorCode::Parse);
    let fs = Fs::with(&[("entrypoint.toml", "x = [1, nan]\n")]);
    assert_eq!(load(&fs, &[]).unwrap_err().kind(), ErrorCode::Parse);
    let fs = Fs::with(&[("entrypoint.toml", "x = \n")]);
    assert_eq!(load(&fs, &[]).unwrap_err().kind(), ErrorCode::Parse);
}

#[test]
fn a_plan_refuses_a_disk_without_the_edited_text() {
    let fs = Fs::with(&[("entrypoint.json", r#"{"a": 1}"#)]);
    let snap = open(&fs, &[]).unwrap();
    let edits = vec![Edit::set("entrypoint.json", "/a", num(2))];
    let r = drive(snap.env_file_names(), |p| fs.files.get(p).cloned(), |d| snap.plan(&edits, d));
    assert_eq!(r.unwrap_err().kind(), ErrorCode::Edit);
}

#[test]
fn a_plain_integer_variable_becomes_that_number() {
    let fs = Fs::with(&[("entrypoint.json", r#"{"port": "${PORT}", "big": "${BIG}"}"#)]);
    let tree = load(&fs, &[("PORT", "8080"), ("BIG", "18446744073709551615")]).unwrap();
    assert_eq!(member(&tree, "port"), Some(&num(8080)));
    assert_eq!(member(&tree, "big"), Some(&Json::Number(Number::UInt(18446744073709551615))));
}

#[test]
fn env_documents_have_no_grafts_and_the_entrypoint_sits_at_the_root() {
    let fs = Fs::with(&[
        ("entrypoint.json", r#"{"db": "@file:db.json", "host": "${HOST}"}"#),
        ("db.json", r#"{"port": 5432}"#),
        ("a.env", "HOST=h\n"),
    ]);
    let snap = open(&fs, &[]).unwrap();
    let keys: Vec<&str> = snap.documents.iter().map(|d| d.key.as_str()).collect();
    assert_eq!(keys, vec!["a.env", "db.json", "entrypoint.json"]);
    assert_eq!(snap.documents[0].format, Format::Env);
    assert!(snap.documents[0].grafts.is_empty());
    let ep = &snap.documents[2];
    assert_eq!(ep.grafts.len(), 1);
    assert_eq!(ep.grafts[0].effective, "");
    assert!(ep.grafts[0].chain.is_empty());
}
