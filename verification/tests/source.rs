use entryconf::source::{document_key, join_key_components, lexical_clean, join_path, parent, KeyComponent};

#[test]
fn windows_absolute_path_components_do_not_produce_double_slash() {
    let components = vec![
        KeyComponent::Prefix("C:".to_string()),
        KeyComponent::RootDir,
        KeyComponent::Normal("root".to_string()),
        KeyComponent::Normal("cfg.json".to_string()),
    ];
    let key = join_key_components(components, true);
    assert_eq!(key, "C:/root/cfg.json");
}

#[test]
fn windows_drive_root_components() {
    let components = vec![KeyComponent::Prefix("C:".to_string()), KeyComponent::RootDir];
    let key = join_key_components(components, true);
    assert_eq!(key, "C:/");
}

#[test]
fn embedded_cur_dir_components_are_dropped() {
    let components = vec![
        KeyComponent::RootDir,
        KeyComponent::Normal("sub".to_string()),
        KeyComponent::CurDir,
        KeyComponent::Normal("file.json".to_string()),
    ];
    let key = join_key_components(components, true);
    assert_eq!(key, "/sub/file.json");
}

#[test]
fn document_key_relative_and_absolute_unix() {
    let dir = "/app/config";
    assert_eq!(document_key(dir, "/app/config/entrypoint.json"), "entrypoint.json");
    assert_eq!(document_key(dir, "/app/config/sub/inc.json"), "sub/inc.json");
    assert_eq!(document_key(dir, "/app/config"), ".");
    assert_eq!(document_key(dir, "/app/other.json"), "../other.json");
    assert_eq!(document_key(dir, "/etc/passwd"), "../../etc/passwd");
    assert_eq!(document_key("app/config", "/etc/passwd"), "/etc/passwd");
}

#[test]
fn relative_components_join_without_a_leading_slash() {
    let components = vec![
        KeyComponent::Normal("..".to_string()),
        KeyComponent::Normal("x.json".to_string()),
    ];
    assert_eq!(join_key_components(components, false), "../x.json");
    assert_eq!(join_key_components(Vec::new(), false), ".");
}

#[test]
fn lexical_clean_folds_dots_and_separators() {
    assert_eq!(lexical_clean("/a/./b//c/../d"), "/a/b/d");
    assert_eq!(lexical_clean("a/../../b"), "../b");
    assert_eq!(lexical_clean("/.."), "/");
    assert_eq!(lexical_clean(""), ".");
}

#[test]
fn join_and_parent() {
    assert_eq!(join_path("/cfg", "sub/x.json"), "/cfg/sub/x.json");
    assert_eq!(join_path("/cfg", "/abs.json"), "/abs.json");
    assert_eq!(parent("/cfg/sub/x.json"), "/cfg/sub");
}
