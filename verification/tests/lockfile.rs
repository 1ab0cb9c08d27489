use npmpink::lockfile::LockfileContent;
use npmpink::package::Package;

fn pkg(name: &str, dir: &str, sid: &str) -> Package {
    Package::new(name.to_string(), dir.to_string(), sid.to_string())
}

#[test]
fn test_lockfile_content() {
    let mut l = LockfileContent::new();
    l.version = "1.0.0".into();
}

#[test]
fn test_lockfile_default_version() {
    let l = LockfileContent::new();
    assert_eq!(l.version, "0.0.1".to_string());
    assert!(l.packages_iter().is_empty());
}

#[test]
fn test_lockfile_serialize_exact() {
    let mut l = LockfileContent::new();
    l.add_package("a".into(), pkg("a", "/s/a", "1"));
    let expected = "{\n  \"version\": \"0.0.1\",\n  \"packages\": {\n    \"a\": {\n      \"name\": \"a\",\n      \"dir\": \"/s/a\",\n      \"source_id\": \"1\"\n    }\n  }\n}";
    assert_eq!(l.to_json_string(), expected.to_string());
}

#[test]
fn test_lockfile_serialize_empty_exact() {
    let l = LockfileContent::new();
    let expected = "{\n  \"version\": \"0.0.1\",\n  \"packages\": {}\n}";
    assert_eq!(l.to_json_string(), expected.to_string());
}

#[test]
fn test_lockfile_escapes_round_trip() {
    let mut l = LockfileContent::new();
    l.add_package(
        "we\"ird\\name\n".into(),
        pkg("we\"ird\\name\n", "/a\tb\r\u{8}\u{c}\u{1}/x", "s\u{1f}"),
    );
    let text = l.to_json_string();
    let back = LockfileContent::load_or_default(Some(text.clone()));
    assert_eq!(back.to_json_string(), text);
    assert_eq!(back, l);
}

#[test]
fn test_serialize_load_round_trip() {
    let mut l = LockfileContent::new();
    l.add_package("b".into(), pkg("b", "/s/b", "1"));
    l.add_package("a".into(), pkg("a", "/s/a", "2"));
    l.add_package("c".into(), pkg("c", "/s/c", "1"));
    let text = l.to_json_string();
    let reloaded = LockfileContent::load_or_default(Some(text.clone()));
    assert_eq!(reloaded.to_json_string(), text);
    assert_eq!(reloaded, l);
}

#[test]
fn test_add_twice_leaves_one_entry() {
    let mut l = LockfileContent::new();
    l.add_package("x".into(), pkg("x", "/s/x", "1"));
    l.add_package("x".into(), pkg("x", "/other/x", "1"));
    let ps = l.packages_iter();
    assert_eq!(ps.len(), 1);
    assert_eq!(ps[0].dir, "/other/x".to_string());
}

#[test]
fn test_remove_absent_is_noop() {
    let mut l = LockfileContent::new();
    l.add_package("x".into(), pkg("x", "/s/x", "1"));
    let before = l.to_json_string();
    l.remove_package("not-there".into());
    assert_eq!(l.to_json_string(), before);
}

#[test]
fn test_remove_package_removes() {
    let mut l = LockfileContent::new();
    l.add_package("x".into(), pkg("x", "/s/x", "1"));
    l.add_package("y".into(), pkg("y", "/s/y", "1"));
    l.remove_package("x".into());
    let ps = l.packages_iter();
    assert_eq!(ps.len(), 1);
    assert_eq!(ps[0].name, "y".to_string());
}

#[test]
fn test_packages_iter_sorted_by_name() {
    let mut l = LockfileContent::new();
    l.add_package("zeta".into(), pkg("zeta", "/s/z", "1"));
    l.add_package("alpha".into(), pkg("alpha", "/s/a", "1"));
    l.add_package("mid".into(), pkg("mid", "/s/m", "1"));
    let names: Vec<String> = l.packages_iter().into_iter().map(|p| p.name).collect();
    assert_eq!(names, vec!["alpha".to_string(), "mid".to_string(), "zeta".to_string()]);
}

#[test]
fn test_corrupt_lockfile_recovery() {
    let l = LockfileContent::load_or_default(Some("{ not valid json !".to_string()));
    assert_eq!(l.version, "0.0.1".to_string());
    assert!(l.packages_iter().is_empty());
}

#[test]
fn test_load_or_default_missing_file() {
    let l = LockfileContent::load_or_default(None);
    assert_eq!(l.version, "0.0.1".to_string());
    assert!(l.packages_iter().is_empty());
}

#[test]
fn test_init_from_lockfile_string_error() {
    assert!(LockfileContent::init_from_lockfile_string("[]".to_string()).is_err());
}

#[test]
fn test_is_empty() {
    assert!(LockfileContent::is_empty());
}

#[test]
fn test_parse_compact_text() {
    // A compact, valid, well-shaped JSON lockfile is accepted.
    let l = LockfileContent::init_from_lockfile_string(
        "{\"version\":\"0.0.1\",\"packages\":{}}".to_string(),
    )
    .unwrap();
    assert_eq!(l.version, "0.0.1".to_string());
    assert!(l.packages_iter().is_empty());
}

#[test]
fn test_parse_reordered_members() {
    // Members and record fields may come in any order; map entries may
    // come unsorted.
    let text = "{ \"packages\": { \"b\": {\"dir\": \"/s/b\", \"source_id\": \"1\", \"name\": \"b\"},\n\
                \"a\": {\"name\": \"a\", \"dir\": \"/s/a\", \"source_id\": \"2\"} },\n\
                \"version\": \"0.0.1\" }";
    let l = LockfileContent::init_from_lockfile_string(text.to_string()).unwrap();
    let names: Vec<String> = l.packages_iter().into_iter().map(|p| p.name).collect();
    assert_eq!(names, vec!["a".to_string(), "b".to_string()]);
    let mut expected = LockfileContent::new();
    expected.add_package("a".into(), pkg("a", "/s/a", "2"));
    expected.add_package("b".into(), pkg("b", "/s/b", "1"));
    assert_eq!(l, expected);
}

#[test]
fn test_parse_duplicate_map_key_last_wins() {
    let text = "{\"version\":\"0.0.1\",\"packages\":{\
                \"x\":{\"name\":\"x\",\"dir\":\"/old\",\"source_id\":\"1\"},\
                \"x\":{\"name\":\"x\",\"dir\":\"/new\",\"source_id\":\"1\"}}}";
    let l = LockfileContent::init_from_lockfile_string(text.to_string()).unwrap();
    let ps = l.packages_iter();
    assert_eq!(ps.len(), 1);
    assert_eq!(ps[0].dir, "/new".to_string());
}

#[test]
fn test_parse_rejects_wrong_shape() {
    // Unknown keys, repeated members, a missing field, a key that is
    // not the record's name, and a wrong value type all read as corrupt.
    let bad = vec![
        "{\"version\":\"1\",\"packages\":{},\"extra\":\"x\"}".to_string(),
        "{\"version\":\"1\",\"version\":\"2\",\"packages\":{}}".to_string(),
        "{\"version\":\"1\"}".to_string(),
        "{\"packages\":{}}".to_string(),
        "{\"version\":\"1\",\"packages\":{\"a\":{\"name\":\"a\",\"dir\":\"/d\"}}}".to_string(),
        "{\"version\":\"1\",\"packages\":{\"k\":{\"name\":\"a\",\"dir\":\"/d\",\"source_id\":\"1\"}}}"
            .to_string(),
        "{\"version\":1,\"packages\":{}}".to_string(),
    ];
    for text in bad {
        assert!(LockfileContent::init_from_lockfile_string(text).is_err());
    }
}
