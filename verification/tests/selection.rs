use npmpink::lockfile::LockfileContent;
use npmpink::package::Package;
use npmpink::selection::{add_picked_packages, remove_picked_packages};

#[test]
fn test_add_picked_packages() {
    let mut l = LockfileContent::new();
    let picked = vec![
        Package::new("b".into(), "/s/b".into(), "1".into()),
        Package::new("a".into(), "/s/a".into(), "1".into()),
    ];
    add_picked_packages(&mut l, &picked);
    let names: Vec<String> = l.packages_iter().into_iter().map(|p| p.name).collect();
    assert_eq!(names, vec!["a".to_string(), "b".to_string()]);
}

#[test]
fn test_remove_picked_packages() {
    let mut l = LockfileContent::new();
    l.add_package("a".into(), Package::new("a".into(), "/s/a".into(), "1".into()));
    l.add_package("b".into(), Package::new("b".into(), "/s/b".into(), "1".into()));
    let picked = vec![Package::new("a".into(), "/s/a".into(), "1".into())];
    remove_picked_packages(&mut l, &picked);
    let names: Vec<String> = l.packages_iter().into_iter().map(|p| p.name).collect();
    assert_eq!(names, vec!["b".to_string()]);
}

#[test]
fn test_strutil_exact_values() {
    assert_eq!(npmpink::strutil::u64_to_dec_string(0), "0".to_string());
    assert_eq!(npmpink::strutil::u64_to_dec_string(90210), "90210".to_string());
    assert!(npmpink::strutil::str_lex_lt("abc", "abd"));
    assert!(npmpink::strutil::str_lex_lt("ab", "abc"));
    assert!(!npmpink::strutil::str_lex_lt("abc", "abc"));
    assert!(npmpink::strutil::str_eq("same", "same"));
    assert!(!npmpink::strutil::str_eq("same", "Same"));
}

#[test]
fn test_workspace_paths() {
    assert_eq!(
        npmpink::workspace::lockfile_path_of("/proj"),
        "/proj/npmpink.lock".to_string()
    );
    assert_eq!(
        npmpink::workspace::manifest_path_of("/proj"),
        "/proj/package.json".to_string()
    );
}
