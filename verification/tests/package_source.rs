use npmpink::ops::packages::difference_packages;
use npmpink::package::Package;
use npmpink::source::{hash_path_string, source_list_line, Source};

#[test]
fn test_package() {
    let _ = Package::default();
}

#[test]
fn test_source_new() {
    let s = Source::new("/home/user/sources".to_string());
    assert_eq!(s.id, hash_path_string("/home/user/sources".to_string()));
}

#[test]
fn test_hash_path_string_exact() {
    assert_eq!(hash_path_string("/a/b".to_string()), "3908606180096663756".to_string());
    assert_eq!(
        hash_path_string("/home/user/sources".to_string()),
        "464637700252793752".to_string()
    );
}

#[test]
fn test_source_ids_stable() {
    let a = Source::new("/same/path".to_string());
    let b = Source::new("/same/path".to_string());
    let c = Source::new("/other/path".to_string());
    assert_eq!(a.id, b.id);
    assert_ne!(a.id, c.id);
}

#[test]
fn test_source_list_line() {
    let s = Source::new("/home/user/sources".to_string());
    let line = source_list_line(&s);
    assert_eq!(line, format!("{}: {}", s.id, s.path));
}

#[test]
fn test_identity_difference() {
    let a = Package::new("x".into(), "/p/x".into(), "1".into());
    let a_other_dir = Package::new("x".into(), "other/path".into(), "1".into());
    let b = Package::new("y".into(), "/p/y".into(), "1".into());
    // A and A' share an identity although their directories differ.
    let d = difference_packages(&vec![a.clone()], &vec![a_other_dir.clone()]);
    assert!(d.is_empty());
    // difference([A, B], [A]) is exactly [B].
    let d2 = difference_packages(&vec![a.clone(), b.clone()], &vec![a.clone()]);
    assert_eq!(d2.len(), 1);
    assert_eq!(d2[0], b);
}

#[test]
fn test_difference_keeps_left_copies() {
    let left = Package::new("x".into(), "/left/dir".into(), "1".into());
    let right = Package::new("z".into(), "/other".into(), "9".into());
    let d = difference_packages(&vec![left.clone()], &vec![right]);
    assert_eq!(d, vec![left]);
}

#[test]
fn test_difference_same_name_other_source() {
    let a = Package::new("x".into(), "/p/x".into(), "1".into());
    let a2 = Package::new("x".into(), "/p/x".into(), "2".into());
    let d = difference_packages(&vec![a.clone()], &vec![a2]);
    assert_eq!(d, vec![a]);
}

#[test]
fn test_identity_compares_fields_separately() {
    // Adjacent field texts do not collide: {ab, c} and {a, bc} are
    // different identities although the joined texts agree.
    let left = Package::new("ab".into(), "/p".into(), "c".into());
    let right = Package::new("a".into(), "/p".into(), "bc".into());
    let d = difference_packages(&vec![left.clone()], &vec![right]);
    assert_eq!(d, vec![left]);
}
