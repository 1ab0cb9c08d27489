use npmpink::manifest::{
    eligible_package, is_npm_workspaces_project, package_private_is_not_falsy, parse_manifest,
    Private,
};
use npmpink::ops::packages::{packages_from_source, PackageCandidate};
use npmpink::source::Source;

#[test]
fn test_pacakge_private_falsy() {
    let package_is_private = Private::True;
    let package_private_is_bool = Private::Bool(true);
    assert!(!package_private_is_not_falsy(&package_is_private));
    assert!(!package_private_is_not_falsy(&package_private_is_bool));
}

#[test]
fn test_private_false_is_not_falsy() {
    assert!(package_private_is_not_falsy(&Private::False));
    assert!(package_private_is_not_falsy(&Private::Bool(false)));
}

#[test]
fn test_parse_manifest_fields() {
    let m = parse_manifest("{\"name\": \"pkg\", \"private\": false}").unwrap();
    assert_eq!(m.name, Some("pkg".to_string()));
    assert!(matches!(m.private, Some(Private::Bool(false))));
    assert!(m.workspaces.is_none());
}

#[test]
fn test_parse_manifest_invalid() {
    assert!(parse_manifest("{ nope").is_none());
    assert!(parse_manifest("{\"name\": \"a\", \"name\": \"b\"}").is_none());
}

#[test]
fn test_parse_manifest_workspaces() {
    let m = parse_manifest("{\"workspaces\": [\"packages/*\"]}").unwrap();
    assert!(is_npm_workspaces_project(&m));
    let m2 = parse_manifest("{\"workspaces\": []}").unwrap();
    assert!(!is_npm_workspaces_project(&m2));
    let m3 = parse_manifest("{}").unwrap();
    assert!(!is_npm_workspaces_project(&m3));
}

#[test]
fn test_discovery_eligibility() {
    // "private": true is excluded.
    let private_true = parse_manifest("{\"name\": \"a\", \"private\": true}").unwrap();
    assert!(eligible_package(&private_true, "/d".into(), "1".into()).is_none());
    // "private": false is eligible.
    let private_false = parse_manifest("{\"name\": \"a\", \"private\": false}").unwrap();
    let p = eligible_package(&private_false, "/d".into(), "1".into()).unwrap();
    assert_eq!(p.name, "a".to_string());
    assert_eq!(p.dir, "/d".to_string());
    assert_eq!(p.source_id, "1".to_string());
    // no "private" field at all is excluded.
    let absent = parse_manifest("{\"name\": \"a\"}").unwrap();
    assert!(eligible_package(&absent, "/d".into(), "1".into()).is_none());
    // no name is excluded whatever the marker says.
    let unnamed = parse_manifest("{\"private\": false}").unwrap();
    assert!(eligible_package(&unnamed, "/d".into(), "1".into()).is_none());
}

#[test]
fn test_packages_from_source_filters() {
    let source = Source::new("/roots/one".to_string());
    let candidates = vec![
        PackageCandidate {
            dir: "/roots/one/a".to_string(),
            manifest: parse_manifest("{\"name\": \"a\", \"private\": false}"),
        },
        PackageCandidate {
            dir: "/roots/one/b".to_string(),
            manifest: parse_manifest("{\"name\": \"b\", \"private\": true}"),
        },
        PackageCandidate { dir: "/roots/one/c".to_string(), manifest: parse_manifest("{ bad") },
    ];
    let pkgs = packages_from_source(&source, &candidates);
    assert_eq!(pkgs.len(), 1);
    assert_eq!(pkgs[0].name, "a".to_string());
    assert_eq!(pkgs[0].dir, "/roots/one/a".to_string());
    assert_eq!(pkgs[0].source_id, source.id);
}

#[test]
fn test_iterators_packages_from_source() {
    let source = Source::new("/roots/one".to_string());
    let paths = vec!["/roots/one/a/package.json".to_string()];
    let pkgs = npmpink::iterators::packages_from_source(&source, &paths);
    assert_eq!(pkgs.len(), 1);
    assert_eq!(pkgs[0].name, paths[0]);
    assert_eq!(pkgs[0].dir, paths[0]);
    assert_eq!(pkgs[0].source_id, source.id);
}
