use npmpink::walker::{
    compile_patterns, filter_walk_entries, is_match_pattern, walk, PathPattern, WalkError,
    WalkOption,
};

#[test]
fn test_walk_option_defaults() {
    let o = WalkOption::default();
    assert_eq!(o.threads, 5);
    assert_eq!(o.max_depth, 10);
    assert!(o.patterns.is_empty());
    let o2 = WalkOption::new(vec!["x".to_string()]).max_depth(3).threads(8);
    assert_eq!(o2.max_depth, 3);
    assert_eq!(o2.threads, 8);
    assert_eq!(o2.patterns, vec!["x".to_string()]);
}

#[test]
fn test_pattern_match() {
    let p = PathPattern::new("package\\.json$".to_string()).unwrap();
    assert!(p.is_match("/a/b/package.json"));
    assert!(!p.is_match("/a/b/package.json.bak"));
    assert!(!p.is_match("/a/b/other.json"));
}

#[test]
fn test_pattern_invalid() {
    assert!(PathPattern::new("([unclosed".to_string()).is_none());
    assert!(matches!(
        compile_patterns(&vec!["([unclosed".to_string()]),
        Err(WalkError::InvalidPattern)
    ));
}

#[test]
fn test_filter_completeness_and_uniqueness() {
    // Four entries match the pattern within the depth bound; exactly
    // those four distinct paths come out, however many workers walked.
    let entries = vec![
        ("/r".to_string(), 0usize),
        ("/r/a/package.json".to_string(), 2usize),
        ("/r/a".to_string(), 1usize),
        ("/r/b/package.json".to_string(), 2usize),
        ("/r/deep/x/package.json".to_string(), 3usize),
        ("/r/c/package.json.txt".to_string(), 2usize),
        ("/r/d/package.json".to_string(), 2usize),
    ];
    let pats = compile_patterns(&vec!["package\\.json$".to_string()]).unwrap();
    let got = filter_walk_entries(&entries, &pats, 10);
    assert_eq!(
        got,
        vec![
            "/r/a/package.json".to_string(),
            "/r/b/package.json".to_string(),
            "/r/deep/x/package.json".to_string(),
            "/r/d/package.json".to_string(),
        ]
    );
}

#[test]
fn test_filter_depth_limit() {
    // An entry at depth max_depth is yielded; one at max_depth + 1 is not.
    let entries = vec![
        ("/r/at/limit/package.json".to_string(), 3usize),
        ("/r/past/the/limit/package.json".to_string(), 4usize),
    ];
    let pats = compile_patterns(&vec!["package\\.json$".to_string()]).unwrap();
    let got = filter_walk_entries(&entries, &pats, 3);
    assert_eq!(got, vec!["/r/at/limit/package.json".to_string()]);
}

#[test]
fn test_filter_skips_depth_zero() {
    let entries = vec![("/r/package.json".to_string(), 0usize)];
    let pats = compile_patterns(&vec!["package\\.json$".to_string()]).unwrap();
    assert!(filter_walk_entries(&entries, &pats, 10).is_empty());
}

#[test]
fn test_all_patterns_must_match() {
    let pats =
        compile_patterns(&vec!["package\\.json$".to_string(), "^/r/a".to_string()]).unwrap();
    assert!(is_match_pattern("/r/a/package.json", &pats));
    assert!(!is_match_pattern("/r/b/package.json", &pats));
}

#[test]
fn test_walk_empty_roots() {
    let r = walk(&Vec::new(), None);
    assert!(matches!(r, Err(WalkError::EmptyRoots)));
}

#[test]
fn test_walk_existing_dir() {
    let roots = vec![".".to_string()];
    assert!(walk(&roots, Some(WalkOption::default().max_depth(1))).is_ok());
}

#[test]
fn test_walker_thread_count_independent() {
    // The same tree walked by one worker and by eight yields the same
    // set of matching paths.
    let roots = vec!["src".to_string()];
    let one = walk(&roots, Some(WalkOption::new(vec!["\\.rs$".to_string()]).threads(1))).unwrap();
    let eight = walk(&roots, Some(WalkOption::new(vec!["\\.rs$".to_string()]).threads(8))).unwrap();
    let mut one_sorted = one.clone();
    one_sorted.sort();
    let mut eight_sorted = eight;
    eight_sorted.sort();
    assert_eq!(one_sorted, eight_sorted);
    assert_eq!(one.len(), one_sorted.len());
    assert!(one_sorted.iter().any(|p| p.ends_with("lib.rs")));
    assert!(one_sorted.iter().all(|p| p.starts_with("src")));
    // No path is yielded twice.
    for w in one_sorted.windows(2) {
        assert_ne!(w[0], w[1]);
    }
}

#[test]
fn test_walker_depth_limit_on_disk() {
    // src/ops/packages.rs sits at depth three below the crate root: a
    // walk bounded at depth two never returns it, one bounded at depth
    // three does.
    let roots = vec![".".to_string()];
    let shallow =
        walk(&roots, Some(WalkOption::new(vec!["packages\\.rs$".to_string()]).max_depth(2)))
            .unwrap();
    assert!(shallow.is_empty());
    let deeper =
        walk(&roots, Some(WalkOption::new(vec!["packages\\.rs$".to_string()]).max_depth(3)))
            .unwrap();
    assert!(deeper.iter().any(|p| p.ends_with("packages.rs")));
}

#[test]
fn test_error_messages() {
    assert_eq!(WalkError::EmptyRoots.message(), "no root paths to walk".to_string());
    assert_eq!(WalkError::InvalidPattern.message(), "invalid path pattern".to_string());
}

#[test]
fn test_walk_invalid_pattern() {
    let roots = vec![".".to_string()];
    let r = walk(&roots, Some(WalkOption::new(vec!["([unclosed".to_string()])));
    assert!(matches!(r, Err(WalkError::InvalidPattern)));
}
