use npmpink::lockfile::LockfileContent;
use npmpink::package::Package;
use npmpink::sync::{count_failures, link_command_args, link_message, sync_plan, sync_succeeded};

#[test]
fn test_sync_continues_past_failure() {
    // A lockfile with two packages where the linker fails for the first
    // and succeeds for the second: both invocations are in the plan,
    // exactly one error is counted, and the aggregate is a failure.
    let mut l = LockfileContent::new();
    l.add_package("a".into(), Package::new("a".into(), "/s/a".into(), "1".into()));
    l.add_package("b".into(), Package::new("b".into(), "/s/b".into(), "1".into()));
    let plan = sync_plan(&l);
    assert_eq!(plan.len(), 2);
    let results = vec![false, true];
    assert_eq!(results.len(), plan.len());
    assert_eq!(count_failures(&results), 1);
    assert!(!sync_succeeded(&results));
}

#[test]
fn test_sync_all_ok() {
    assert!(sync_succeeded(&vec![true, true, true]));
    assert_eq!(count_failures(&vec![true, true, true]), 0);
    assert!(sync_succeeded(&Vec::new()));
}

#[test]
fn test_sync_plan_order() {
    let mut l = LockfileContent::new();
    l.add_package("zz".into(), Package::new("zz".into(), "/s/zz".into(), "1".into()));
    l.add_package("aa".into(), Package::new("aa".into(), "/s/aa".into(), "1".into()));
    let names: Vec<String> = sync_plan(&l).into_iter().map(|p| p.name).collect();
    assert_eq!(names, vec!["aa".to_string(), "zz".to_string()]);
}

#[test]
fn test_link_command_args() {
    let p = Package::new("a".into(), "/s/a".into(), "1".into());
    assert_eq!(link_command_args(&p), vec!["link".to_string(), "/s/a".to_string()]);
    assert_eq!(link_message(&p), "> Link package a: \n".to_string());
}
