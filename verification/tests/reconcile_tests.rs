use impaccable::idset::IdSet;
use impaccable::reconcile::{missing_packages, untracked_packages, plan_missing_by_group,
    safe_to_remove};
use impaccable::store::PackageGroup;

fn set_from(items: &[&str]) -> IdSet {
    let v: Vec<String> = items.iter().map(|s| s.to_string()).collect();
    IdSet::from_vec(&v)
}

#[test]
fn reconciliation_missing_and_untracked() {
    // installed = {A, B, C} (explicit), desired = {B, C, D}
    let installed = set_from(&["A", "B", "C"]);
    let desired = set_from(&["B", "C", "D"]);
    let missing = missing_packages(&desired, &installed);
    let untracked = untracked_packages(&installed, &desired);
    assert_eq!(*missing.as_vec(), vec!["D".to_string()]);
    assert_eq!(*untracked.as_vec(), vec!["A".to_string()]);
}

#[test]
fn reconciliation_converged_state_is_empty() {
    let installed = set_from(&["A", "B"]);
    let desired = set_from(&["A", "B"]);
    assert!(missing_packages(&desired, &installed).as_vec().is_empty());
    assert!(untracked_packages(&installed, &desired).as_vec().is_empty());
}

#[test]
fn plan_groups_missing_members() {
    let groups = vec![
        ("apps".to_string(), PackageGroup::from_members(set_from(&["vim", "git"]))),
        ("shells".to_string(), PackageGroup::from_members(set_from(&["zsh"]))),
    ];
    let installed = set_from(&["git", "zsh"]);
    let plan = plan_missing_by_group(&groups, &installed);
    assert_eq!(plan.len(), 2);
    assert_eq!(plan[0].0, "apps");
    assert_eq!(*plan[0].1.members.as_vec(), vec!["vim".to_string()]);
    assert_eq!(plan[1].0, "shells");
    assert!(plan[1].1.members.as_vec().is_empty());
}

#[test]
fn required_by_filtering() {
    // untracked = {A, B}, required_by(A) = [], required_by(B) = [X]
    let report = vec![
        ("A".to_string(), Vec::new()),
        ("B".to_string(), vec!["X".to_string()]),
    ];
    let safe = safe_to_remove(&report);
    assert_eq!(safe, vec!["A".to_string()]);
}

#[test]
fn required_by_filtering_keeps_report_order() {
    let report = vec![
        ("c".to_string(), Vec::new()),
        ("a".to_string(), vec!["dep".to_string()]),
        ("b".to_string(), Vec::new()),
    ];
    let safe = safe_to_remove(&report);
    assert_eq!(safe, vec!["c".to_string(), "b".to_string()]);
}
