use secret_sync::diff::{
    list_env_pairs_to_update, list_env_vars_to_delete, plan, plan_all, should_update_docker_service,
};
use secret_sync::env::EnvMap;

fn env_map(pairs: &[(&str, &str)]) -> EnvMap {
    let mut m = EnvMap::new();
    for (k, v) in pairs {
        m.insert(k.to_string(), v.to_string());
    }
    m
}

#[test]
fn test_list_env_pairs_to_update_no_changes() {
    let mut old_env_vars = EnvMap::new();
    old_env_vars.insert("VAR1".to_string(), "old_value1".to_string());
    old_env_vars.insert("VAR2".to_string(), "old_value2".to_string());

    let mut new_env_vars = EnvMap::new();
    new_env_vars.insert("VAR1".to_string(), "old_value1".to_string());
    new_env_vars.insert("VAR2".to_string(), "old_value2".to_string());

    let result = list_env_pairs_to_update(old_env_vars, new_env_vars).unwrap();
    assert!(result.is_empty()); // No changes, so the result should be an empty map
}

#[test]
fn test_list_env_pairs_to_update_with_changes() {
    let mut old_env_vars = EnvMap::new();
    old_env_vars.insert("VAR1".to_string(), "old_value1".to_string());
    old_env_vars.insert("VAR2".to_string(), "old_value2".to_string());

    let mut new_env_vars = EnvMap::new();
    new_env_vars.insert("VAR1".to_string(), "new_value1".to_string());
    new_env_vars.insert("VAR2".to_string(), "old_value2".to_string());

    let result = list_env_pairs_to_update(old_env_vars, new_env_vars).unwrap();
    let mut expected_result = EnvMap::new();
    expected_result.insert("VAR1".to_string(), "new_value1".to_string());
    assert_eq!(result, expected_result); // VAR1 has changed, so it should be in the result
}

#[test]
fn test_list_env_pairs_to_update_missing_old_vars() {
    let mut old_env_vars = EnvMap::new();
    old_env_vars.insert("VAR1".to_string(), "old_value1".to_string());

    let mut new_env_vars = EnvMap::new();
    new_env_vars.insert("VAR1".to_string(), "new_value1".to_string());
    new_env_vars.insert("VAR2".to_string(), "new_value2".to_string());

    let result = list_env_pairs_to_update(old_env_vars, new_env_vars).unwrap();
    let mut expected_result = EnvMap::new();
    expected_result.insert("VAR1".to_string(), "new_value1".to_string());
    expected_result.insert("VAR2".to_string(), "new_value2".to_string());
    // VAR1 has changed, VAR2 is a new variable, both should be in the result
    assert_eq!(result, expected_result);
}

#[test]
fn test_list_env_pairs_to_update_new_vars_not_in_old_vars() {
    let mut old_env_vars = EnvMap::new();
    old_env_vars.insert("VAR1".to_string(), "old_value1".to_string());

    let mut new_env_vars = EnvMap::new();
    new_env_vars.insert("VAR2".to_string(), "new_value2".to_string());
    new_env_vars.insert("VAR3".to_string(), "new_value3".to_string());

    let result = list_env_pairs_to_update(old_env_vars, new_env_vars).unwrap();
    let mut expected_result = EnvMap::new();
    expected_result.insert("VAR2".to_string(), "new_value2".to_string());
    expected_result.insert("VAR3".to_string(), "new_value3".to_string());
    // VAR2 and VAR3 are new variables, both should be in the result
    assert_eq!(result, expected_result);
}

#[test]
fn test_list_env_vars_to_delete_stale_keys() {
    let current = env_map(&[("A", "1"), ("B", "2"), ("C", "3")]);
    let desired = env_map(&[("B", "2")]);
    let result = list_env_vars_to_delete(current, desired).unwrap();
    assert_eq!(result, vec!["A".to_string(), "C".to_string()]);
}

#[test]
fn test_list_env_vars_to_delete_nothing_when_converged() {
    let current = env_map(&[("A", "1")]);
    let desired = env_map(&[("A", "1")]);
    let result = list_env_vars_to_delete(current, desired).unwrap();
    assert!(result.is_empty());
}

#[test]
fn test_plan_example() {
    // current={"A":"1","B":"2"}, desired={"B":"2","C":"3"}
    // -> toDelete={"A"}, toUpsert={"C":"3"}
    let current = env_map(&[("A", "1"), ("B", "2")]);
    let desired = env_map(&[("B", "2"), ("C", "3")]);
    let p = plan(&desired, &current);
    assert_eq!(p.to_delete, vec!["A".to_string()]);
    assert_eq!(p.to_upsert, env_map(&[("C", "3")]));
    assert!(!p.is_empty());
}

#[test]
fn test_plan_idempotent_on_equal_sets() {
    let s = env_map(&[("A", "1"), ("B", "2")]);
    let p = plan(&s, &s.clone());
    assert!(p.is_empty());
    assert!(p.to_delete.is_empty());
    assert!(p.to_upsert.is_empty());
}

#[test]
fn test_plan_against_empty_environment() {
    let desired = env_map(&[("X", "1"), ("Y", "2")]);
    let current = EnvMap::new();
    let p = plan(&desired, &current);
    assert!(p.to_delete.is_empty());
    assert_eq!(p.to_upsert, desired);
}

#[test]
fn test_plan_round_trip_concrete() {
    // Apply the plan by hand: delete toDelete, set toUpsert; the outcome
    // must equal the desired set.
    let current = env_map(&[("A", "1"), ("B", "2"), ("D", "4")]);
    let desired = env_map(&[("B", "9"), ("C", "3")]);
    let p = plan(&desired, &current);
    let mut applied = EnvMap::new();
    for i in 0..current.len() {
        let k = current.key_at(i).clone();
        if !p.to_delete.contains(&k) {
            applied.insert(k.clone(), current.val_at(i).clone());
        }
    }
    for i in 0..p.to_upsert.len() {
        applied.insert(p.to_upsert.key_at(i).clone(), p.to_upsert.val_at(i).clone());
    }
    assert_eq!(applied, desired);
}

#[test]
fn test_plan_all_skips_converged_services() {
    // One service needs work, one is converged: only the first is planned,
    // and a second pass with everything converged plans nothing.
    let services = vec!["svc-a".to_string(), "svc-b".to_string()];
    let desired = env_map(&[("X", "1")]);
    let envs = vec![EnvMap::new(), env_map(&[("X", "1")])];
    let decisions = plan_all(&services, &desired, &envs);
    assert_eq!(decisions.len(), 1);
    assert_eq!(decisions[0].0, "svc-a");
    assert!(decisions[0].1.to_delete.is_empty());
    assert_eq!(decisions[0].1.to_upsert, env_map(&[("X", "1")]));

    let converged = vec![env_map(&[("X", "1")]), env_map(&[("X", "1")])];
    let second = plan_all(&services, &desired, &converged);
    assert!(second.is_empty());
}

#[test]
fn test_should_update_docker_service_detects_difference() {
    let a = vec!["X=1".to_string(), "Y=2".to_string()];
    let b = vec!["X=1".to_string(), "Y=2".to_string()];
    let c = vec!["X=1".to_string()];
    let d = vec!["X=1".to_string(), "Y=3".to_string()];
    assert!(!should_update_docker_service(&a, &b));
    assert!(should_update_docker_service(&a, &c));
    assert!(should_update_docker_service(&a, &d));
}
