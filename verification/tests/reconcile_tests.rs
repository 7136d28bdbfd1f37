use secret_sync::config::Watcher;
use secret_sync::diff::plan_all;
use secret_sync::env::EnvMap;
use secret_sync::pattern::match_services;

#[test]
fn test_end_to_end_single_apply_then_converged() {
    // A watcher configured with pattern "svc*", the provider returning
    // secrets {"X":"1"}, and one matching service "svc-a" with an empty
    // environment: the first pass applies exactly one mutation,
    // {toDelete:{}, toUpsert:{"X":"1"}} on "svc-a"; a second pass with
    // unchanged secrets applies nothing.
    let watcher = Watcher {
        name: "watcher".to_string(),
        doppler_token: "token".to_string(),
        docker_services: vec!["svc*".to_string()],
    };
    let live = vec!["svc-a".to_string()];
    let services = match_services(&watcher, live).unwrap();
    assert_eq!(services, vec!["svc-a".to_string()]);

    let mut desired = EnvMap::new();
    desired.insert("X".to_string(), "1".to_string());

    let first_envs = vec![EnvMap::new()];
    let decisions = plan_all(&services, &desired, &first_envs);
    assert_eq!(decisions.len(), 1);
    assert_eq!(decisions[0].0, "svc-a");
    assert!(decisions[0].1.to_delete.is_empty());
    let mut expected_upsert = EnvMap::new();
    expected_upsert.insert("X".to_string(), "1".to_string());
    assert_eq!(decisions[0].1.to_upsert, expected_upsert);

    // After applying, the service's environment equals the desired set.
    let mut converged = EnvMap::new();
    converged.insert("X".to_string(), "1".to_string());
    let second = plan_all(&services, &desired, &vec![converged]);
    assert!(second.is_empty());
}
