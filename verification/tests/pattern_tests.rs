use secret_sync::config::Watcher;
use secret_sync::error::Error;
use secret_sync::pattern::{is_match, is_pattern, match_services, parse_service_list};

#[test]
fn test_is_pattern() {
    assert!(is_pattern("pattern_with_asterisk*"));
    assert!(is_pattern("pattern_with_question?"));
    assert!(is_pattern("complex*?pattern"));
    assert!(!is_pattern("no_wildcards_pattern"));
}

#[test]
fn test_is_match_exact_match() {
    assert!(is_match("exact_match", "exact_match"));
    assert!(!is_match("exact_match", "exact_matchz"));
}

#[test]
fn test_is_match_question_start() {
    assert!(is_match("pattern_start", "??ttern_start"));
    assert!(is_match("pattern_start", "?attern_start"));
}

#[test]
fn test_is_match_question_middle() {
    assert!(is_match("pattern_middle", "pat?ern_middle"));
    assert!(is_match("pattern_middle", "pat?ern_?iddle"));
    assert!(is_match("pattern_middle", "pat?e??_?iddle"));
    assert!(is_match("pattern_middle", "pat??????iddle"));
}

#[test]
fn test_is_match_question_end() {
    assert!(is_match("pattern_end", "pattern_en?"));
    assert!(is_match("pattern_end", "pattern_e??"));
}

#[test]
fn test_is_match_star_start() {
    assert!(is_match("pattern_start", "*ttern_start"));
    assert!(is_match("pattern_start", "*pattern_start"));
    assert!(is_match("pattern_start", "*a*t?r*_*t?r?*"));
    assert!(is_match("main_app", "*_app"));
}

#[test]
fn test_is_match_star_middle() {
    assert!(is_match("pattern_middle", "pat*ern_middle"));
    assert!(is_match("pattern_middle", "pat*tern_middle"));
}

#[test]
fn test_is_match_star_end() {
    assert!(is_match("pattern_end", "pattern_e*"));
    assert!(is_match("pattern_end", "pattern_en*"));
}

#[test]
fn test_match_services_exact_match() {
    let watcher = Watcher {
        name: "My watcher".to_owned(),
        docker_services: vec!["service1".to_owned(), "service2".to_owned()],
        doppler_token: "secret".to_owned(),
    };

    let docker_service_names = vec!["service1".to_owned(), "service2".to_owned()];

    let result = match_services(&watcher, docker_service_names);
    assert_eq!(
        result,
        Ok(vec!["service1".to_owned(), "service2".to_owned()])
    );
}

#[test]
fn test_match_services_pattern_and_filtered() {
    let watcher = Watcher {
        name: "My watcher".to_owned(),
        docker_services: vec!["service*".to_owned()],
        doppler_token: "secret".to_owned(),
    };

    let docker_service_names = vec![
        "service1".to_owned(),
        "service2".to_owned(),
        "another_service".to_owned(),
    ];

    let result = match_services(&watcher, docker_service_names);
    assert_eq!(
        result,
        Ok(vec!["service1".to_owned(), "service2".to_owned()])
    );
}

#[test]
fn test_match_services_unknown_service() {
    let watcher = Watcher {
        name: "My watcher".to_owned(),
        docker_services: vec!["service1".to_owned()],
        doppler_token: "secret".to_owned(),
    };

    let docker_service_names = vec!["service2".to_owned(), "another_service".to_owned()];

    let result = match_services(&watcher, docker_service_names);
    assert_eq!(
        result,
        Err(Error::new(
            "Configuration error: service service1 does not exist"
        ))
    );
}

#[test]
fn test_match_services_unknown_service_by_pattern() {
    let watcher = Watcher {
        name: "My watcher".to_owned(),
        docker_services: vec!["service*".to_owned()],
        doppler_token: "secret".to_owned(),
    };

    let docker_service_names = vec!["another_service".to_owned()];

    let result = match_services(&watcher, docker_service_names);
    assert_eq!(
        result,
        Err(Error::new(
            "Configuration error: no services match pattern service*"
        ))
    );
}

#[test]
fn test_match_services_unknown_match() {
    let watcher = Watcher {
        name: "My watcher".to_owned(),
        docker_services: vec!["my*".to_owned()],
        doppler_token: "secret".to_owned(),
    };

    let docker_service_names = vec!["myservice1".to_owned(), "myservice2".to_owned()];

    let result = match_services(&watcher, docker_service_names);
    assert_eq!(
        result,
        Ok(vec!["myservice1".to_owned(), "myservice2".to_owned()])
    );
}

#[test]
fn test_match_services_duplicate_selection() {
    // Two tokens selecting the same live name fail with the
    // duplicate-selection error.
    let watcher = Watcher {
        name: "My watcher".to_owned(),
        docker_services: vec!["service1".to_owned(), "service*".to_owned()],
        doppler_token: "secret".to_owned(),
    };

    let docker_service_names = vec!["service1".to_owned()];

    let result = match_services(&watcher, docker_service_names);
    assert_eq!(
        result,
        Err(Error::new(
            "Configuration error: service name cannot be used multiple times"
        ))
    );
}

#[test]
fn test_match_services_literal_and_pattern_order() {
    // Tokens ["svc1","app*"] against {"svc1","app-web","app-worker"}:
    // token order first, then inventory order within the pattern.
    let watcher = Watcher {
        name: "My watcher".to_owned(),
        docker_services: vec!["svc1".to_owned(), "app*".to_owned()],
        doppler_token: "secret".to_owned(),
    };

    let docker_service_names = vec![
        "svc1".to_owned(),
        "app-web".to_owned(),
        "app-worker".to_owned(),
    ];

    let result = match_services(&watcher, docker_service_names);
    assert_eq!(
        result,
        Ok(vec![
            "svc1".to_owned(),
            "app-web".to_owned(),
            "app-worker".to_owned(),
        ])
    );
}

#[test]
fn test_parse_service_list_splits_lines() {
    let raw = "service1\nservice2\n\nanother_service\n";
    let names = parse_service_list(raw);
    assert_eq!(
        names,
        vec![
            "service1".to_string(),
            "service2".to_string(),
            "another_service".to_string(),
        ]
    );
}

#[test]
fn test_parse_service_list_empty_output() {
    assert!(parse_service_list("").is_empty());
    assert!(parse_service_list("\n\n").is_empty());
}

#[test]
fn test_parse_service_list_no_trailing_newline() {
    let names = parse_service_list("alpha\nbeta");
    assert_eq!(names, vec!["alpha".to_string(), "beta".to_string()]);
}
