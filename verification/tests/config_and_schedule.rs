use docker_compose_updater::compose::updater::UpdateReport;
use docker_compose_updater::config::{Config, RegistryConfig, Registries, UpdateStrategy};
use docker_compose_updater::health::{http_response, HealthServer};
use docker_compose_updater::scheduler::{sleep_millis, CycleError, Scheduler};
use docker_compose_updater::text::char_is_space;

fn test_config(schedule: &str) -> Config {
    Config {
        compose_paths: vec!["./test".to_string()],
        schedule: schedule.to_string(),
        registries: Registries::new(),
        update_strategy: UpdateStrategy::LatestPatchOfPreviousMinor,
        ignore_images: vec![],
        dry_run: true,
    }
}

fn with_ignores(patterns: Vec<String>) -> Config {
    Config { ignore_images: patterns, ..Config::defaults(None) }
}

#[test]
fn test_config_defaults_and_image_filtering() {
    let config = Config::defaults(None);
    assert_eq!(config.schedule, "0 0 2 * * *");
    assert_eq!(config.update_strategy, UpdateStrategy::LatestPatchOfPreviousMinor);
    assert!(!config.dry_run);
    assert!(config.registries.contains_key("docker.io"));
    assert!(config.registries.contains_key("ghcr.io"));

    let config_with_ignores = with_ignores(vec!["localhost".to_string(), "127.0.0.1".to_string()]);
    assert!(config_with_ignores.is_image_ignored("localhost:5000/myapp:latest"));
    assert!(config_with_ignores.is_image_ignored("127.0.0.1:5000/myapp:latest"));
    assert!(!config_with_ignores.is_image_ignored("nginx:1.21.0"));
}

#[test]
fn test_config_default_values() {
    let config = Config::defaults(None);
    assert_eq!(config.schedule, "0 0 2 * * *");
    assert_eq!(config.update_strategy, UpdateStrategy::LatestPatchOfPreviousMinor);
    assert!(!config.dry_run);
    assert!(config.ignore_images.is_empty());
    assert!(!config.compose_paths.is_empty());
    assert!(config.registries.contains_key("docker.io"));
    assert!(config.registries.contains_key("ghcr.io"));
    let docker_registry = config.registries.get("docker.io").unwrap();
    assert_eq!(docker_registry.url, "https://registry-1.docker.io");
    assert!(docker_registry.auth_token.is_none());
    let ghcr_registry = config.registries.get("ghcr.io").unwrap();
    assert_eq!(ghcr_registry.url, "https://ghcr.io");
    let with_token = Config::defaults(Some("gh".to_string()));
    assert_eq!(with_token.registries.get("ghcr.io").unwrap().auth_token.as_deref(), Some("gh"));
    assert_eq!(config.compose_paths, vec![".".to_string()]);
}

fn env(pairs: &[(&str, &str)]) -> Vec<(String, String)> {
    pairs.iter().map(|(k, v)| (k.to_string(), v.to_string())).collect()
}

#[test]
fn test_expansion_leaves_text_without_references() {
    let vars = env(&[("HOME", "/root")]);
    let text = "schedule: \"0 0 2 * * *\"\nregistries: {}\n# no variables here {HOME}\n";
    assert_eq!(Config::expand_env_vars(text, &vars), text);
    assert_eq!(Config::expand_env_vars("", &vars), "");
}

#[test]
fn test_env_var_substitution() {
    let vars = env(&[("TEST_TOKEN", "test_value_123")]);
    let test_yaml = "\nregistries:\n  \"test.registry\":\n    url: \"https://test.registry\"\n    auth_token: \"${TEST_TOKEN}\"\n";
    let expanded = Config::expand_env_vars(test_yaml, &vars);
    assert!(expanded.contains("test_value_123"));
    assert!(!expanded.contains("${TEST_TOKEN}"));
}

#[test]
fn test_dollar_var_and_unset_var_expansion() {
    let vars = env(&[("TEST_DOLLAR_TOKEN", "dollar_value_456")]);
    let expanded = Config::expand_env_vars("token: $TEST_DOLLAR_TOKEN", &vars);
    assert!(expanded.contains("dollar_value_456"));
    let expanded = Config::expand_env_vars("token: ${DEFINITELY_UNSET_VAR}", &env(&[]));
    assert!(!expanded.contains("DEFINITELY_UNSET_VAR"));
    assert!(expanded.contains("token: "));
}

#[test]
fn test_expansion_details() {
    let vars = env(&[("A", "x"), ("A_1", "y"), ("B C", "z")]);
    assert_eq!(Config::expand_env_vars("$A-$A_1 ${B C} $ ${} $1 ${A", &vars), "x-y z $ ${} $1 ${A");
    assert_eq!(Config::expand_env_vars("cost: 5$", &vars), "cost: 5$");
    assert_eq!(Config::expand_env_vars("${A}${A}", &vars), "xx");
    assert_eq!(Config::expand_env_vars("plain text", &vars), "plain text");
}

#[test]
fn test_image_ignore_patterns() {
    let test_cases = vec![
        ("localhost", "localhost:5000/app:latest", true),
        ("localhost", "nginx:latest", false),
        ("127.0.0.1", "127.0.0.1:5000/app:latest", true),
        ("127.0.0.1", "192.168.1.1:5000/app:latest", false),
        ("ghcr.io", "ghcr.io/user/app:latest", true),
        ("ghcr.io", "docker.io/nginx:latest", false),
        ("test-", "test-app:latest", true),
        ("test-", "app-test:latest", false),
    ];
    for (ignore_pattern, image_to_test, should_be_ignored) in test_cases {
        let config = with_ignores(vec![ignore_pattern.to_string()]);
        assert_eq!(
            config.is_image_ignored(image_to_test),
            should_be_ignored,
            "Pattern '{}' with image '{}': expected ignored={}",
            ignore_pattern,
            image_to_test,
            should_be_ignored
        );
    }
}

#[test]
fn test_multiple_ignore_patterns() {
    let config = with_ignores(vec![
        "localhost".to_string(),
        "127.0.0.1".to_string(),
        "test-".to_string(),
        "ghcr.io".to_string(),
    ]);
    assert!(config.is_image_ignored("localhost:5000/app:latest"));
    assert!(config.is_image_ignored("127.0.0.1:5000/app:latest"));
    assert!(config.is_image_ignored("test-app:latest"));
    assert!(config.is_image_ignored("ghcr.io/user/app:latest"));
    assert!(!config.is_image_ignored("docker.io/nginx:latest"));
    assert!(!config.is_image_ignored("registry.example.com/app:latest"));
}

#[test]
fn test_image_ignore_patterns_comprehensive() {
    let test_cases = vec![
        (vec!["localhost"], "localhost:5000/app:latest", true),
        (vec!["localhost"], "nginx:latest", false),
        (vec!["localhost", "127.0.0.1"], "127.0.0.1:5000/app:latest", true),
        (vec!["localhost", "127.0.0.1"], "192.168.1.1:5000/app:latest", false),
        (vec!["ghcr.io"], "ghcr.io/user/app:latest", true),
        (vec!["ghcr.io"], "docker.io/user/app:latest", false),
        (vec!["test-"], "test-app:latest", true),
        (vec!["test-"], "app-test:latest", false),
        (vec!["test-"], "testing:latest", false),
        (vec!["internal.company.com"], "internal.company.com/team/app:v1.0", true),
        (vec!["internal.company.com"], "external.company.com/team/app:v1.0", false),
        (vec!["redis"], "redis:latest", true),
        (vec!["redis"], "valkey:latest", false),
        (vec!["redis"], "my-redis:latest", true),
    ];
    for (ignore_patterns, image, should_be_ignored) in test_cases {
        let config = Config {
            ignore_images: ignore_patterns.iter().map(|s| s.to_string()).collect(),
            ..test_config("0 0 2 * * *")
        };
        assert_eq!(
            config.is_image_ignored(image),
            should_be_ignored,
            "Pattern {ignore_patterns:?} with image '{image}' should be ignored: {should_be_ignored}"
        );
    }
}

#[test]
fn test_registry_configuration() {
    let mut registries = Registries::new();
    registries.insert(
        "simple.registry.com".to_string(),
        RegistryConfig { url: "https://simple.registry.com".to_string(), auth_token: None, username: None },
    );
    registries.insert(
        "auth.registry.com".to_string(),
        RegistryConfig {
            url: "https://auth.registry.com".to_string(),
            auth_token: Some("secret-token".to_string()),
            username: None,
        },
    );
    let config = Config { registries, ..Config::defaults(None) };
    assert!(config.registries.get("simple.registry.com").unwrap().auth_token.is_none());
    assert_eq!(config.registries.get("auth.registry.com").unwrap().auth_token, Some("secret-token".to_string()));
    assert_eq!(config.registries.len(), 2);
}

#[test]
fn test_config_with_empty_fields() {
    // What the file `compose_paths: [] / schedule: "" / ignore_images: [] /
    // registries: {}` parses to, then finished loading.
    let mut config = Config {
        compose_paths: vec![],
        schedule: String::new(),
        registries: Registries::new(),
        update_strategy: UpdateStrategy::LatestPatchOfPreviousMinor,
        ignore_images: vec![],
        dry_run: false,
    };
    config.finish_loading(None);
    assert!(config.compose_paths.is_empty());
    assert!(config.ignore_images.is_empty());
    assert!(config.schedule.is_empty());
    assert!(config.registries.contains_key("docker.io"));
}

#[test]
fn test_load_normalizes_empty_auth_token_to_none() {
    let vars = env(&[]);
    let token = Config::expand_env_vars("${DCU_DEFINITELY_UNSET_TOKEN}", &vars);
    let mut registries = Registries::new();
    registries.insert(
        "private.registry.com".to_string(),
        RegistryConfig { url: "https://private.registry.com".to_string(), auth_token: Some(token), username: None },
    );
    let mut config = Config { registries, ..test_config("0 0 2 * * *") };
    config.finish_loading(None);
    assert!(config.registries.get("private.registry.com").unwrap().auth_token.is_none());
}

#[test]
fn test_load_restores_default_registries_omitted_by_the_config_file() {
    let mut registries = Registries::new();
    registries.insert(
        "private.registry.com".to_string(),
        RegistryConfig { url: "https://private.registry.com".to_string(), auth_token: None, username: None },
    );
    let mut config = Config { registries, ..test_config("0 0 2 * * *") };
    config.finish_loading(None);
    assert_eq!(config.registries.get("docker.io").unwrap().url, "https://registry-1.docker.io");
    assert!(config.registries.contains_key("private.registry.com"));
}

#[test]
fn test_load_keeps_explicit_registry_overrides() {
    let mut registries = Registries::new();
    registries.insert(
        "docker.io".to_string(),
        RegistryConfig {
            url: "https://mirror.internal".to_string(),
            auth_token: Some("secret".to_string()),
            username: Some("andras".to_string()),
        },
    );
    let mut config = Config { registries, ..test_config("0 0 2 * * *") };
    config.finish_loading(None);
    let docker_io = config.registries.get("docker.io").unwrap();
    assert_eq!(docker_io.url, "https://mirror.internal");
    assert_eq!(docker_io.username.as_deref(), Some("andras"));
    assert_eq!(config.registries.len(), 2);
}

#[test]
fn test_scheduler_creation() {
    let scheduler = Scheduler::new(test_config("0 0 2 * * *"), None).unwrap();
    assert!(scheduler.schedule.upcoming(chrono::Utc).take(1).next().is_some());
}

#[test]
fn test_scheduler_with_different_cron() {
    let scheduler = Scheduler::new(test_config("0 30 1 * * *"), None).unwrap();
    assert!(scheduler.schedule.upcoming(chrono::Utc).take(1).next().is_some());
}

#[test]
fn test_scheduler_invalid_cron_expressions() {
    for cron in ["invalid cron", "0 0 25 * * *", "60 0 2 * * *", "", "0 0 2 * *"] {
        let config = Config { update_strategy: UpdateStrategy::Latest, ..test_config(cron) };
        assert!(Scheduler::new(config, None).is_err(), "Expected error for invalid cron expression: '{cron}'");
    }
}

#[test]
fn test_scheduler_valid_cron_expressions() {
    for cron in ["0 0 2 * * *", "0 30 1 * * *", "0 0 */6 * * *", "0 0 2 * * MON", "0 15 14 1 * *"] {
        let config = Config { update_strategy: UpdateStrategy::Latest, ..test_config(cron) };
        assert!(Scheduler::new(config, None).is_ok(), "Expected success for valid cron expression: '{cron}'");
    }
}

#[test]
fn test_config_edge_cases() {
    let minimal_config = Config { compose_paths: vec![], update_strategy: UpdateStrategy::Latest, ..test_config("0 0 2 * * *") };
    assert!(!minimal_config.is_image_ignored("any-image:tag"));
    assert!(Scheduler::new(minimal_config, None).is_ok());
}

#[test]
fn test_run_once_errors_when_no_compose_files_found() {
    let (server, handle) = HealthServer::new();
    let scheduler = Scheduler::new(test_config("0 0 2 * * *"), Some(handle)).unwrap();
    let report = UpdateReport::new();
    assert_eq!(scheduler.finish_cycle(&report), Err(CycleError::NoComposeFiles));
    assert!(!server.is_healthy());
}

#[test]
fn test_scheduler_reports_failure_on_service_error() {
    let (server, handle) = HealthServer::new();
    assert!(server.is_healthy());
    let scheduler = Scheduler::new(test_config("0 0 2 * * *"), Some(handle)).unwrap();
    let mut report = UpdateReport::new();
    report.add_found(1);
    report.record_file("stack.yml".to_string(), Err("Unknown registry: unknown.registry.example".to_string()));
    assert_eq!(scheduler.finish_cycle(&report), Err(CycleError::Degraded { errors: 1, updated: 0 }));
    assert!(!server.is_healthy());
    let mut ok = UpdateReport::new();
    ok.add_found(2);
    assert_eq!(scheduler.finish_cycle(&ok), Ok(()));
    assert!(server.is_healthy());
}

#[test]
fn test_health_response_and_sleep() {
    assert_eq!(
        http_response(true),
        "HTTP/1.1 200 OK\r\nContent-Type: application/json\r\nContent-Length: 20\r\nConnection: close\r\n\r\n{\"status\":\"healthy\"}"
    );
    assert_eq!(
        http_response(false),
        "HTTP/1.1 503 Service Unavailable\r\nContent-Type: application/json\r\nContent-Length: 22\r\nConnection: close\r\n\r\n{\"status\":\"unhealthy\"}"
    );
    let (server, handle) = HealthServer::new();
    handle.report_update_failure();
    assert!(!server.is_healthy());
    handle.report_update_success();
    assert!(server.is_healthy());
    assert_eq!(sleep_millis(Some(-5)), 1000);
    assert_eq!(sleep_millis(Some(90_000)), 90_000);
    assert_eq!(sleep_millis(None), 60_000);
}

#[test]
fn test_whitespace_class_matches_std() {
    for u in 0u32..=0x10FFFF {
        if let Some(c) = char::from_u32(u) {
            assert_eq!(char_is_space(c), c.is_whitespace(), "U+{u:04X}");
        }
    }
}

#[test]
fn test_scheduler_keeps_the_configured_schedule() {
    let scheduler = Scheduler::new(test_config("0 30 1 * * *"), None).unwrap();
    assert_eq!(scheduler.schedule.source(), "0 30 1 * * *");
}
