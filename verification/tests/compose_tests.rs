use docker_compose_updater::compose::parser::ComposeParser;
use docker_compose_updater::compose::updater::{choose_new_tag, ComposeUpdater, FileUpdate, UpdateReport};
use docker_compose_updater::config::{Config, RegistryConfig, Registries, UpdateStrategy};
use docker_compose_updater::registry::{ImageRef, TagListing};
use docker_compose_updater::version::{Version, VersionInfo};

fn create_test_config() -> Config {
    let mut registries = Registries::new();
    registries.insert(
        "docker.io".to_string(),
        RegistryConfig {
            url: "https://registry-1.docker.io".to_string(),
            auth_token: None,
            username: None,
        },
    );
    registries.insert(
        "ghcr.io".to_string(),
        RegistryConfig { url: "https://ghcr.io".to_string(), auth_token: None, username: None },
    );
    Config {
        compose_paths: vec!["./test".to_string()],
        schedule: "0 0 2 * * *".to_string(),
        registries,
        update_strategy: UpdateStrategy::Latest,
        ignore_images: vec![],
        dry_run: true,
    }
}

fn parse(content: &str) -> docker_compose_updater::compose::parser::ComposeFile {
    ComposeParser::new().parse_content(content.to_string())
}

#[test]
fn test_parse_compose_file() {
    let compose_content = r#"
version: '3.8'
services:
  web:
    image: nginx:1.21.0  # Web server
    ports:
      - "80:80"

  db:
    image: postgres:13.7
    environment:
      POSTGRES_DB: myapp

  redis:
    image: redis:6.2-alpine
"#;
    let result = parse(compose_content);
    assert_eq!(result.services.len(), 3);
    assert_eq!(result.services[0].service_name, "web");
    assert_eq!(result.services[0].image_ref.name, "nginx");
    assert_eq!(result.services[0].image_ref.tag, "1.21.0");
}

#[test]
fn test_service_names_with_dots() {
    let compose_content = r#"
services:
  my.service:
    image: nginx:1.21.0
  another-service:
    image: redis:7.0
"#;
    let result = parse(compose_content);
    assert_eq!(result.services.len(), 2);
    assert_eq!(result.services[0].service_name, "my.service");
    assert_eq!(result.services[1].service_name, "another-service");
}

#[test]
fn test_ignores_image_nested_under_build() {
    let compose_content = r#"
services:
  web:
    build:
      context: .
      image: should-not-match:9.9.9
    image: nginx:1.21.0
"#;
    let result = parse(compose_content);
    assert_eq!(result.services.len(), 1);
    assert_eq!(result.services[0].service_name, "web");
    assert_eq!(result.services[0].image_ref.name, "nginx");
    assert_eq!(result.services[0].image_ref.tag, "1.21.0");
}

#[test]
fn test_parser_edge_lines() {
    // Digest-pinned, blank and unparsable image lines name no image; a quoted
    // value with a comment does; lines keep their numbers.
    let content = "services:\n  a:\n    image: nginx@sha256:abc\n  b:\n    image: \"  \"\n  c:\n    image: 'redis:7.0'   # cache\n  d:\n    image: x y\n  e:\n    image:\n  ünï-côde:\n    image: app:1.0\n";
    let result = parse(content);
    assert_eq!(result.services.len(), 2);
    assert_eq!(result.services[0].service_name, "c");
    assert_eq!(result.services[0].image_ref.name, "redis");
    assert_eq!(result.services[0].image_ref.tag, "7.0");
    assert_eq!(result.services[0].line_number, 6);
    assert_eq!(result.services[0].original_line, "    image: 'redis:7.0'   # cache");
    assert_eq!(result.services[1].service_name, "ünï-côde");
    assert_eq!(result.services[1].line_number, 12);
    // A later top-level key closes the services block.
    let content = "services:\n  web:\n    image: nginx:1.0.0\nvolumes:\n  data:\n    image: not-a-service:1.0.0\n";
    assert_eq!(parse(content).services.len(), 1);
    // Windows line endings.
    let content = "services:\r\n  web:\r\n    image: nginx:1.0.0\r\n";
    let result = parse(content);
    assert_eq!(result.services.len(), 1);
    assert_eq!(result.services[0].original_line, "    image: nginx:1.0.0");
}

#[test]
fn test_compose_file_parsing() {
    let compose_content = r#"
version: '3.8'
services:
  web:
    image: nginx:1.21.0  # Web server
    ports:
      - "80:80"

  db:
    image: postgres:13.7
    environment:
      POSTGRES_DB: myapp

  redis:
    image: redis:6.2.1-alpine
    ports:
      - "6379:6379"
"#;
    let updater = ComposeUpdater::new(create_test_config());
    let result = updater.parse_compose_file(compose_content.to_string());

    assert_eq!(result.services.len(), 3);
    assert_eq!(result.services[0].service_name, "web");
    assert_eq!(result.services[0].image_ref.name, "nginx");
    assert_eq!(result.services[0].image_ref.tag, "1.21.0");
    assert_eq!(result.services[0].image_ref.registry, "docker.io");
    assert_eq!(result.services[1].service_name, "db");
    assert_eq!(result.services[1].image_ref.name, "postgres");
    assert_eq!(result.services[1].image_ref.tag, "13.7");
    assert_eq!(result.services[2].service_name, "redis");
    assert_eq!(result.services[2].image_ref.name, "redis");
    assert_eq!(result.services[2].image_ref.tag, "6.2.1-alpine");
}

#[test]
fn test_comment_and_formatting_preservation() {
    let compose_content = r#"
version: '3.8'
services:
  web:
    image: nginx:1.21.0  # This is a comment
    ports:
      - "80:80"

  # This is another comment
  db:
    image: "postgres:13.7"  # Database comment with quotes
    environment:
      POSTGRES_DB: myapp
"#;
    let updater = ComposeUpdater::new(create_test_config());
    let result = updater.parse_compose_file(compose_content.to_string());

    assert!(result.services[0].original_line.contains("# This is a comment"));
    assert!(result.services[1].original_line.contains("# Database comment"));

    let new_content = updater
        .replace_image_in_content(&result.content, &result.services[0], "nginx:1.20.0")
        .unwrap();
    assert!(new_content.contains("nginx:1.20.0  # This is a comment"));
    assert!(!new_content.contains("nginx:1.21.0"));

    let new_content = updater
        .replace_image_in_content(&new_content, &result.services[1], "postgres:14.0")
        .unwrap();
    assert!(new_content.contains("\"postgres:14.0\"  # Database comment"));
    assert!(!new_content.contains("postgres:13.7"));
}

#[test]
fn test_replace_keeps_everything_else() {
    let content = "services:\n  web:\n    image: 'nginx:1.0.0'\t# pinned\n  db:\n    image: postgres:1.0.0\n";
    let updater = ComposeUpdater::new(create_test_config());
    let file = updater.parse_compose_file(content.to_string());
    let out = updater.replace_image_in_content(content, &file.services[0], "nginx:2.0.0").unwrap();
    assert_eq!(out, "services:\n  web:\n    image: \"nginx:2.0.0\"\t# pinned\n  db:\n    image: postgres:1.0.0\n");
    // Without a final newline none is added.
    let content2 = "services:\n  web:\n    image: nginx:1.0.0";
    let file2 = updater.parse_compose_file(content2.to_string());
    let out2 = updater.replace_image_in_content(content2, &file2.services[0], "nginx:1.1.0").unwrap();
    assert_eq!(out2, "services:\n  web:\n    image: nginx:1.1.0");
    // The line must still stand where it was found.
    assert!(updater.replace_image_in_content("changed\n", &file.services[0], "x:1").is_err());
}

#[test]
fn test_replace_reads_lines_like_str_lines() {
    // Lines are read as `str::lines` reads them, so a carriage return before
    // a line break is not written back.
    let content = "services:\r\n  web:\r\n    image: nginx:1.0.0\r\n";
    let updater = ComposeUpdater::new(create_test_config());
    let file = updater.parse_compose_file(content.to_string());
    assert_eq!(file.services.len(), 1);
    let out = updater.replace_image_in_content(content, &file.services[0], "nginx:1.1.0").unwrap();
    assert_eq!(out, "services:\n  web:\n    image: nginx:1.1.0\n");
}

#[test]
fn test_compose_file_parsing_edge_cases() {
    let updater = ComposeUpdater::new(create_test_config());
    let test_cases = vec![
        (
            "standard_compose",
            "\nversion: '3.8'\nservices:\n  web:\n    image: nginx:1.21.0\n    ports:\n      - \"80:80\"\n  db:\n    image: postgres:13.7\n",
            2,
        ),
        (
            "with_comments",
            "\n# This is a comment\nversion: '3.8'\n\nservices:\n  # Web service comment\n  web:\n    image: nginx:1.21.0  # Inline comment\n    ports:\n      - \"80:80\"\n  \n  # Database service\n  db:\n    image: postgres:13.7\n    # More comments\n    environment:\n      POSTGRES_DB: test\n",
            2,
        ),
        (
            "complex_images",
            "\nversion: '3.8'\nservices:\n  frontend:\n    image: ghcr.io/company/frontend:v2.1.0\n  backend:\n    image: my-registry.com:5000/team/backend:latest\n  cache:\n    image: redis:7.0.0-alpine3.16\n  database:\n    image: postgres:14.5-bullseye\n",
            4,
        ),
        ("minimal", "\nversion: '3'\nservices:\n  app:\n    image: hello-world\n", 1),
        (
            "with_extends",
            "\nversion: '3.8'\nservices:\n  base:\n    image: ubuntu:20.04\n    environment:\n      - ENV=production\n      \n  app:\n    extends:\n      service: base\n    image: myapp:latest\n    ports:\n      - \"3000:3000\"\n",
            2,
        ),
    ];

    for (test_name, compose_content, expected_services) in test_cases {
        let compose_file = updater.parse_compose_file(compose_content.to_string());
        assert_eq!(compose_file.services.len(), expected_services, "Service count mismatch for: {test_name}");
        for service in &compose_file.services {
            assert!(!service.service_name.is_empty(), "Service name should not be empty in: {test_name}");
            assert!(!service.image_ref.name.is_empty(), "Image name should not be empty in: {test_name}");
            assert!(!service.image_ref.tag.is_empty(), "Image tag should not be empty in: {test_name}");
            assert!(!service.image_ref.registry.is_empty(), "Image registry should not be empty in: {test_name}");
        }
    }
}

#[test]
fn test_compose_content_replacement() {
    let updater = ComposeUpdater::new(create_test_config());
    let original_content = r#"
version: '3.8'
services:
  web:
    image: nginx:1.20.0  # Current version
    ports:
      - "80:80"
  db:
    image: postgres:13.6
"#;
    let compose_file = updater.parse_compose_file(original_content.to_string());
    let nginx_service = compose_file.services.iter().find(|s| s.service_name == "web").unwrap();
    let result = updater.replace_image_in_content(&compose_file.content, nginx_service, "nginx:1.21.0");
    assert!(result.is_ok(), "Should successfully replace image");
    let new_content = result.unwrap();
    assert!(new_content.contains("nginx:1.21.0"), "Should contain new image version");
    assert!(!new_content.contains("nginx:1.20.0"), "Should not contain old image version");
    assert!(new_content.contains("# Current version"), "Should preserve comments");
    assert!(new_content.contains("postgres:13.6"), "Should preserve other services unchanged");
}

#[test]
fn test_compose_service_image_replacement_edge_cases() {
    let updater = ComposeUpdater::new(create_test_config());
    let test_cases = vec![
        (
            "\nversion: '3.8'\nservices:\n  nginx-proxy:\n    image: nginx:1.20.0\n  nginx-cache:\n    image: nginx:1.21.0\n  web:\n    image: nginx:1.20.0\n",
            "nginx-proxy",
            "nginx:1.20.0",
            "nginx:1.22.0",
        ),
        (
            "\nversion: '3.8'\nservices:\n  public-nginx:\n    image: nginx:1.20.0\n  private-nginx:\n    image: my-registry.com/nginx:1.20.0\n",
            "public-nginx",
            "nginx:1.20.0",
            "nginx:1.21.0",
        ),
        (
            "\nversion: '3.8'\nservices:\n  app:\n    image: ghcr.io/company/app:v1.0.0\n    environment:\n      - IMAGE_VERSION=v1.0.0\n",
            "app",
            "ghcr.io/company/app:v1.0.0",
            "ghcr.io/company/app:v1.1.0",
        ),
    ];

    for (compose_content, service_name, old_image, new_image) in test_cases {
        let compose_file = updater.parse_compose_file(compose_content.to_string());
        let target_service = compose_file.services.iter().find(|s| s.service_name == service_name).unwrap();
        let result = updater.replace_image_in_content(&compose_file.content, target_service, new_image);
        assert!(result.is_ok(), "Should replace image for service: {service_name}");
        let new_content = result.unwrap();
        assert!(new_content.contains(new_image), "Should contain new image: {new_image}");
        let old_count = compose_content.matches(old_image).count();
        let new_old_count = new_content.matches(old_image).count();
        assert_eq!(new_old_count, old_count - 1, "Should replace exactly one occurrence for: {service_name}");
    }
}

#[test]
fn test_compose_update_with_suffix_preservation() {
    let compose_content = "\nversion: '3.8'\nservices:\n  web:\n    image: nginx:1.21.0-alpine\n    ports:\n      - \"80:80\"\n";
    let config = Config {
        compose_paths: vec!["stack.yml".to_string()],
        schedule: "0 0 2 * * *".to_string(),
        registries: Registries::new(),
        update_strategy: UpdateStrategy::Latest,
        ignore_images: vec![],
        dry_run: true,
    };
    let updater = ComposeUpdater::new(config);
    let result = updater.parse_compose_file(compose_content.to_string());
    assert_eq!(result.services[0].image_ref.tag, "1.21.0-alpine");
    let new_content = updater
        .replace_image_in_content(&result.content, &result.services[0], "nginx:1.22.0-alpine")
        .unwrap();
    assert!(new_content.contains("nginx:1.22.0-alpine"));
    assert!(!new_content.contains("nginx:1.21.0-alpine"));
}

#[test]
fn test_compose_malformed_yaml() {
    let updater = ComposeUpdater::new(create_test_config());
    let result = updater.parse_compose_file("version: '3.8'\n".to_string());
    assert!(result.services.is_empty());
    let result = updater.parse_compose_file("".to_string());
    assert!(result.services.is_empty());
    let result = updater.parse_compose_file("version: invalid\nservices:\n  web:\n    image: nginx:1.21.0\n".to_string());
    assert_eq!(result.services.len(), 1);
}

fn version_infos(tags: &[&str]) -> Vec<VersionInfo> {
    tags.iter().map(|t| VersionInfo::from_tag(t).unwrap()).collect()
}

#[test]
fn test_choose_new_tag_upgrades_to_higher_version() {
    let image = ImageRef::parse("nginx:1.25.0").unwrap();
    let current = Version::new(1, 25, 0);
    let available = version_infos(&["1.25.0", "1.26.0", "1.24.0"]);
    let result = choose_new_tag(&image, &current, &available, None, None, &UpdateStrategy::Latest);
    assert_eq!(result, Some("nginx:1.26.0".to_string()));
}

#[test]
fn test_choose_new_tag_prevents_downgrade() {
    let image = ImageRef::parse("nginx:1.25.0").unwrap();
    let current = Version::new(1, 25, 0);
    let available = version_infos(&["1.24.0", "1.23.5"]);
    let result = choose_new_tag(&image, &current, &available, None, None, &UpdateStrategy::Latest);
    assert!(result.is_none(), "should never downgrade");
}

#[test]
fn test_choose_new_tag_skips_equal_version() {
    let image = ImageRef::parse("nginx:1.25.0").unwrap();
    let current = Version::new(1, 25, 0);
    let available = version_infos(&["1.25.0"]);
    let result = choose_new_tag(&image, &current, &available, None, None, &UpdateStrategy::Latest);
    assert!(result.is_none(), "no rewrite when already on the latest");
}

#[test]
fn test_choose_new_tag_respects_prefix_and_suffix() {
    let image = ImageRef::parse("nginx:v1.25.0-alpine").unwrap();
    let current = Version::new(1, 25, 0);
    let available = vec![
        VersionInfo::from_tag("v1.26.0-alpine").unwrap(),
        VersionInfo::from_tag("1.27.0").unwrap(),
        VersionInfo::from_tag("v1.26.0").unwrap(),
    ];
    let result = choose_new_tag(
        &image,
        &current,
        &available,
        Some("v".to_string()),
        Some("-alpine".to_string()),
        &UpdateStrategy::Latest,
    );
    assert_eq!(result, Some("nginx:v1.26.0-alpine".to_string()));
}

#[test]
fn test_next_image_and_file_update() {
    let mut config = create_test_config();
    config.update_strategy = UpdateStrategy::LatestPatchOfPreviousMinor;
    config.ignore_images = vec!["internal".to_string()];
    let updater = ComposeUpdater::new(config);
    let content = "services:\n  web:\n    image: ghcr.io/org/web:v1.4.2-alpine # keep\n  cache:\n    image: internal.example/cache:1.0.0\n  tool:\n    image: tool:latest\n";
    let file = updater.parse_compose_file(content.to_string());
    assert_eq!(file.services.len(), 3);
    assert!(updater.needs_registry_lookup(&file.services[0]));
    assert!(!updater.needs_registry_lookup(&file.services[1]));
    assert!(!updater.needs_registry_lookup(&file.services[2]));

    let available = version_infos(&["v1.5.0-alpine", "v1.4.9-alpine", "v1.4.3-alpine", "v2.0.0"]);
    assert_eq!(
        updater.next_image(&file.services[0], &available),
        Some("ghcr.io/org/web:v1.4.9-alpine".to_string())
    );
    assert_eq!(updater.next_image(&file.services[0], &[]), None);

    let mut state = FileUpdate { content: file.content.clone(), updated: false, errors: vec![] };
    updater.record_service(&mut state, &file.services[0], Ok(available));
    assert!(state.updated);
    assert!(state.errors.is_empty());
    assert_eq!(
        state.content,
        "services:\n  web:\n    image: ghcr.io/org/web:v1.4.9-alpine # keep\n  cache:\n    image: internal.example/cache:1.0.0\n  tool:\n    image: tool:latest\n"
    );
    updater.record_service(&mut state, &file.services[0], Err("registry down".to_string()));
    assert_eq!(state.errors, vec!["Failed to update service web: registry down".to_string()]);
}

#[test]
fn test_is_compose_file() {
    let updater = ComposeUpdater::new(create_test_config());
    assert!(updater.is_compose_file("docker-compose.yml"));
    assert!(updater.is_compose_file("stack.yaml"));
    assert!(!updater.is_compose_file("notes.txt"));
    assert!(!updater.is_compose_file("yml"));
}

#[test]
fn test_update_continues_after_service_failure() {
    // Two services point at registries absent from the configuration, so each
    // fails with "Unknown registry"; the third, with a non-semver tag, is
    // skipped without error. Both failures are recorded.
    let content = "services:\n  skipped:\n    image: nginx:latest\n  bad_one:\n    image: unknown.registry.example/foo/app:1.0.0\n  bad_two:\n    image: another.unknown.example/bar/app:2.0.0\n";
    let config = Config {
        compose_paths: vec!["stack.yml".to_string()],
        schedule: "0 0 2 * * *".to_string(),
        registries: Registries::new(),
        update_strategy: UpdateStrategy::Latest,
        ignore_images: vec![],
        dry_run: true,
    };
    let updater = ComposeUpdater::new(config);
    let mut report = UpdateReport::new();
    report.add_found(1);
    let file = updater.parse_compose_file(content.to_string());
    let mut state = FileUpdate { content: file.content.clone(), updated: false, errors: vec![] };
    for service in &file.services {
        if !updater.needs_registry_lookup(service) {
            continue;
        }
        let fetched = match TagListing::start(&updater.config, &service.image_ref) {
            Ok(_) => Ok(Vec::new()),
            Err(e) => Err(e.message()),
        };
        updater.record_service(&mut state, service, fetched);
    }
    report.record_file("stack.yml".to_string(), Ok(state));

    assert_eq!(report.files_found, 1);
    assert!(report.updated_files.is_empty());
    assert_eq!(report.errors.len(), 2, "both failing services should be attempted and recorded, got: {:?}", report.errors);
    assert!(report.errors[0].contains("Unknown registry"));
}

#[test]
fn test_service_names_with_unicode_letters() {
    let content = "services:\n  ca$fé:\n    image: redis:7.0.0\n  café:\n    image: nginx:1.0.0\n";
    let updater = ComposeUpdater::new(create_test_config());
    let file = updater.parse_compose_file(content.to_string());
    assert_eq!(file.services.len(), 1);
    assert_eq!(file.services[0].service_name, "café");
}

#[test]
fn test_rewritten_file_reads_back_the_new_image() {
    let content = "services:\n  web:\n    image: \"nginx:1.0.0\"  # pinned\n  db:\n    image: postgres:13.7\n";
    let updater = ComposeUpdater::new(create_test_config());
    let file = updater.parse_compose_file(content.to_string());
    let web = updater.replace_image_in_content(content, &file.services[0], "nginx:1.1.0").unwrap();
    let both = updater
        .replace_image_in_content(&web, &file.services[1], "ghcr.io/acme/postgres:14.1")
        .unwrap();
    let again = updater.parse_compose_file(both);
    assert_eq!(again.services.len(), 2);
    assert_eq!(again.services[0].image_ref.to_string(), "nginx:1.1.0");
    assert_eq!(again.services[1].image_ref.registry, "ghcr.io");
    assert_eq!(again.services[1].image_ref.namespace, Some("acme".to_string()));
    assert_eq!(again.services[1].image_ref.tag, "14.1");
}

#[test]
fn test_writes_file_only_when_updated_and_not_dry_run() {
    let mut config = create_test_config();
    config.dry_run = false;
    let updater = ComposeUpdater::new(config);
    let updated = FileUpdate { content: String::new(), updated: true, errors: Vec::new() };
    let untouched = FileUpdate { content: String::new(), updated: false, errors: Vec::new() };
    assert!(updater.writes_file(&updated));
    assert!(!updater.writes_file(&untouched));
    let mut dry = create_test_config();
    dry.dry_run = true;
    let dry_updater = ComposeUpdater::new(dry);
    assert!(!dry_updater.writes_file(&updated));
}
