use docker_compose_updater::config::{Config, RegistryConfig, Registries, UpdateStrategy};
use docker_compose_updater::registry::{
    build_repository_path, extract_auth_param, get_registry_config, parse_link_header,
    parse_retry_after, parse_u64, parse_v2_response, token_credentials, token_from_response,
    token_request, token_url, wait_from_seconds, ImageRef, ListingStep, RegistryError, RejectedCredentials, RetryDecision, RetryState,
    TagListing,
};

#[test]
fn test_image_ref_parsing() {
    let test_cases = vec![
        ("nginx:1.21.0", "docker.io", None, "nginx", "1.21.0"),
        ("ubuntu/nginx:1.21.0", "docker.io", Some("ubuntu"), "nginx", "1.21.0"),
        ("ghcr.io/user/app:v1.0.0", "ghcr.io", Some("user"), "app", "v1.0.0"),
        ("localhost:5000/myapp:latest", "localhost:5000", None, "myapp", "latest"),
        (
            "ghcr.io/schmelczer/fizika/fizika-admin:latest",
            "ghcr.io",
            Some("schmelczer/fizika"),
            "fizika-admin",
            "latest",
        ),
        (
            "registry.example.com/org/team/project/image:v2.0.0",
            "registry.example.com",
            Some("org/team/project"),
            "image",
            "v2.0.0",
        ),
    ];

    for (input, expected_registry, expected_namespace, expected_name, expected_tag) in test_cases {
        let image_ref = ImageRef::parse(input).unwrap();
        assert_eq!(image_ref.registry, expected_registry, "Registry mismatch for {}", input);
        assert_eq!(image_ref.namespace, expected_namespace.map(String::from), "Namespace mismatch for {}", input);
        assert_eq!(image_ref.name, expected_name, "Name mismatch for {}", input);
        assert_eq!(image_ref.tag, expected_tag, "Tag mismatch for {}", input);
    }
}

#[test]
fn test_image_ref_comprehensive_parsing() {
    let test_cases = vec![
        ("nginx", "docker.io", None, "nginx", "latest"),
        ("nginx:1.21", "docker.io", None, "nginx", "1.21"),
        ("nginx:latest", "docker.io", None, "nginx", "latest"),
        ("library/nginx:1.21", "docker.io", Some("library"), "nginx", "1.21"),
        ("bitnami/nginx:1.21", "docker.io", Some("bitnami"), "nginx", "1.21"),
        ("quay.io/nginx:1.21", "quay.io", None, "nginx", "1.21"),
        ("gcr.io/project/nginx:1.21", "gcr.io", Some("project"), "nginx", "1.21"),
        ("registry.k8s.io/pause:3.9", "registry.k8s.io", None, "pause", "3.9"),
        ("ghcr.io/user/app:v1.0.0", "ghcr.io", Some("user"), "app", "v1.0.0"),
        ("ghcr.io/org/project:latest", "ghcr.io", Some("org"), "project", "latest"),
        ("localhost:5000/app:dev", "localhost:5000", None, "app", "dev"),
        ("127.0.0.1:8080/ns/app:test", "127.0.0.1:8080", Some("ns"), "app", "test"),
        ("nginx:1.21.6-alpine", "docker.io", None, "nginx", "1.21.6-alpine"),
        ("postgres:13.7-bullseye", "docker.io", None, "postgres", "13.7-bullseye"),
        ("redis:7.0.0-alpine3.16", "docker.io", None, "redis", "7.0.0-alpine3.16"),
        ("my-registry.company.com/team/app:v2.1.3", "my-registry.company.com", Some("team"), "app", "v2.1.3"),
        ("harbor.example.org/project/nginx:stable", "harbor.example.org", Some("project"), "nginx", "stable"),
    ];

    for (input, expected_registry, expected_namespace, expected_name, expected_tag) in test_cases {
        let result = ImageRef::parse(input);
        assert!(result.is_ok(), "Failed to parse: {input}");
        let image_ref = result.unwrap();
        assert_eq!(image_ref.registry, expected_registry, "Registry mismatch for: {input}");
        assert_eq!(image_ref.namespace, expected_namespace.map(String::from), "Namespace mismatch for: {input}");
        assert_eq!(image_ref.name, expected_name, "Name mismatch for: {input}");
        assert_eq!(image_ref.tag, expected_tag, "Tag mismatch for: {input}");

        let display_string = image_ref.to_string();
        assert!(!display_string.is_empty(), "Display string should not be empty for: {input}");
        if expected_registry == "docker.io" {
            assert!(!display_string.starts_with("docker.io"), "Docker Hub images should not show registry in display: {input}");
        }
    }
}

#[test]
fn test_image_ref_parsing_edge_cases() {
    let result = ImageRef::parse("").unwrap();
    assert_eq!(result.name, "");
    assert_eq!(result.tag, "latest");

    let result = ImageRef::parse("nginx").unwrap();
    assert_eq!(result.tag, "latest");
    assert_eq!(result.name, "nginx");

    let result = ImageRef::parse("ghcr.io/user/app:v1").unwrap();
    assert_eq!(result.registry, "ghcr.io");
    assert_eq!(result.namespace, Some("user".to_string()));
    assert_eq!(result.name, "app");
    assert_eq!(result.tag, "v1");

    let long_name = "a".repeat(300);
    let _ = ImageRef::parse(&long_name);
}

#[test]
fn test_image_ref_written_back() {
    assert_eq!(ImageRef::parse("nginx").unwrap().to_string(), "nginx:latest");
    assert_eq!(ImageRef::parse("docker.io/nginx:1.0").unwrap().to_string(), "nginx:1.0");
    assert_eq!(ImageRef::parse("bitnami/nginx:1.0").unwrap().to_string(), "bitnami/nginx:1.0");
    assert_eq!(ImageRef::parse("ghcr.io/a/b/c:1").unwrap().to_string(), "ghcr.io/a/b/c:1");
    // The last colon separates the tag, even within a registry's port.
    let r = ImageRef::parse("localhost:5000/myapp").unwrap();
    assert_eq!(r.registry, "docker.io");
    assert_eq!(r.name, "localhost");
    assert_eq!(r.tag, "5000/myapp");
}

#[test]
fn test_written_reference_reads_back() {
    let refs = vec![
        ImageRef {
            registry: "docker.io".to_string(),
            namespace: None,
            name: "nginx".to_string(),
            tag: "1.25.0".to_string(),
        },
        ImageRef {
            registry: "docker.io".to_string(),
            namespace: Some("bitnami".to_string()),
            name: "nginx".to_string(),
            tag: "1.0".to_string(),
        },
        ImageRef {
            registry: "localhost:5000".to_string(),
            namespace: None,
            name: "myapp".to_string(),
            tag: "latest".to_string(),
        },
        ImageRef {
            registry: "registry.example.com".to_string(),
            namespace: Some("org/team".to_string()),
            name: "image".to_string(),
            tag: "v2.0.0-alpine".to_string(),
        },
    ];
    for r in refs {
        let back = ImageRef::parse(&r.to_string()).unwrap();
        assert_eq!(back.registry, r.registry);
        assert_eq!(back.namespace, r.namespace);
        assert_eq!(back.name, r.name);
        assert_eq!(back.tag, r.tag);
    }
    // A Docker Hub namespace with a dot reads back as a registry.
    let odd = ImageRef {
        registry: "docker.io".to_string(),
        namespace: Some("my.org".to_string()),
        name: "app".to_string(),
        tag: "1".to_string(),
    };
    assert_eq!(ImageRef::parse(&odd.to_string()).unwrap().registry, "my.org");
}

#[test]
fn test_repository_path_building() {
    let image_ref = ImageRef {
        registry: "docker.io".to_string(),
        namespace: None,
        name: "nginx".to_string(),
        tag: "latest".to_string(),
    };
    assert_eq!(build_repository_path(&image_ref), "library/nginx");

    let image_ref = ImageRef {
        registry: "docker.io".to_string(),
        namespace: Some("bitnami".to_string()),
        name: "nginx".to_string(),
        tag: "latest".to_string(),
    };
    assert_eq!(build_repository_path(&image_ref), "bitnami/nginx");

    let image_ref = ImageRef {
        registry: "ghcr.io".to_string(),
        namespace: Some("user".to_string()),
        name: "app".to_string(),
        tag: "v1.0.0".to_string(),
    };
    assert_eq!(build_repository_path(&image_ref), "user/app");
}

#[test]
fn test_parse_v2_response_reports_raw_cursor_and_count() {
    let body = r#"{"name":"linuxserver/radarr","tags":["6.1.0","6.1.1","latest","amd64-nightly"]}"#;
    let (versions, raw_last_tag, raw_count) = parse_v2_response(body).unwrap();
    assert_eq!(raw_count, 4);
    assert_eq!(raw_last_tag.as_deref(), Some("amd64-nightly"));
    let parsed: Vec<_> = versions.iter().map(|v| v.original.as_str()).collect();
    assert_eq!(parsed, vec!["6.1.0", "6.1.1"]);
}

#[test]
fn test_parse_v2_response_handles_empty_and_null_tags() {
    for body in [r#"{"name":"x","tags":[]}"#, r#"{"name":"x","tags":null}"#] {
        let (versions, raw_last_tag, raw_count) = parse_v2_response(body).unwrap();
        assert!(versions.is_empty());
        assert_eq!(raw_last_tag, None);
        assert_eq!(raw_count, 0, "body {body} should yield zero raw tags");
    }
}

#[test]
fn test_parse_v2_response_rejects_non_json_and_skips_non_strings() {
    assert!(matches!(parse_v2_response("not json"), Err(RegistryError::InvalidTagList(_))));
    let (versions, last, count) = parse_v2_response(r#"{"tags":["1.0.0",7,"2.0.0",null]}"#).unwrap();
    assert_eq!(versions.len(), 2);
    assert_eq!(last.as_deref(), Some("2.0.0"));
    assert_eq!(count, 2);
}

#[test]
fn test_parse_link_header() {
    let link_header = r#"<https://registry.example.com/v2/repo/tags/list?n=100&last=tag99>; rel="next", <https://registry.example.com/v2/repo/tags/list?n=100&last=tag999>; rel="last""#;
    assert_eq!(
        parse_link_header(link_header),
        Some("https://registry.example.com/v2/repo/tags/list?n=100&last=tag99".to_string())
    );

    let link_header = r#"<https://registry.example.com/v2/repo/tags/list?n=100&last=tag99>; rel=next"#;
    assert_eq!(
        parse_link_header(link_header),
        Some("https://registry.example.com/v2/repo/tags/list?n=100&last=tag99".to_string())
    );

    let link_header = r#"<https://registry.example.com/v2/repo/tags/list?n=100&last=tag1>; rel="prev", <https://registry.example.com/v2/repo/tags/list?n=100&last=tag999>; rel="last""#;
    assert_eq!(parse_link_header(link_header), None);

    assert_eq!(parse_link_header(""), None);
    assert_eq!(parse_link_header("not-a-valid-link-header"), None);

    // The second link may be the next one; relative targets are kept.
    assert_eq!(
        parse_link_header(r#"<a>; rel="prev", </v2/x?last=b>; foo=bar; rel=next"#),
        Some("/v2/x?last=b".to_string())
    );
}

#[test]
fn test_extract_auth_param() {
    let challenge = r#"Bearer realm="https://auth.docker.io/token",service="registry.docker.io",scope="repository:library/nginx:pull""#;
    assert_eq!(extract_auth_param(challenge, "realm").unwrap(), "https://auth.docker.io/token");
    assert_eq!(extract_auth_param(challenge, "service").unwrap(), "registry.docker.io");
    assert_eq!(extract_auth_param(challenge, "scope").unwrap(), "repository:library/nginx:pull");
    assert!(extract_auth_param(challenge, "error").is_err());
    assert!(extract_auth_param(r#"realm="""#, "realm").is_err());
    // The first parameter of that name wins.
    assert_eq!(extract_auth_param(r#"a="1",a="2""#, "a").unwrap(), "1");
}

#[test]
fn test_token_url_and_request() {
    let url = token_url("https://auth.docker.io/token", "registry.docker.io", "repository:library/nginx:pull");
    assert_eq!(url, "https://auth.docker.io/token?service=registry.docker.io&scope=repository%3Alibrary%2Fnginx%3Apull");
    assert_eq!(token_url("r", "a b~é", "s"), "r?service=a%20b~%C3%A9&scope=s");

    let config = RegistryConfig { url: "https://ghcr.io".to_string(), auth_token: Some("pat".to_string()), username: None };
    let challenge = r#"Bearer realm="https://ghcr.io/token",service="ghcr.io",scope="repository:user/app:pull""#;
    let request = token_request(challenge, &config, false).unwrap();
    assert_eq!(request.url, "https://ghcr.io/token?service=ghcr.io&scope=repository%3Auser%2Fapp%3Apull");
    assert_eq!(request.credentials, Some(("token".to_string(), "pat".to_string())));
    assert_eq!(token_request(challenge, &config, true).unwrap().credentials, None);
    assert!(matches!(
        token_request(r#"Bearer realm="x""#, &config, false),
        Err(RegistryError::MissingChallengeParam { .. })
    ));
    let named = RegistryConfig { url: String::new(), auth_token: Some("t".to_string()), username: Some("me".to_string()) };
    assert_eq!(token_credentials(&named, false), Some(("me".to_string(), "t".to_string())));
}

#[test]
fn test_token_from_response() {
    assert_eq!(token_from_response(true, 200, "200 OK", r#"{"token":"abc"}"#).unwrap(), "abc");
    assert!(matches!(token_from_response(true, 200, "200 OK", r#"{"access_token":"abc"}"#), Err(RegistryError::MissingToken)));
    assert!(matches!(token_from_response(true, 200, "200 OK", "<html>"), Err(RegistryError::InvalidTokenResponse(_))));
    assert!(matches!(
        token_from_response(false, 401, "401 Unauthorized", "denied"),
        Err(RegistryError::TokenRequestFailed { status: 401, .. })
    ));
}

#[test]
fn test_retry_policy() {
    assert_eq!(parse_u64("30"), Some(30));
    assert_eq!(parse_u64("+7"), Some(7));
    assert_eq!(parse_u64("-7"), None);
    assert_eq!(parse_u64(""), None);
    assert_eq!(parse_u64("18446744073709551616"), None);
    assert_eq!(parse_retry_after("120"), Some(120));
    assert_eq!(parse_retry_after("Wed, 21 Oct 2015 07:28:00 GMT"), None);
    assert_eq!(parse_retry_after("soon"), None);
    // A date still to come asks for a positive wait.
    let wait = parse_retry_after("Fri, 01 Jan 2100 00:00:00 GMT");
    assert!(matches!(wait, Some(n) if n > 0));

    let mut state = RetryState::new();
    assert_eq!(state.on_rate_limited(None), RetryDecision::Retry { wait_secs: 1 });
    assert_eq!(state.on_rate_limited(Some(9)), RetryDecision::Retry { wait_secs: 9 });
    assert_eq!(state.on_transport_error(true), RetryDecision::Retry { wait_secs: 4 });
    assert_eq!(state.on_transport_error(true), RetryDecision::Retry { wait_secs: 8 });
    assert_eq!(state.on_rate_limited(None), RetryDecision::Retry { wait_secs: 16 });
    assert_eq!(state.on_rate_limited(None), RetryDecision::GiveUp);
    let mut state = RetryState::new();
    assert_eq!(state.on_transport_error(false), RetryDecision::GiveUp);

    let mut state = RetryState::new();
    assert_eq!(state.on_status(200, Some(3)), None);
    assert_eq!(state.on_status(404, None), None);
    assert_eq!(state.attempt, 0);
    assert_eq!(state.on_status(429, Some(3)), Some(RetryDecision::Retry { wait_secs: 3 }));
    assert_eq!(state.on_status(429, None), Some(RetryDecision::Retry { wait_secs: 2 }));
    assert_eq!(state.attempt, 2);
}

fn registries_with(name: &str, url: &str) -> Registries {
    let mut r = Registries::new();
    r.insert(name.to_string(), RegistryConfig { url: url.to_string(), auth_token: None, username: None });
    r
}

fn config_with(registries: Registries) -> Config {
    Config {
        compose_paths: vec![],
        schedule: "0 0 2 * * *".to_string(),
        registries,
        update_strategy: UpdateStrategy::Latest,
        ignore_images: vec![],
        dry_run: true,
    }
}

#[test]
fn test_registry_unknown_registry() {
    let config = config_with(Registries::new());
    let image_ref = ImageRef {
        registry: "unknown.registry.com".to_string(),
        namespace: Some("user".to_string()),
        name: "app".to_string(),
        tag: "1.0.0".to_string(),
    };
    let result = TagListing::start(&config, &image_ref);
    assert!(result.is_err());
    let error_msg = result.unwrap_err().message();
    assert!(error_msg.contains("Unknown registry"), "Expected 'Unknown registry' in error, got: {error_msg}");
    assert!(get_registry_config(&config, "unknown.registry.com").is_err());
}

#[test]
fn test_tag_listing_pages_and_authentication() {
    let config = config_with(registries_with("docker.io", "https://registry-1.docker.io"));
    let image = ImageRef::parse("nginx:1.0.0").unwrap();
    let mut listing = TagListing::start(&config, &image).unwrap();
    let first = listing.begin_request();
    assert_eq!(first, "https://registry-1.docker.io/v2/library/nginx/tags/list?n=1000");

    // A 401 asks for a token; after it the same page is asked for again.
    let challenge = r#"Bearer realm="https://auth.docker.io/token",service="registry.docker.io",scope="repository:library/nginx:pull""#;
    match listing.on_response(401, "401 Unauthorized", Some(Ok(challenge.to_string())), None, "") {
        ListingStep::Authenticate(c) => assert_eq!(c, challenge),
        other => panic!("unexpected {other:?}"),
    }
    listing.on_token("tok".to_string());
    assert_eq!(listing.bearer_token.as_deref(), Some("tok"));
    assert_eq!(listing.begin_request(), first);

    // A page without a Link header moves the cursor to its last tag.
    let step = listing.on_response(200, "200 OK", None, None, r#"{"tags":["1.0.0","1.1.0","latest"]}"#);
    assert!(matches!(step, ListingStep::Fetch));
    assert_eq!(listing.auth_attempts, 0);
    assert_eq!(listing.begin_request(), "https://registry-1.docker.io/v2/library/nginx/tags/list?n=1000&last=latest");

    // A Link header is followed, resolved against the registry.
    let step = listing.on_response(200, "200 OK", None, Some("</v2/library/nginx/tags/list?n=1000&last=zz>; rel=\"next\"".to_string()), r#"{"tags":["2.0.0"]}"#);
    assert!(matches!(step, ListingStep::Fetch));
    let next = listing.begin_request();
    assert_eq!(next, "https://registry-1.docker.io/v2/library/nginx/tags/list?n=1000&last=zz");

    // A Link header pointing back at the same page ends the listing.
    let step = listing.on_response(200, "200 OK", None, Some(format!("<{next}>; rel=next")), r#"{"tags":["2.1.0"]}"#);
    assert!(matches!(step, ListingStep::Finished));
    assert_eq!(listing.tags_scanned, 5);
    let found: Vec<_> = listing.results.iter().map(|v| v.original.clone()).collect();
    assert_eq!(found, vec!["1.0.0", "1.1.0", "2.0.0", "2.1.0"]);
}

#[test]
fn test_tag_listing_failures() {
    let config = config_with(registries_with("ghcr.io", "https://ghcr.io"));
    let image = ImageRef::parse("ghcr.io/user/app:1.0.0").unwrap();
    let mut listing = TagListing::start(&config, &image).unwrap();
    assert_eq!(listing.begin_request(), "https://ghcr.io/v2/user/app/tags/list?n=1000");
    assert!(matches!(listing.on_response(401, "401 Unauthorized", None, None, ""), ListingStep::Failed(RegistryError::MissingChallenge)));
    assert!(matches!(listing.on_response(401, "401 Unauthorized", Some(Err("failed to convert header to a str".to_string())), None, ""), ListingStep::Failed(RegistryError::InvalidChallengeEncoding(_))));
    listing.on_token("a".to_string());
    listing.on_token("b".to_string());
    assert!(matches!(
        listing.on_response(401, "401 Unauthorized", Some(Ok("Bearer realm=\"x\"".to_string())), None, ""),
        ListingStep::Failed(RegistryError::AuthenticationFailed { attempts: 2, .. })
    ));
    assert!(matches!(listing.on_response(500, "500 Internal Server Error", None, None, "boom"), ListingStep::Failed(RegistryError::RequestFailed { status: 500, .. })));
    assert!(matches!(listing.on_response(200, "200 OK", None, None, "oops"), ListingStep::Failed(RegistryError::InvalidTagList(_))));
    // An empty page ends the listing; so does a cursor that did not move.
    let mut listing = TagListing::start(&config, &image).unwrap();
    listing.begin_request();
    assert!(matches!(listing.on_response(200, "200 OK", None, None, r#"{"tags":[]}"#), ListingStep::Finished));
    let mut listing = TagListing::start(&config, &image).unwrap();
    listing.begin_request();
    assert!(matches!(listing.on_response(200, "200 OK", None, None, r#"{"tags":["x"]}"#), ListingStep::Fetch));
    listing.begin_request();
    assert!(matches!(listing.on_response(200, "200 OK", None, None, r#"{"tags":["x"]}"#), ListingStep::Finished));
}

#[test]
fn test_registry_error_messages() {
    assert_eq!(
        RegistryError::RequestFailed {
            status: 500,
            status_text: "500 Internal Server Error".to_string(),
            body: "oops".to_string(),
        }
        .message(),
        "Registry request failed with status 500 Internal Server Error: oops"
    );
    assert_eq!(
        RegistryError::TokenRequestFailed {
            status: 401,
            status_text: "401 Unauthorized".to_string(),
            body: "denied".to_string(),
        }
        .message(),
        "Failed to get token: 401 Unauthorized - denied"
    );
    assert_eq!(
        RegistryError::AuthenticationFailed { attempts: 2, registry: "ghcr.io".to_string() }
            .message(),
        "Authentication failed after 2 attempts for registry ghcr.io"
    );
    assert_eq!(
        RegistryError::MissingChallengeParam {
            param: "scope".to_string(),
            challenge: "Bearer realm=\"x\"".to_string(),
        }
        .message(),
        "Missing 'scope' in auth challenge: Bearer realm=\"x\""
    );
    assert_eq!(
        RegistryError::UnknownRegistry("x.example".to_string()).message(),
        "Unknown registry: x.example"
    );
}

#[test]
fn test_rejected_credentials_fall_back_to_anonymous() {
    let mut rejected = RejectedCredentials::new();
    assert!(!rejected.contains("docker.io"));
    rejected.insert("docker.io".to_string());
    assert!(rejected.contains("docker.io"));
    assert!(!rejected.contains("ghcr.io"));

    let config = RegistryConfig {
        url: "https://registry-1.docker.io".to_string(),
        auth_token: Some("dckr_pat_x".to_string()),
        username: None,
    };
    let challenge = r#"Bearer realm="https://auth.docker.io/token",service="registry.docker.io",scope="repository:library/nginx:pull""#;
    let with = token_request(challenge, &config, rejected.contains("ghcr.io")).unwrap();
    assert_eq!(with.credentials, Some(("token".to_string(), "dckr_pat_x".to_string())));
    let anonymous = with.after_refusal().unwrap();
    assert_eq!(anonymous.url, with.url);
    assert_eq!(anonymous.credentials, None);
    assert!(anonymous.after_refusal().is_none());

    let without = token_request(challenge, &config, rejected.contains("docker.io")).unwrap();
    assert_eq!(without.credentials, None);
}

#[test]
fn test_error_messages_carry_details() {
    match parse_v2_response("not json") {
        Err(e) => {
            let m = e.message();
            assert!(m.starts_with("Failed to parse registry response: "), "{m}");
            assert!(m.len() > "Failed to parse registry response: ".len());
        }
        Ok(_) => panic!("not json must fail"),
    }
    match token_from_response(true, 200, "200 OK", "<html>") {
        Err(e) => assert!(e.message().starts_with("Failed to parse auth token response: ")),
        Ok(_) => panic!("not json must fail"),
    }
    assert_eq!(
        RegistryError::InvalidChallengeEncoding("failed to convert header to a str".to_string())
            .message(),
        "Invalid WWW-Authenticate header encoding: failed to convert header to a str"
    );
}

#[test]
fn test_auth_param_words_are_unicode() {
    // A letter beyond ASCII belongs to the parameter's name, as `\w` reads it.
    let challenge = "Bearer érealm=\"x\",service=\"s\"";
    assert!(extract_auth_param(challenge, "realm").is_err());
    assert_eq!(extract_auth_param(challenge, "érealm").unwrap(), "x");
    assert_eq!(extract_auth_param(challenge, "service").unwrap(), "s");
    // Punctuation is not part of a name.
    assert_eq!(extract_auth_param("Bearer ,realm=\"y\"", "realm").unwrap(), "y");
}

#[test]
fn test_refused_credentials_are_not_offered_again() {
    let config = RegistryConfig {
        url: "https://registry-1.docker.io".to_string(),
        auth_token: Some("pat".to_string()),
        username: Some("me".to_string()),
    };
    let challenge = r#"Bearer realm="https://auth.docker.io/token",service="registry.docker.io",scope="repository:library/nginx:pull""#;
    let mut refused = RejectedCredentials::new();
    let first = token_request(challenge, &config, refused.contains("docker.io")).unwrap();
    assert_eq!(first.credentials, Some(("me".to_string(), "pat".to_string())));
    let anonymous = refused.on_refusal("docker.io", &first).unwrap();
    assert_eq!(anonymous.url, first.url);
    assert_eq!(anonymous.credentials, None);
    assert!(refused.contains("docker.io"));
    let again = token_request(challenge, &config, refused.contains("docker.io")).unwrap();
    assert_eq!(again.credentials, None);
    // A refused anonymous request is final and records nothing.
    assert!(refused.on_refusal("ghcr.io", &again).is_none());
    assert!(!refused.contains("ghcr.io"));
}

#[test]
fn test_wait_from_seconds() {
    assert_eq!(wait_from_seconds(30), Some(30));
    assert_eq!(wait_from_seconds(0), None);
    assert_eq!(wait_from_seconds(-5), None);
}

#[test]
fn test_parsed_reference_reads_back() {
    for s in [
        "nginx",
        "nginx:1.25.0",
        "bitnami/nginx:1.0",
        "localhost:5000/myapp:latest",
        "ghcr.io/a/b/c:1",
        "docker.io/nginx:1",
        "docker.io/library/nginx:1",
    ] {
        let r = ImageRef::parse(s).unwrap();
        let back = ImageRef::parse(&r.to_string()).unwrap();
        assert_eq!(back.registry, r.registry, "{s}");
        assert_eq!(back.namespace, r.namespace, "{s}");
        assert_eq!(back.name, r.name, "{s}");
        assert_eq!(back.tag, r.tag, "{s}");
    }
    // The exception: a Docker Hub namespace with a dot.
    let r = ImageRef::parse("docker.io/a.b/c:1").unwrap();
    assert_eq!(ImageRef::parse(&r.to_string()).unwrap().registry, "a.b");
}
