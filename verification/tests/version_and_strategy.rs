use docker_compose_updater::config::UpdateStrategy;
use docker_compose_updater::strategy::{create_selector, VersionSelector};
use docker_compose_updater::version::{parse_version_tag, Version, VersionInfo};

fn v(major: u64, minor: u64, patch: u64) -> Version {
    Version::new(major, minor, patch)
}

#[test]
fn test_parse_version_tag() {
    let test_cases = vec![
        ("1.29.0", "1.29.0", None, None),
        ("v1.29.0", "1.29.0", Some("v"), None),
        ("v1.29.0.10.2", "1.29.0", Some("v"), None),
        ("v1.29", "1.29.0", Some("v"), None),
        ("release-1.2.3", "1.2.3", Some("release-"), None),
        ("app_v1.5.0", "1.5.0", Some("app_v"), None),
        ("1.29.0-alpine", "1.29.0", None, Some("-alpine")),
        ("15.3-alpine3.18", "15.3.0", None, Some("-alpine3.18")),
        ("v1.29.0-alpine-slim", "1.29.0", Some("v"), Some("-alpine-slim")),
        ("release-1.2.3-ubuntu", "1.2.3", Some("release-"), Some("-ubuntu")),
        ("v4.1.1", "4.1.1", Some("v"), None),
        ("v2.1.3-bookworm-perl", "2.1.3", Some("v"), Some("-bookworm-perl")),
        ("build123-2.0.1-final", "2.0.1", Some("build123-"), Some("-final")),
    ];

    for (input, expected_version, expected_prefix, expected_suffix) in test_cases {
        let (version_opt, prefix, suffix, _) = parse_version_tag(input);

        match version_opt {
            Some(version) => {
                assert_eq!(version.to_string(), expected_version, "Version mismatch for {input}");
                assert_eq!(prefix, expected_prefix.map(String::from), "Prefix mismatch for {input}");
                assert_eq!(suffix, expected_suffix.map(String::from), "Suffix mismatch for {input}");
            }
            None => {
                panic!("Expected version for {input}");
            }
        }
    }
}

#[test]
fn test_non_semver_tags() {
    let non_semver_tags = vec!["latest", "stable", "main", "alpine"];

    for tag in non_semver_tags {
        let (version_opt, _prefix, _suffix, _) = parse_version_tag(tag);
        assert!(version_opt.is_none(), "Expected no version for non-semver tag: {tag}");
    }
}

#[test]
fn test_from_tag_keeps_the_tag_and_its_parts() {
    let info = VersionInfo::from_tag("v1.29.0-alpine-slim").unwrap();
    assert_eq!(info.version.to_string(), "1.29.0");
    assert_eq!(info.prefix, Some("v".to_string()));
    assert_eq!(info.suffix, Some("-alpine-slim".to_string()));
    assert_eq!(info.original, "v1.29.0-alpine-slim");
    assert_eq!(info.to_string(), "v1.29.0-alpine-slim");
    let (version, prefix, suffix, original) = parse_version_tag("v1.29.0-alpine-slim");
    assert_eq!(version.unwrap().to_string(), "1.29.0");
    assert_eq!(prefix, Some("v".to_string()));
    assert_eq!(suffix, Some("-alpine-slim".to_string()));
    assert_eq!(original, "v1.29.0-alpine-slim".to_string());
}

#[test]
fn test_version_groups_that_semver_refuses() {
    // A leading zero in the first dotted run makes the whole tag unversioned,
    // even though a later run would read as a version.
    assert!(VersionInfo::from_tag("01.2.3").is_none());
    assert!(VersionInfo::from_tag("1.02-2.3.4").is_none());
    // A group too large for u64.
    assert!(VersionInfo::from_tag("99999999999999999999.1.1").is_none());
    // Zero on its own is fine.
    assert_eq!(VersionInfo::from_tag("0.10.0").unwrap().version, v(0, 10, 0));
    // A single group is no version; the first dotted run wins.
    assert!(VersionInfo::from_tag("v12-final").is_none());
    let info = VersionInfo::from_tag("a1b2.3.").unwrap();
    assert_eq!(info.version, v(2, 3, 0));
    assert_eq!(info.prefix, Some("a1b".to_string()));
    assert_eq!(info.suffix, Some(".".to_string()));
    let info = VersionInfo::from_tag("1..2.3").unwrap();
    assert_eq!(info.version, v(2, 3, 0));
    assert_eq!(info.prefix, Some("1..".to_string()));
    assert_eq!(info.suffix, None);
    let info = VersionInfo::from_tag("18446744073709551615.0.1").unwrap();
    assert_eq!(info.version, v(u64::MAX, 0, 1));
    assert_eq!(info.version.to_string(), "18446744073709551615.0.1");
}

#[test]
fn test_version_order() {
    assert!(v(1, 2, 3).is_lower_than(&v(1, 2, 4)));
    assert!(v(1, 2, 9).is_lower_than(&v(1, 3, 0)));
    assert!(v(1, 99, 9).is_lower_than(&v(2, 0, 0)));
    assert!(!v(1, 2, 3).is_lower_than(&v(1, 2, 3)));
    assert!(!v(2, 0, 0).is_lower_than(&v(1, 9, 9)));
}

fn infos(tags: &[&str]) -> Vec<VersionInfo> {
    tags.iter().map(|t| VersionInfo::from_tag(t).unwrap()).collect()
}

#[test]
fn test_version_strategy_latest_patch_of_previous_minor() {
    let selector = create_selector(&UpdateStrategy::LatestPatchOfPreviousMinor);
    let available = infos(&["2.0.0", "1.3.0", "1.2.5", "1.1.5", "1.1.4"]);
    let target = selector.select_target_version(&available, None, None);
    assert_eq!(target.map(|v| v.version), Some(v(1, 3, 0)));
}

#[test]
fn test_version_strategy_latest_patch() {
    let selector = create_selector(&UpdateStrategy::LatestPatchOfPreviousMinor);

    let available = infos(&["1.3.0", "1.2.5", "1.1.5"]);
    let target = selector.select_target_version(&available, None, None);
    assert_eq!(target.map(|v| v.version), Some(v(1, 2, 5)));

    let available_far_ahead = infos(&["2.0.0", "1.4.0", "1.2.5", "1.1.5"]);
    let target = selector.select_target_version(&available_far_ahead, None, None);
    assert_eq!(target.map(|v| v.version), Some(v(1, 4, 0)));
}

#[test]
fn test_version_strategy_latest() {
    let selector = create_selector(&UpdateStrategy::Latest);
    let available = infos(&["2.0.0", "1.2.5", "1.1.5"]);
    let target = selector.select_target_version(&available, None, None);
    assert_eq!(target.map(|v| v.version), Some(v(2, 0, 0)));
}

#[test]
fn test_prefix_and_suffix_matching_in_strategy() {
    let selector = create_selector(&UpdateStrategy::Latest);
    let current_prefix = Some("v".to_string());
    let current_suffix = Some("-alpine".to_string());
    let available = infos(&["1.3.0-alpine", "v1.4.0", "v1.5.0-alpine", "2.0.0"]);
    let target = selector.select_target_version(&available, current_prefix, current_suffix);
    assert_eq!(target.map(|v| v.version), Some(v(1, 5, 0)));
}

#[test]
fn test_previous_minor_steps_across_a_major_gap() {
    let selector = create_selector(&UpdateStrategy::LatestPatchOfPreviousMinor);
    let available = infos(&["5.14", "4.0.19", "4.0.18", "4.0.15"]);
    let target = selector.select_target_version(&available, None, None);
    assert_eq!(target.map(|v| v.version), Some(v(4, 0, 19)));
}

#[test]
fn test_previous_minor_skips_an_isolated_outlier_line() {
    let selector = create_selector(&UpdateStrategy::LatestPatchOfPreviousMinor);
    let available = infos(&["14.3.9", "5.2.3", "5.2.0", "5.1.4"]);
    let target = selector.select_target_version(&available, None, None);
    assert_eq!(target.map(|v| v.version), Some(v(5, 2, 3)));
}

#[test]
fn test_previous_minor_handles_skipped_minors() {
    let selector = create_selector(&UpdateStrategy::LatestPatchOfPreviousMinor);
    let available = infos(&["2.5.2", "2.3.5", "2.3.0"]);
    let target = selector.select_target_version(&available, None, None);
    assert_eq!(target.map(|v| v.version), Some(v(2, 3, 5)));
}

#[test]
fn test_previous_minor_without_an_older_line() {
    let selector = create_selector(&UpdateStrategy::LatestPatchOfPreviousMinor);
    let available = infos(&["1.0.2", "1.0.1"]);
    assert!(selector.select_target_version(&available, None, None).is_none());
}

#[test]
fn test_cross_major_version_handling() {
    let selector = create_selector(&UpdateStrategy::LatestPatchOfPreviousMinor);
    let current_suffix = Some("-fat".to_string());
    let available = infos(&["1.0.2-fat", "0.46.2-fat", "0.46.1-fat", "0.45.6-fat"]);
    let target = selector.select_target_version(&available, None, current_suffix);
    assert!(target.is_some());
    assert_eq!(target.unwrap().version, v(0, 46, 2));
}

#[test]
fn test_unordered_input_and_ties() {
    // The registry lists tags in no particular order; equal versions keep the
    // order they came in.
    let selector = create_selector(&UpdateStrategy::Latest);
    let available = infos(&["1.2", "1.10.0", "1.2.0", "1.10"]);
    let target = selector.select_target_version(&available, None, None).unwrap();
    assert_eq!(target.original, "1.10.0");
    let selector = create_selector(&UpdateStrategy::LatestPatchOfPreviousMinor);
    let target = selector.select_target_version(&available, None, None).unwrap();
    assert_eq!(target.original, "1.2");
    let empty: Vec<VersionInfo> = Vec::new();
    assert!(selector.select_target_version(&empty, None, None).is_none());
}

#[test]
fn test_version_selection_with_mismatched_prefixes_suffixes() {
    let selector = create_selector(&UpdateStrategy::Latest);

    let current_prefix = Some("v".to_string());
    let current_suffix = Some("-alpine".to_string());

    let available = [
        VersionInfo::from_tag("1.3.0").unwrap(),
        VersionInfo::from_tag("v1.3.0-ubuntu").unwrap(),
        VersionInfo::from_tag("release-1.1.5-alpine").unwrap(),
    ];

    let target = selector.select_target_version(&available, current_prefix, current_suffix);
    assert!(
        target.is_none(),
        "No versions match both prefix 'v' and suffix '-alpine'"
    );
}

#[test]
fn test_tags_read_as_the_pattern_reads_them() {
    // A line break anywhere leaves the tag without a version.
    assert!(VersionInfo::from_tag("1.2.3\n").is_none());
    assert!(VersionInfo::from_tag("v1.2.3-a\nb").is_none());
    // Digits of other scripts are digits too; the first dotted run holds
    // them, and SemVer refuses it.
    assert!(VersionInfo::from_tag("\u{661}.\u{662}-1.2.3").is_none());
    assert!(VersionInfo::from_tag("1.2.\u{663}").is_none());
    // Letters beyond ASCII are no digits.
    let info = VersionInfo::from_tag("é1.2.3").unwrap();
    assert_eq!(info.prefix, Some("é".to_string()));
    assert_eq!(info.version, Version::new(1, 2, 3));
}
