use bohay::update::{is_newer, parse_version, semver, version_from_member};

#[test]
fn newer_compares_semver_with_optional_v() {
    assert!(is_newer("0.9.3", "0.9.2"));
    assert!(is_newer("v0.10.0", "0.9.9"));
    assert!(is_newer("1.0.0", "0.9.9"));
    assert!(!is_newer("0.9.2", "0.9.2"), "same version is not newer");
    assert!(!is_newer("0.9.1", "0.9.2"), "older is not newer");
    // A pre-release suffix on a component doesn't break the compare.
    assert!(is_newer("0.9.3-rc1", "0.9.2"));
}

#[test]
fn parses_the_manifest_version() {
    assert_eq!(
        parse_version(r#"{"version":"0.9.3","notes":"x"}"#).as_deref(),
        Some("0.9.3")
    );
    // A leading `v` is trimmed.
    assert_eq!(
        parse_version(r#"{"version":"v1.2.0"}"#).as_deref(),
        Some("1.2.0")
    );
    // Garbage / missing field → None (no false "update available").
    assert_eq!(parse_version("not json"), None);
    assert_eq!(parse_version(r#"{"other":1}"#), None);
}

#[test]
fn manifest_version_member_must_be_a_string() {
    assert_eq!(parse_version(r#"{"version":3}"#), None);
    assert_eq!(parse_version(r#"["version"]"#), None);
    assert_eq!(
        parse_version(r#"{"version":"  vv2.0.1 "}"#).as_deref(),
        Some("2.0.1")
    );
    assert_eq!(
        version_from_member(Some(" v1.0 ".to_string())).as_deref(),
        Some("1.0")
    );
    assert_eq!(version_from_member(None), None);
}

#[test]
fn semver_reads_three_components() {
    assert_eq!(semver("1.2.3"), (1, 2, 3));
    assert_eq!(semver("  v4.5.6\n"), (4, 5, 6));
    assert_eq!(semver("1.2"), (1, 2, 0));
    assert_eq!(semver(""), (0, 0, 0));
    assert_eq!(semver("1.2.3.4"), (1, 2, 3));
    assert_eq!(semver("1.x.3"), (1, 0, 3));
    assert_eq!(semver("1.2.3+build.7"), (1, 2, 3));
    assert_eq!(semver("007.010.1"), (7, 10, 1));
    // A component past u32::MAX reads as 0, as a failed parse does.
    assert_eq!(semver("4294967296.1.1"), (0, 1, 1));
    assert_eq!(semver("4294967295.1.1"), (4294967295, 1, 1));
}

#[test]
fn newer_is_a_strict_order() {
    let vs = ["0.9.2", "v0.9.3", "0.10.0", "1.0.0-rc1", "1.0.0"];
    for a in vs {
        assert!(!is_newer(a, a));
        for b in vs {
            assert!(!(is_newer(a, b) && is_newer(b, a)));
            for c in vs {
                if is_newer(a, b) && is_newer(b, c) {
                    assert!(is_newer(a, c));
                }
            }
        }
    }
    assert!(!is_newer("1.0.0-rc1", "1.0.0"));
    assert_eq!(semver("v1.0.0"), semver("1.0.0"));
    assert_eq!(semver("0.9.3-rc1"), semver("0.9.3"));
}
