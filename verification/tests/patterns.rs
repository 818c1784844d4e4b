use refetch_core::external::{is_rfc3339, is_uri};
use refetch_core::text::{is_component_version, is_id, is_signal_name, is_token, is_weight_name};

#[test]
fn schema_identifier_and_token_patterns_are_exact() {
    for value in ["a", "req:one-two", "abc123"] {
        assert!(is_id(value), "valid id rejected: {value}");
    }
    for value in ["", "A", "bad_id", "bad space"] {
        assert!(!is_id(value), "invalid id accepted: {value}");
    }
    for value in ["a", "github.release", "feed-item_2"] {
        assert!(is_token(value), "valid token rejected: {value}");
    }
    for value in ["", "GitHub", "bad..token", "bad-"] {
        assert!(!is_token(value), "invalid token accepted: {value}");
    }
}

#[test]
fn schema_signal_and_component_version_patterns_are_exact() {
    assert!(is_signal_name("source.activity", "source."));
    assert!(is_signal_name("analysis.someSignal-v2", "analysis."));
    assert!(!is_signal_name("source.", "source."));
    assert!(!is_signal_name("analysis.bad", "source."));

    for value in ["0.1.0", "1.2.3-alpha.1", "1.2.3+build.7"] {
        assert!(
            is_component_version(value),
            "valid version rejected: {value}"
        );
    }
    for value in ["1", "1.2", "v1.2.3", "1.2.3-alpha+build"] {
        assert!(
            !is_component_version(value),
            "invalid version accepted: {value}"
        );
    }
}

#[test]
fn rfc3339_validation_checks_calendar_time_and_zone() {
    for value in [
        "2026-01-15T00:00:00Z",
        "2024-02-29t23:59:59.123456+08:00",
        "2026-01-15T00:00:00-00:00",
    ] {
        assert!(is_rfc3339(value), "valid date-time rejected: {value}");
    }
    for value in [
        "not-a-date",
        "2023-02-29T00:00:00Z",
        "2026-13-01T00:00:00Z",
        "2026-01-01T24:00:00Z",
        "2026-01-01T00:00:00+24:00",
        "2026-01-01T00:00:00",
    ] {
        assert!(!is_rfc3339(value), "invalid date-time accepted: {value}");
    }
}

#[test]
fn uri_validation_accepts_absolute_uris_and_rejects_malformed_values() {
    for value in [
        "https://example.com/path?q=1#fragment",
        "https://[::1]:443/path",
        "urn:isbn:9780141036144",
        "mailto:user@example.com",
        "file:///tmp/refetch.json",
    ] {
        assert!(is_uri(value), "valid URI rejected: {value}");
    }
    for value in [
        "relative/path",
        "not a uri",
        "https://example.com/%zz",
        "https://[broken/path",
        "https://example.com:port/path",
    ] {
        assert!(!is_uri(value), "invalid URI accepted: {value}");
    }
}

#[test]
fn weight_names_use_source_or_analysis_namespace() {
    assert!(is_weight_name("source.activity"));
    assert!(is_weight_name("analysis.relevance_2"));
    assert!(!is_weight_name("bad.weight"));
    assert!(!is_weight_name("analysis."));
    assert!(!is_weight_name("source.Upper"));
}

#[test]
fn token_separators_must_be_single_and_inside() {
    assert!(is_token("a.b_c-d"));
    assert!(!is_token("a._b"));
    assert!(!is_token(".a"));
    assert!(!is_token("a1-"));
    assert!(is_token("a1-2"));
}

#[test]
fn component_version_suffix_rules() {
    assert!(is_component_version("10.20.30"));
    assert!(is_component_version("1.2.3-rc-1"));
    assert!(!is_component_version("1.2.3-"));
    assert!(!is_component_version("1.2.3.4"));
    assert!(!is_component_version("1..3"));
    assert!(!is_component_version("1.2.3+build+7"));
    assert!(!is_component_version("a.b.c"));
}

#[test]
fn schemeless_references_with_a_colon_segment_are_refused_not_fatal() {
    for value in ["://www.example.com/", "1:2", ":", "a/b:c", ""] {
        assert!(!is_uri(value), "invalid URI accepted: {value}");
    }
}
