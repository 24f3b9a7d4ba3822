use notectl::recent_files::{
    extract_updated_from_frontmatter, iso8601_slices_ok, parse_iso8601_to_unix,
    system_time_to_unix, unix_to_iso8601,
};

#[test]
fn test_parse_iso8601_with_offset() {
    let ts = parse_iso8601_to_unix("2026-04-24T23:45:37-05:00").unwrap();
    // 2026-04-25T04:45:37Z in UTC
    let expected = parse_iso8601_to_unix("2026-04-25T04:45:37Z").unwrap();
    assert_eq!(ts, expected);
}

#[test]
fn test_parse_iso8601_z() {
    let ts = parse_iso8601_to_unix("2026-01-01T00:00:00Z").unwrap();
    // Days from 1970-01-01 to 2026-01-01
    assert!(ts > 0);
    let back = unix_to_iso8601(ts);
    assert_eq!(back, "2026-01-01T00:00:00Z");
}

#[test]
fn test_parse_iso8601_positive_offset() {
    let ts = parse_iso8601_to_unix("2026-04-25T06:00:00+02:00").unwrap();
    let expected = parse_iso8601_to_unix("2026-04-25T04:00:00Z").unwrap();
    assert_eq!(ts, expected);
}

#[test]
fn test_unix_roundtrip() {
    let original = "2025-06-15T12:30:45Z";
    let ts = parse_iso8601_to_unix(original).unwrap();
    let back = unix_to_iso8601(ts);
    assert_eq!(back, original);
}

#[test]
fn test_extract_updated_from_frontmatter() {
    let content = "---\ntitle: My Note\nupdated: 2026-04-24T23:45:37-05:00\ntags:\n  - rust\n---\n\n# Content";
    let updated = extract_updated_from_frontmatter(content).unwrap();
    assert_eq!(updated, "2026-04-24T23:45:37-05:00");
}

#[test]
fn test_extract_updated_missing() {
    let content = "---\ntitle: My Note\n---\n\n# Content";
    assert!(extract_updated_from_frontmatter(content).is_none());
}

#[test]
fn test_extract_updated_no_frontmatter() {
    let content = "# Just a heading\n\nNo frontmatter here.";
    assert!(extract_updated_from_frontmatter(content).is_none());
}

#[test]
fn test_extract_updated_quoted() {
    let content = "---\nupdated: \"2026-04-24T23:45:37-05:00\"\n---\n";
    let updated = extract_updated_from_frontmatter(content).unwrap();
    assert_eq!(updated, "2026-04-24T23:45:37-05:00");
}

#[test]
fn parse_iso8601_exact_values() {
    assert_eq!(parse_iso8601_to_unix("1970-01-01T00:00:00Z"), Some(0));
    assert_eq!(parse_iso8601_to_unix("1970-01-02T00:00:01"), Some(86401));
    assert_eq!(parse_iso8601_to_unix("2024-01-01T00:00:00Z"), Some(19723 * 86400));
    assert_eq!(parse_iso8601_to_unix("2024-01-01 00:00:00Z"), None);
    assert_eq!(parse_iso8601_to_unix("2024-01-01T00:00:00+0"), None);
    assert_eq!(parse_iso8601_to_unix("2024-xx-01T00:00:00Z"), None);
}

#[test]
fn unix_to_iso8601_exact_values() {
    assert_eq!(unix_to_iso8601(0), "1970-01-01T00:00:00Z");
    assert_eq!(unix_to_iso8601(1_745_556_337), "2025-04-25T04:45:37Z");
    assert_eq!(unix_to_iso8601(-1), "1969-12-31T23:59:59Z");
    assert_eq!(unix_to_iso8601(-86400 * 366), "1968-12-31T00:00:00Z");
    assert_eq!(unix_to_iso8601(-3600), "1969-12-31T23:00:00Z");
}

#[test]
fn timestamps_before_the_epoch_are_negative() {
    assert_eq!(parse_iso8601_to_unix("1969-12-31T23:59:59Z"), Some(-1));
    assert_eq!(parse_iso8601_to_unix("1968-01-01T00:00:00Z"), Some(-731 * 86400));
    assert_eq!(parse_iso8601_to_unix("1970-01-01T00:00:00+01:00"), Some(-3600));
    let ts = parse_iso8601_to_unix("1900-03-01T12:00:00Z").unwrap();
    assert_eq!(unix_to_iso8601(ts), "1900-03-01T12:00:00Z");
}

#[test]
fn slicing_check_rejects_split_characters() {
    assert!(iso8601_slices_ok("2026-04-24T23:45:37Z"));
    assert!(!iso8601_slices_ok("2026é4-24T23:45:37Z"));
}

#[test]
fn updated_value_trims_quotes_and_spaces() {
    let content = "---\nupdated:   '2026-01-01'  \n---\n";
    assert_eq!(extract_updated_from_frontmatter(content), Some("2026-01-01".to_string()));
    let content = "---\nupdated: \"\"\nupdated: x\n---\n";
    assert_eq!(extract_updated_from_frontmatter(content), Some("x".to_string()));
    let content = "---\r\nupdated: y\r\n---\r\n";
    assert_eq!(extract_updated_from_frontmatter(content), Some("y".to_string()));
}

#[test]
fn system_time_epoch_is_zero() {
    let at_epoch = std::time::UNIX_EPOCH.duration_since(std::time::UNIX_EPOCH).ok().map(|d| d.as_secs());
    assert_eq!(system_time_to_unix(at_epoch), Some(0));
    assert_eq!(system_time_to_unix(Some(1_700_000_123)), Some(1_700_000_123));
    assert_eq!(system_time_to_unix(None), None);
}

#[test]
fn leap_days_and_year_ends_round_trip() {
    for text in ["2024-02-29T23:59:59Z", "1970-01-01T00:00:00Z", "2000-12-31T12:00:00Z", "2100-03-01T00:00:01Z"] {
        let ts = parse_iso8601_to_unix(text).unwrap();
        assert_eq!(unix_to_iso8601(ts), text);
    }
}
