use notectl::date_utils::{
    date_range, days_in_month, increment_date, is_leap_year, parse_date, today, today_at,
    validate_date,
};

#[test]
fn test_validate_date_valid() {
    assert!(validate_date("2025-01-20"));
    assert!(validate_date("2025-12-31"));
    assert!(validate_date("2000-02-29")); // Leap year
}

#[test]
fn test_validate_date_invalid() {
    assert!(!validate_date("2025-01")); // Too short
    assert!(!validate_date("2025-01-20-extra")); // Too long
    assert!(!validate_date("2025/01/20")); // Wrong separators
    assert!(!validate_date("25-01-20")); // 2-digit year
    assert!(!validate_date("2025-13-20")); // Invalid month
    assert!(!validate_date("2025-01-32")); // Invalid day
    assert!(!validate_date("2025-02-30")); // Feb doesn't have 30 days
    assert!(!validate_date("2025-02-29")); // Not a leap year
    assert!(!validate_date("not-a-date")); // Non-numeric
}

#[test]
fn test_parse_date() {
    assert_eq!(parse_date("2025-01-20"), Some((2025, 1, 20)));
    assert_eq!(parse_date("2025-12-31"), Some((2025, 12, 31)));
    assert_eq!(parse_date("invalid"), None);
}

#[test]
fn test_date_range() {
    let range = date_range("2025-01-20", "2025-01-22");
    assert_eq!(range.len(), 3);
    assert_eq!(range[0], "2025-01-20");
    assert_eq!(range[1], "2025-01-21");
    assert_eq!(range[2], "2025-01-22");
}

#[test]
fn test_date_range_single_day() {
    let range = date_range("2025-01-20", "2025-01-20");
    assert_eq!(range.len(), 1);
    assert_eq!(range[0], "2025-01-20");
}

#[test]
fn test_date_range_invalid_start() {
    let range = date_range("invalid", "2025-01-20");
    assert!(range.is_empty());
}

#[test]
fn test_date_range_invalid_end() {
    let range = date_range("2025-01-20", "invalid");
    assert!(range.is_empty());
}

#[test]
fn test_date_range_start_after_end() {
    let range = date_range("2025-01-22", "2025-01-20");
    assert!(range.is_empty());
}

#[test]
fn test_date_range_cross_month() {
    let range = date_range("2025-01-30", "2025-02-02");
    assert_eq!(range.len(), 4);
    assert_eq!(range[0], "2025-01-30");
    assert_eq!(range[1], "2025-01-31");
    assert_eq!(range[2], "2025-02-01");
    assert_eq!(range[3], "2025-02-02");
}

#[test]
fn test_date_range_cross_year() {
    let range = date_range("2024-12-30", "2025-01-02");
    assert_eq!(range.len(), 4);
    assert_eq!(range[0], "2024-12-30");
    assert_eq!(range[1], "2024-12-31");
    assert_eq!(range[2], "2025-01-01");
    assert_eq!(range[3], "2025-01-02");
}

#[test]
fn test_leap_year() {
    assert!(is_leap_year(2000));
    assert!(is_leap_year(2024));
    assert!(!is_leap_year(2025));
    assert!(!is_leap_year(1900));
}

#[test]
fn test_days_in_month() {
    assert_eq!(days_in_month("2025", 1), 31); // Jan
    assert_eq!(days_in_month("2025", 2), 28); // Feb (non-leap)
    assert_eq!(days_in_month("2024", 2), 29); // Feb (leap)
    assert_eq!(days_in_month("2025", 4), 30); // April
    assert_eq!(days_in_month("2025", 12), 31); // Dec
}

#[test]
fn days_in_month_unparsable_year_counts_as_2000() {
    assert_eq!(days_in_month("abc", 2), 29);
    assert_eq!(days_in_month("+2023", 2), 28);
    assert_eq!(days_in_month("2025", 13), 0);
}

#[test]
fn increment_date_steps_over_month_and_year_ends() {
    assert_eq!(increment_date("2024-02-28"), Some("2024-02-29".to_string()));
    assert_eq!(increment_date("2025-02-28"), Some("2025-03-01".to_string()));
    assert_eq!(increment_date("2025-12-31"), Some("2026-01-01".to_string()));
    assert_eq!(increment_date("2025-13-01"), None);
}

#[test]
fn date_range_is_inclusive_over_many_years() {
    let range = date_range("2000-01-01", "2020-01-01");
    assert_eq!(range.len(), 7306);
    assert_eq!(range[0], "2000-01-01");
    assert_eq!(range[3650], "2009-12-29");
    assert_eq!(range[7305], "2020-01-01");
    assert!(range.iter().all(|d| validate_date(d)));
    assert_eq!(date_range("9999-12-30", "9999-12-31"), vec!["9999-12-30", "9999-12-31"]);
}

#[test]
fn formatting_a_parsed_date_gives_back_its_text() {
    for text in ["2025-01-20", "2000-02-29", "0001-01-01", "9999-12-31"] {
        let (y, m, d) = parse_date(text).unwrap();
        assert_eq!(format!("{:04}-{:02}-{:02}", y, m, d), text);
    }
    assert_eq!(parse_date("2025-01-20"), Some((2025, 1, 20)));
    assert_eq!(parse_date("invalid"), None);
}

#[test]
fn today_at_known_instants() {
    assert_eq!(today_at(0), "1970-01-01");
    assert_eq!(today_at(19723 * 86400 + 5), "2024-01-01");
    assert_eq!(today_at(1_745_540_737), "2025-04-25");
    assert!(validate_date(&today()));
}

#[test]
fn consecutive_days_are_consecutive_dates() {
    // 2932896 days after 1970-01-01 is 9999-12-31, the last date of four digits.
    let last = today_at(2_932_896 * 86400);
    assert_eq!(last, "9999-12-31");
    assert!(validate_date(&last));
    assert_eq!(increment_date(&last).as_deref(), Some("10000-01-01"));
    assert_eq!(today_at(2_932_897 * 86400), "10000-01-01");
    for day in [0u64, 58, 59, 364, 365, 789, 19_722, 20_088] {
        let d = today_at(day * 86400);
        assert!(validate_date(&d));
        assert_eq!(increment_date(&d), Some(today_at((day + 1) * 86400)));
    }
    assert!(validate_date(&today()));
}

#[test]
fn a_valid_date_formats_only_from_its_own_fields() {
    assert_eq!(parse_date("2025-01-20"), Some((2025, 1, 20)));
    assert_eq!(parse_date("invalid"), None);
    assert!(!validate_date(&format!("{:04}-{:02}-{:02}", 10000, 1, 1)));
    assert!(!validate_date(&format!("{:04}-{:02}-{:02}", 2025, 100, 1)));
    assert!(!validate_date(&format!("{:04}-{:02}-{:02}", 2025, 1, 100)));
    let (y, m, d) = parse_date("0042-02-03").unwrap();
    assert_eq!(format!("{:04}-{:02}-{:02}", y, m, d), "0042-02-03");
}
