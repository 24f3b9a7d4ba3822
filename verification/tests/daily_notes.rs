use notectl::daily_notes::{
    replace_all,
    apply_pattern, check_daily_note_request, choose_daily_note, collect_daily_notes,
    daily_note_candidates, daily_note_response, file_name_of, plan_daily_search,
    GetDailyNoteRequest, SearchDailyNotesRequest,
};
use notectl::date_utils::validate_date;
use notectl::error::INVALID_PARAMS;

#[test]
fn test_validate_date() {
    assert!(validate_date("2025-01-20"));
    assert!(validate_date("2024-02-29")); // Leap year
    assert!(!validate_date("2025-02-29")); // Not leap year
    assert!(!validate_date("2025-13-20")); // Invalid month
    assert!(!validate_date("2025-01-32")); // Invalid day
}

#[test]
fn test_get_daily_note_request_validation() {
    let request = GetDailyNoteRequest {
        vault_path: None,
        date: "2025-01-20".to_string(),
    };
    assert_eq!(request.date, "2025-01-20");
}

#[test]
fn test_search_daily_notes_request_validation() {
    let request = SearchDailyNotesRequest {
        vault_path: None,
        start_date: Some("2025-01-20".to_string()),
        end_date: Some("2025-01-22".to_string()),
        limit: Some(10),
        sort: Some("desc".to_string()),
        include_content: Some(false),
    };
    assert_eq!(request.start_date, Some("2025-01-20".to_string()));
    assert_eq!(request.limit, Some(10));
}

#[test]
fn test_apply_pattern() {
    assert_eq!(
        apply_pattern("YYYY-MM-DD.md", "2025-01-20"),
        Some("2025-01-20.md".to_string())
    );
    assert_eq!(
        apply_pattern("Daily/YYYY/MM-DD.md", "2025-01-20"),
        Some("Daily/2025/01-20.md".to_string())
    );
    assert_eq!(
        apply_pattern("YYYY/MM/DD.md", "2025-01-20"),
        Some("2025/01/20.md".to_string())
    );
    assert_eq!(apply_pattern("YYYY-MM-DD.md", "invalid"), None);
}

#[test]
fn apply_pattern_replaces_every_placeholder() {
    assert_eq!(
        apply_pattern("YYYY/YYYY-MM-DD DD.md", "2024-02-09"),
        Some("2024/2024-02-09 09.md".to_string())
    );
    assert_eq!(apply_pattern("notes.md", "2024-02-09"), Some("notes.md".to_string()));
}

#[test]
fn candidates_follow_the_patterns() {
    let patterns = vec!["YYYY-MM-DD.md".to_string(), "Daily/YYYY_MM_DD.md".to_string()];
    assert_eq!(
        daily_note_candidates("2025-01-20", &patterns),
        Ok(vec!["2025-01-20.md".to_string(), "Daily/2025_01_20.md".to_string()])
    );
    assert_eq!(
        daily_note_candidates("2025-1-20", &patterns),
        Err("Invalid pattern: YYYY-MM-DD.md".to_string())
    );
    assert_eq!(daily_note_candidates("bad", &Vec::new()), Ok(Vec::new()));
}

#[test]
fn choosing_among_found_notes() {
    assert_eq!(choose_daily_note("2025-01-20", Vec::new()), Ok(None));
    assert_eq!(
        choose_daily_note("2025-01-20", vec!["2025-01-20.md".to_string()]),
        Ok(Some("2025-01-20.md".to_string()))
    );
    let err = choose_daily_note(
        "2025-01-20",
        vec!["2025-01-20.md".to_string(), "2025_01_20.md".to_string()],
    )
    .unwrap_err();
    assert!(err.contains("Multiple daily notes found"));
    assert_eq!(
        err,
        "Multiple daily notes found for date 2025-01-20: [\"2025-01-20.md\", \"2025_01_20.md\"]"
    );
}

#[test]
fn two_patterns_leading_to_the_same_file_are_one_note() {
    let same = vec!["/v/2025-01-20.md".to_string(), "/v/2025-01-20.md".to_string()];
    assert_eq!(choose_daily_note("2025-01-20", same), Ok(Some("/v/2025-01-20.md".to_string())));
    let err = choose_daily_note(
        "2025-01-20",
        vec!["/v/a.md".to_string(), "/v/b.md".to_string(), "/v/a.md".to_string()],
    )
    .unwrap_err();
    assert_eq!(err, "Multiple daily notes found for date 2025-01-20: [\"/v/a.md\", \"/v/b.md\"]");
}

#[test]
fn the_default_start_is_thirty_days_back_even_years_after_2000() {
    let plan = plan_daily_search(&search_request(None, Some("2025-01-20"), None, None), "2030-01-01").ok().unwrap();
    assert_eq!(plan.dates.len(), 30);
    assert_eq!(plan.dates[0], "2024-12-22");
    assert_eq!(plan.dates[29], "2025-01-20");
}

#[test]
fn note_file_names() {
    assert_eq!(file_name_of("Daily/2025-01-20.md"), "2025-01-20.md");
    assert_eq!(file_name_of("2025-01-20.md"), "2025-01-20.md");
    assert_eq!(file_name_of("a/b/"), "b");
    assert_eq!(file_name_of("a/b/."), "b");
    assert_eq!(file_name_of("a/.."), "a/..");
    assert_eq!(file_name_of(""), "");
}

#[test]
fn daily_note_request_dates_are_checked() {
    let ok = GetDailyNoteRequest { vault_path: None, date: "2025-01-20".to_string() };
    assert!(check_daily_note_request(&ok).is_ok());
    let bad = GetDailyNoteRequest { vault_path: None, date: "2025-02-30".to_string() };
    let e = check_daily_note_request(&bad).unwrap_err();
    assert_eq!(e.code, INVALID_PARAMS);
    assert_eq!(e.message, "Date must be in YYYY-MM-DD format");
}

#[test]
fn daily_note_responses() {
    let r = daily_note_response(
        "2025-01-20".to_string(),
        Some("Daily/2025-01-20.md".to_string()),
        Some(Some("# January 20, 2025".to_string())),
    );
    assert!(r.found);
    assert_eq!(r.file_path, Some("Daily/2025-01-20.md".to_string()));
    assert_eq!(r.file_name, Some("2025-01-20.md".to_string()));
    assert!(r.content.as_ref().unwrap().contains("January 20"));
    let missing = daily_note_response("2025-01-21".to_string(), None, None);
    assert!(!missing.found);
    assert_eq!(missing.date, "2025-01-21");
    assert!(missing.file_path.is_none() && missing.file_name.is_none() && missing.content.is_none());
    let unreadable = daily_note_response("2025-01-22".to_string(), Some("x.md".to_string()), None);
    assert!(!unreadable.found);
}

fn search_request(start: Option<&str>, end: Option<&str>, sort: Option<&str>, limit: Option<usize>) -> SearchDailyNotesRequest {
    SearchDailyNotesRequest {
        vault_path: None,
        start_date: start.map(|s| s.to_string()),
        end_date: end.map(|s| s.to_string()),
        limit,
        sort: sort.map(|s| s.to_string()),
        include_content: None,
    }
}

#[test]
fn planning_a_range_search() {
    let plan = plan_daily_search(&search_request(Some("2025-01-20"), Some("2025-01-22"), None, None), "2030-01-01").ok().unwrap();
    assert_eq!(plan.dates, vec!["2025-01-20", "2025-01-21", "2025-01-22"]);
    assert!(plan.sort_desc);
    assert_eq!(plan.limit, 100);
    assert!(!plan.include_content);

    let asc = plan_daily_search(&search_request(Some("2025-01-20"), Some("2025-01-20"), Some("asc"), Some(3)), "2030-01-01").ok().unwrap();
    assert!(!asc.sort_desc);
    assert_eq!(asc.limit, 3);

    // The end defaults to today, the start to 30 days before it.
    let recent = plan_daily_search(&search_request(None, None, None, None), "2005-03-01").ok().unwrap();
    assert_eq!(recent.dates.len(), 30);
    assert_eq!(recent.dates[0], "2005-01-31");
    assert_eq!(recent.dates[29], "2005-03-01");
}

#[test]
fn range_search_errors() {
    let e = plan_daily_search(&search_request(Some("2025-1-20"), Some("2025-01-22"), None, None), "2030-01-01").err().unwrap();
    assert_eq!(e.message, "start_date must be in YYYY-MM-DD format");
    let e = plan_daily_search(&search_request(Some("2025-01-20"), Some("2025-02-30"), None, None), "2030-01-01").err().unwrap();
    assert_eq!(e.message, "end_date must be in YYYY-MM-DD format");
    let e = plan_daily_search(&search_request(Some("2025-01-22"), Some("2025-01-20"), None, None), "2030-01-01").err().unwrap();
    assert_eq!(e.message, "Invalid date range: start_date must be <= end_date");
    let e = plan_daily_search(&search_request(Some("2024-01-01"), Some("2025-01-01"), None, None), "2030-01-01").err().unwrap();
    assert_eq!(e.message, "Date range limited to 365 days");
    assert_eq!(e.code, INVALID_PARAMS);
}

#[test]
fn collecting_found_notes() {
    let dates: Vec<String> = vec!["2025-01-20", "2025-01-21", "2025-01-22"].into_iter().map(String::from).collect();
    let paths = vec![Some("2025-01-20.md".to_string()), None, Some("Daily/2025-01-22.md".to_string())];
    let (notes, total) = collect_daily_notes(&dates, &paths, true, 100);
    assert_eq!(total, 2);
    assert_eq!(notes.len(), 2);
    assert_eq!(notes[0].date, "2025-01-22");
    assert_eq!(notes[0].file_name, "2025-01-22.md");
    assert_eq!(notes[1].date, "2025-01-20");
    let (asc, total) = collect_daily_notes(&dates, &paths, false, 1);
    assert_eq!(total, 2);
    assert_eq!(asc.len(), 1);
    assert_eq!(asc[0].date, "2025-01-20");
    assert!(asc[0].content.is_none() && asc[0].error.is_none());
}

#[test]
fn notes_are_sorted_by_date_whatever_the_order_given() {
    let dates = vec!["2025-03-01".to_string(), "2025-01-05".to_string(), "2025-02-10".to_string()];
    let paths = vec![
        Some("2025-03-01.md".to_string()),
        Some("2025-01-05.md".to_string()),
        Some("2025-02-10.md".to_string()),
    ];
    let (asc, _) = collect_daily_notes(&dates, &paths, false, 10);
    let got: Vec<&str> = asc.iter().map(|n| n.date.as_str()).collect();
    assert_eq!(got, vec!["2025-01-05", "2025-02-10", "2025-03-01"]);
    let (desc, _) = collect_daily_notes(&dates, &paths, true, 2);
    let got: Vec<&str> = desc.iter().map(|n| n.date.as_str()).collect();
    assert_eq!(got, vec!["2025-03-01", "2025-02-10"]);
}

#[test]
fn replace_all_matches_str_replace() {
    assert_eq!(replace_all("YYYY/YYYYY.md", "YYYY", "2025"), "2025/2025Y.md");
    assert_eq!(replace_all("abc", "", "x"), "xaxbxcx");
    assert_eq!(replace_all("", "", "x"), "x");
    assert_eq!(replace_all("abc", "", "x"), "abc".replace("", "x"));
}
