use pretty_crontab::entries::{
    dow_counts, hourly_counts, month_counts, month_detail_counts, normalize_special_entry,
    parse_entry, resolve_month_arg,
};

#[test]
fn entry_splits_into_five_fields_and_command() {
    let e = parse_entry("0 9 * * 1 /usr/bin/backup --daily").unwrap();
    assert_eq!(e.minute, "0");
    assert_eq!(e.hour, "9");
    assert_eq!(e.day_of_month, "*");
    assert_eq!(e.month, "*");
    assert_eq!(e.day_of_week, "1");
    assert_eq!(e.command, "/usr/bin/backup --daily");
}

#[test]
fn entry_command_is_rejoined_with_single_spaces() {
    let e = parse_entry("1 2 3 4 5   echo   hello   world").unwrap();
    assert_eq!(e.command, "echo hello world");
}

#[test]
fn five_token_lines_are_no_entries() {
    assert!(parse_entry("0 9 * * 1").is_none());
    assert!(parse_entry("").is_none());
    assert!(parse_entry("0 9 * *").is_none());
}

#[test]
fn five_token_lines_are_excluded_from_histograms() {
    let lines = vec!["0 9 * * 1".to_string()];
    let (wild, counts) = hourly_counts(&lines);
    assert_eq!(wild, 0);
    assert!(counts.iter().all(|&c| c == 0));
    let (dwild, dcounts) = dow_counts(&lines);
    assert_eq!(dwild, 0);
    assert!(dcounts.iter().all(|&c| c == 0));
    let (mwild, mcounts) = month_counts(&lines);
    assert_eq!(mwild, 0);
    assert!(mcounts.iter().all(|&c| c == 0));
}

#[test]
fn shorthand_schedules_expand() {
    assert_eq!(normalize_special_entry("@hourly run").unwrap(), "0 * * * * run");
    assert_eq!(normalize_special_entry("@daily run").unwrap(), "0 0 * * * run");
    assert_eq!(normalize_special_entry("@weekly run").unwrap(), "0 0 * * 0 run");
    assert_eq!(normalize_special_entry("@monthly run").unwrap(), "0 0 1 * * run");
    assert_eq!(normalize_special_entry("@yearly run").unwrap(), "0 0 1 1 * run");
    assert_eq!(normalize_special_entry("@annually run").unwrap(), "0 0 1 1 * run");
}

#[test]
fn reboot_and_ordinary_lines_do_not_normalize() {
    assert!(normalize_special_entry("@reboot run").is_none());
    assert!(normalize_special_entry("0 9 * * 1 run").is_none());
    assert!(normalize_special_entry("").is_none());
}

#[test]
fn hourly_histogram_buckets() {
    let lines = vec![
        "0 9 * * 1 a".to_string(),
        "0 * * * * b".to_string(),
        "0 9,17 * * * c".to_string(),
        "bad line".to_string(),
    ];
    let (wild, counts) = hourly_counts(&lines);
    assert_eq!(wild, 1);
    assert_eq!(counts[9], 2);
    assert_eq!(counts[17], 1);
    assert_eq!(counts[8], 0);
}

#[test]
fn hourly_wildcard_routes_to_any_bucket_only() {
    let lines = vec!["0 * * * * job".to_string()];
    let (wild, counts) = hourly_counts(&lines);
    assert_eq!(wild, 1);
    assert!(counts.iter().all(|&c| c == 0));
}

#[test]
fn dow_histogram_expands_lists_and_ranges() {
    let lines = vec![
        "0 0 * * Mon-Wed a".to_string(),
        "0 0 * * 1 b".to_string(),
        "0 0 * * * c".to_string(),
    ];
    let (wild, counts) = dow_counts(&lines);
    assert_eq!(wild, 1);
    assert_eq!(counts[1], 2);
    assert_eq!(counts[2], 1);
    assert_eq!(counts[3], 1);
    assert_eq!(counts[0], 0);
}

#[test]
fn month_histogram_counts_exact_decimal_fields() {
    let lines = vec![
        "0 0 1 6 * a".to_string(),
        "0 0 1 6 * b".to_string(),
        "0 0 1 * * c".to_string(),
        "0 0 1 06 * d".to_string(),
    ];
    let (wild, counts) = month_counts(&lines);
    assert_eq!(wild, 1);
    assert_eq!(counts[5], 2);
    assert_eq!(counts[0], 0);
}

#[test]
fn month_argument_resolution() {
    assert_eq!(resolve_month_arg("6"), Some(6));
    assert_eq!(resolve_month_arg("June"), Some(6));
    assert_eq!(resolve_month_arg("december"), Some(12));
    assert_eq!(resolve_month_arg("0"), None);
    assert_eq!(resolve_month_arg("13"), None);
    assert_eq!(resolve_month_arg("nope"), None);
}

#[test]
fn month_argument_accepts_a_leading_plus() {
    assert_eq!(resolve_month_arg("+6"), Some(6));
}

#[test]
fn month_detail_accepts_plus_prefixed_fields() {
    // "+6" parses as month 6 and "+9" as hour 9, as std's parsers do
    let lines = vec!["0 +9 +15 +6 * a".to_string()];
    let detail = month_detail_counts(&lines, 6);
    assert_eq!(detail.day_counts[15], 1);
    assert_eq!(detail.hour_counts[15 * 257 + 9], 1);
}

#[test]
fn month_detail_counts_days_and_hour_labels() {
    let lines = vec![
        "0 9 15 6 * a".to_string(),
        "0 * 15 6 * b".to_string(),
        "0 9 15 7 * c".to_string(),
        "0 9 20 * * d".to_string(),
        "0 9 x 6 * e".to_string(),
    ];
    let detail = month_detail_counts(&lines, 6);
    assert_eq!(detail.day_counts[15], 2);
    assert_eq!(detail.day_counts[20], 1);
    assert_eq!(detail.day_counts[1], 0);
    // hour label 9 on day 15 once; the wildcard label (index 256) once
    assert_eq!(detail.hour_counts[15 * 257 + 9], 1);
    assert_eq!(detail.hour_counts[15 * 257 + 256], 1);
    assert_eq!(detail.hour_counts[20 * 257 + 9], 1);
}
