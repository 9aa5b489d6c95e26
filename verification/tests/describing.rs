use pretty_crontab::describe::{
    cron_to_human_readable, day_of_month_with_suffix, dow_name_num, format_time,
    hour_to_ampm_string, month_name,
};

#[test]
fn ordinal_suffixes() {
    assert_eq!(day_of_month_with_suffix("11"), "11th");
    assert_eq!(day_of_month_with_suffix("21"), "21st");
    assert_eq!(day_of_month_with_suffix("12"), "12th");
    assert_eq!(day_of_month_with_suffix("3"), "3rd");
}

#[test]
fn ordinal_suffix_teens_always_take_th() {
    assert_eq!(day_of_month_with_suffix("13"), "13th");
    assert_eq!(day_of_month_with_suffix("111"), "111th");
    assert_eq!(day_of_month_with_suffix("22"), "22nd");
}

#[test]
fn ordinal_suffix_unparseable_day_defaults_to_zero() {
    assert_eq!(day_of_month_with_suffix("oops"), "0th");
}

#[test]
fn numeric_fields_accept_a_leading_plus() {
    // the standard unsigned parsers accept one leading '+'
    assert_eq!(day_of_month_with_suffix("+5"), "5th");
    assert_eq!(format_time("+1", "0"), "at 01:00 AM");
    assert_eq!(hour_to_ampm_string("+1"), "01 AM");
}

#[test]
fn a_sign_alone_or_doubled_does_not_parse() {
    assert_eq!(day_of_month_with_suffix("+"), "0th");
    assert_eq!(day_of_month_with_suffix("++5"), "0th");
    assert_eq!(day_of_month_with_suffix("-5"), "0th");
}

#[test]
fn describe_morning_time() {
    assert_eq!(cron_to_human_readable("0", "9", "*", "*", "*"), "at 09:00 AM");
}

#[test]
fn describe_afternoon_time() {
    assert_eq!(cron_to_human_readable("30", "14", "*", "*", "*"), "at 02:30 PM");
}

#[test]
fn describe_every_month_with_day_and_weekday() {
    assert_eq!(
        cron_to_human_readable("0", "0", "1", "*", "1"),
        "at 12:00 AM every month on 1st and every Monday"
    );
}

#[test]
fn describe_month_only_falls_back_to_month_clause() {
    let s = cron_to_human_readable("0", "0", "*", "6", "*");
    assert_eq!(s, "at 12:00 AM on June");
    assert!(s.ends_with(" on June"));
}

#[test]
fn describe_weekday_in_month() {
    assert_eq!(
        cron_to_human_readable("15", "8", "*", "12", "5"),
        "at 08:15 AM every Friday in December"
    );
}

#[test]
fn describe_every_minute() {
    assert_eq!(cron_to_human_readable("*", "*", "*", "*", "*"), "every minute");
}

#[test]
fn describe_every_minute_during_an_hour() {
    assert_eq!(
        cron_to_human_readable("*", "9", "*", "*", "*"),
        "every minute during the 09 AM hour"
    );
}

#[test]
fn describe_every_hour_at_minutes_past() {
    assert_eq!(
        cron_to_human_readable("5", "*", "*", "*", "*"),
        "every hour at 05 minutes past"
    );
}

#[test]
fn describe_fallback_with_all_three_qualifiers() {
    assert_eq!(
        cron_to_human_readable("0", "12", "25", "12", "0"),
        "at 12:00 PM on December 25th and every Sunday"
    );
}

#[test]
fn describe_multiple_weekdays_uses_placeholder() {
    assert_eq!(
        cron_to_human_readable("0", "9", "*", "*", "1,3"),
        "at 09:00 AM every multiple"
    );
}

#[test]
fn describe_never_empty_for_digit_fields() {
    for m in ["0", "7", "30", "59"] {
        for h in ["0", "9", "12", "23"] {
            let s = cron_to_human_readable(m, h, "*", "*", "*");
            assert!(!s.is_empty());
        }
    }
}

#[test]
fn time_formatting_midnight_and_noon() {
    assert_eq!(format_time("0", "0"), "at 12:00 AM");
    assert_eq!(format_time("12", "0"), "at 12:00 PM");
    assert_eq!(format_time("23", "59"), "at 11:59 PM");
}

#[test]
fn time_formatting_unparseable_defaults_to_zero() {
    assert_eq!(format_time("x", "y"), "at 12:00 AM");
}

#[test]
fn ampm_hour_strings() {
    assert_eq!(hour_to_ampm_string("0"), "12 AM");
    assert_eq!(hour_to_ampm_string("9"), "09 AM");
    assert_eq!(hour_to_ampm_string("12"), "12 PM");
    assert_eq!(hour_to_ampm_string("15"), "03 PM");
}

#[test]
fn month_names_and_sentinel() {
    assert_eq!(month_name("1"), "January");
    assert_eq!(month_name("12"), "December");
    assert_eq!(month_name("13"), "Unknown");
    assert_eq!(month_name("01"), "Unknown");
}

#[test]
fn weekday_names_and_sentinel() {
    assert_eq!(dow_name_num(0), "Sunday");
    assert_eq!(dow_name_num(6), "Saturday");
    assert_eq!(dow_name_num(7), "Unknown");
}
