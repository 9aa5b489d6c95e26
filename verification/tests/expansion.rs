use pretty_crontab::fields::{
    expand, parse_dow_field, parse_dow_value, parse_hour_field, ExpandedField, FieldDomain,
};

#[test]
fn step_expansion_in_hours() {
    // every 15th value from the domain minimum, never exceeding 23
    assert_eq!(parse_hour_field("*/15"), vec![0, 15]);
    match expand("*/15", FieldDomain::Hour) {
        ExpandedField::Values(v) => assert_eq!(v, vec![0, 15]),
        ExpandedField::Any => panic!("a step is not the wildcard"),
    }
}

#[test]
fn step_expansion_in_minutes() {
    match expand("*/15", FieldDomain::Minute) {
        ExpandedField::Values(v) => assert_eq!(v, vec![0, 15, 30, 45]),
        ExpandedField::Any => panic!("a step is not the wildcard"),
    }
}

#[test]
fn range_expansion_in_hours_is_inclusive() {
    assert_eq!(parse_hour_field("9-17"), vec![9, 10, 11, 12, 13, 14, 15, 16, 17]);
    match expand("9-17", FieldDomain::Hour) {
        ExpandedField::Values(v) => assert_eq!(v, vec![9, 10, 11, 12, 13, 14, 15, 16, 17]),
        ExpandedField::Any => panic!("a range is not the wildcard"),
    }
}

#[test]
fn weekday_range_wraps() {
    assert_eq!(parse_dow_field("Fri-Mon"), vec![5, 6, 0, 1]);
    match expand("Fri-Mon", FieldDomain::DayOfWeek) {
        ExpandedField::Values(v) => assert_eq!(v, vec![5, 6, 0, 1]),
        ExpandedField::Any => panic!("a range is not the wildcard"),
    }
}

#[test]
fn wildcard_expands_to_any_in_every_domain() {
    let domains = [
        FieldDomain::Minute,
        FieldDomain::Hour,
        FieldDomain::DayOfMonth,
        FieldDomain::Month,
        FieldDomain::DayOfWeek,
    ];
    for d in domains {
        match expand("*", d) {
            ExpandedField::Any => {}
            ExpandedField::Values(_) => panic!("the wildcard must use the any bucket"),
        }
    }
}

#[test]
fn hour_list_is_sorted_and_deduplicated() {
    assert_eq!(parse_hour_field("3,1,2,3"), vec![1, 2, 3]);
}

#[test]
fn hour_values_out_of_range_are_dropped() {
    assert_eq!(parse_hour_field("25"), Vec::<u8>::new());
    assert_eq!(parse_hour_field("22-30"), vec![22, 23]);
}

#[test]
fn hour_values_accept_a_leading_plus() {
    assert_eq!(parse_hour_field("+5"), vec![5]);
    assert_eq!(parse_hour_field("+1-+3"), vec![1, 2, 3]);
    assert_eq!(parse_hour_field("*/+12"), vec![0, 12]);
}

#[test]
fn malformed_hour_terms_contribute_nothing() {
    assert_eq!(parse_hour_field("oops"), Vec::<u8>::new());
    assert_eq!(parse_hour_field("1-x"), Vec::<u8>::new());
    assert_eq!(parse_hour_field("oops,4"), vec![4]);
}

#[test]
fn zero_step_contributes_nothing() {
    assert_eq!(parse_hour_field("*/0"), Vec::<u8>::new());
}

#[test]
fn large_step_yields_domain_minimum() {
    assert_eq!(parse_hour_field("*/50"), vec![0]);
}

#[test]
fn wildcard_term_in_a_list_is_a_no_op() {
    assert_eq!(parse_hour_field("*,5"), vec![5]);
}

#[test]
fn month_domain_clamps_range_to_one_through_twelve() {
    match expand("0-20", FieldDomain::Month) {
        ExpandedField::Values(v) => {
            assert_eq!(v, vec![1, 2, 3, 4, 5, 6, 7, 8, 9, 10, 11, 12])
        }
        ExpandedField::Any => panic!("a range is not the wildcard"),
    }
}

#[test]
fn minute_step_covers_the_hour() {
    match expand("*/20", FieldDomain::Minute) {
        ExpandedField::Values(v) => assert_eq!(v, vec![0, 20, 40]),
        ExpandedField::Any => panic!("a step is not the wildcard"),
    }
}

#[test]
fn weekday_names_parse_case_insensitively() {
    assert_eq!(parse_dow_value("sun"), Some(0));
    assert_eq!(parse_dow_value("SUN"), Some(0));
    assert_eq!(parse_dow_value("Sat"), Some(6));
    assert_eq!(parse_dow_value("3"), Some(3));
    assert_eq!(parse_dow_value("7"), None);
    assert_eq!(parse_dow_value("sunday"), None);
}

#[test]
fn weekday_list_keeps_order_and_duplicates() {
    assert_eq!(parse_dow_field("Tue,Thu"), vec![2, 4]);
    assert_eq!(parse_dow_field("1,1"), vec![1, 1]);
    assert_eq!(parse_dow_field("*"), Vec::<u8>::new());
}
