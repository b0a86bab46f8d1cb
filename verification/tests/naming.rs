//! Unit tests for folder naming, slugs, and date parsing.

use photoflow::naming;
use photoflow::naming::Date;

#[test]
fn month_dir_names_have_numeric_prefix() {
    assert_eq!(naming::month_dir_name(6).unwrap(), "06-June");
    assert_eq!(naming::month_dir_name(11).unwrap(), "11-November");
    assert_eq!(naming::month_dir_name(1).unwrap(), "01-January");
    assert_eq!(naming::month_dir_name(12).unwrap(), "12-December");
}

#[test]
fn month_dir_name_rejects_out_of_range() {
    assert!(naming::month_dir_name(0).is_err());
    assert!(naming::month_dir_name(13).is_err());
}

#[test]
fn year_dir_name_is_zero_padded() {
    assert_eq!(naming::year_dir_name(2026), "2026");
    assert_eq!(naming::year_dir_name(99), "0099");
}

#[test]
fn slug_lowercases_collapses_and_strips() {
    assert_eq!(naming::export_slug("Charlie Bean!"), "charlie-bean");
    assert_eq!(naming::export_slug("  Hello__World  "), "hello-world");
    assert_eq!(naming::export_slug("a---b"), "a-b");
    assert_eq!(
        naming::export_slug("Trip 2026: Iceland"),
        "trip-2026-iceland"
    );
    assert_eq!(naming::export_slug("!!!"), "");
}

#[test]
fn export_leaf_name_is_date_then_slug() {
    let date = Date::from_ymd_opt(2026, 6, 15).unwrap();
    assert_eq!(
        naming::export_leaf_name(&date, "charlie-bean"),
        "2026-06-15-charlie-bean"
    );
}

#[test]
fn parse_year_month_round_trips() {
    assert_eq!(naming::parse_year_month("2026-06").unwrap(), (2026, 6));
    assert!(naming::parse_year_month("2026-13").is_err());
    assert!(naming::parse_year_month("nope").is_err());
}

#[test]
fn parse_date_validates_format() {
    assert_eq!(
        naming::parse_date("2026-06-15").unwrap(),
        Date::from_ymd_opt(2026, 6, 15).unwrap()
    );
    assert!(naming::parse_date("2026-6-15").is_err() || naming::parse_date("2026-06-32").is_err());
    assert!(naming::parse_date("not-a-date").is_err());
}

#[test]
fn year_dir_name_pads_negative_years_after_the_sign() {
    assert_eq!(naming::year_dir_name(-5), "-005");
    assert_eq!(naming::year_dir_name(-12345), "-12345");
    assert_eq!(naming::year_dir_name(0), "0000");
    assert_eq!(naming::year_dir_name(123456), "123456");
}

#[test]
fn month_dir_name_reports_the_bad_month() {
    match naming::month_dir_name(13) {
        Err(naming::NamingError::InvalidMonth(m)) => assert_eq!(m, 13),
        other => panic!("unexpected {other:?}"),
    }
}

#[test]
fn month_dir_names_sort_in_calendar_order() {
    let names: Vec<String> = (1..=12).map(|m| naming::month_dir_name(m).unwrap()).collect();
    let mut sorted = names.clone();
    sorted.sort();
    assert_eq!(names, sorted);
    let years: Vec<String> = [7, 99, 100, 999, 2025, 2026].iter().map(|y| naming::year_dir_name(*y)).collect();
    let mut sorted_years = years.clone();
    sorted_years.sort();
    assert_eq!(years, sorted_years);
}

#[test]
fn slug_is_idempotent_and_well_formed() {
    for input in ["Charlie Bean!", "  Hello__World  ", "--Édith Piaf--", "a_-_b", "UPPER lower 123"] {
        let once = naming::export_slug(input);
        assert_eq!(naming::export_slug(&once), once);
        assert!(!once.starts_with('-') && !once.ends_with('-') && !once.contains("--"));
        assert!(once.chars().all(|c| c.is_ascii_lowercase() || c.is_ascii_digit() || c == '-'));
    }
    assert_eq!(naming::export_slug("--Édith Piaf--"), "dith-piaf");
    assert_eq!(naming::export_slug("a!b"), "ab");
}

#[test]
fn parse_year_month_errors_say_why() {
    match naming::parse_year_month("2026-00") {
        Err(naming::NamingError::InvalidMonth(m)) => assert_eq!(m, 0),
        other => panic!("unexpected {other:?}"),
    }
    match naming::parse_year_month("20x6-06") {
        Err(naming::NamingError::InvalidDate { input, expected }) => {
            assert_eq!(input, "20x6-06");
            assert_eq!(expected, naming::YEAR_MONTH_FORMAT);
        }
        other => panic!("unexpected {other:?}"),
    }
    assert_eq!(naming::parse_year_month("+2026-+07").unwrap(), (2026, 7));
    assert!(naming::parse_year_month("-2026-07").is_err());
    assert!(naming::parse_year_month("2026--7").is_err());
    assert!(naming::parse_year_month("99999999999-07").is_err());
}

#[test]
fn parse_year_month_reads_back_month_folder_names() {
    for (y, m) in [(0, 1), (99, 12), (2026, 6), (123456, 9)] {
        let text = format!("{}-{:02}", naming::year_dir_name(y), m);
        assert_eq!(naming::parse_year_month(&text).unwrap(), (y, m));
    }
}

#[test]
fn dates_are_validated() {
    assert!(Date::from_ymd_opt(2024, 2, 29).is_some());
    assert!(Date::from_ymd_opt(2023, 2, 29).is_none());
    assert!(Date::from_ymd_opt(1900, 2, 29).is_none());
    assert!(Date::from_ymd_opt(2000, 2, 29).is_some());
    assert!(Date::from_ymd_opt(2026, 4, 31).is_none());
    assert!(Date::from_ymd_opt(2026, 13, 1).is_none());
    let d = Date::from_ymd_opt(2026, 6, 15).unwrap();
    assert_eq!((d.year(), d.month(), d.day()), (2026, 6, 15));
    let today = naming::current_date().unwrap();
    assert!(Date::from_ymd_opt(today.year(), today.month(), today.day()).is_some());
    let (y, m) = naming::current_year_month().unwrap();
    assert!((1..=12).contains(&m) && y == today.year() || m != today.month());
}

#[test]
fn export_leaf_name_pads_small_years_and_signs_large_ones() {
    let d = Date::from_ymd_opt(7, 1, 2).unwrap();
    assert_eq!(naming::export_leaf_name(&d, "x"), "0007-01-02-x");
    let d = Date::from_ymd_opt(12345, 11, 30).unwrap();
    assert_eq!(naming::export_leaf_name(&d, "y"), "+12345-11-30-y");
    let d = Date::from_ymd_opt(-1, 3, 4).unwrap();
    assert_eq!(naming::export_leaf_name(&d, "z"), "-0001-03-04-z");
}

#[test]
fn parse_date_reports_the_input() {
    match naming::parse_date("2026-02-30") {
        Err(naming::NamingError::InvalidDate { input, expected }) => {
            assert_eq!(input, "2026-02-30");
            assert_eq!(expected, naming::FULL_DATE_FORMAT);
        }
        other => panic!("unexpected {other:?}"),
    }
}

#[test]
fn clock_readings_become_dates() {
    let d = naming::date_from_reading(Some((2026, 6, 15))).unwrap();
    assert_eq!((d.year(), d.month(), d.day()), (2026, 6, 15));
    assert!(naming::date_from_reading(Some((2026, 2, 30))).is_none());
    assert!(naming::date_from_reading(None).is_none());
}
