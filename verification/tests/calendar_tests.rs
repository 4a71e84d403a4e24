use capacity_planner::calendar::{count_working_days, is_working_day, parse_working_days};
use capacity_planner::dates::{parse_date, weekday_of_index, Date, Weekday};

#[test]
fn parse_working_days_weekdays() {
    let set = parse_working_days("Mon,Tue,Wed,Thu,Fri");
    assert!(set.monday);
    assert!(set.tuesday);
    assert!(set.wednesday);
    assert!(set.thursday);
    assert!(set.friday);
    assert!(!set.saturday);
    assert!(!set.sunday);
}

#[test]
fn parse_working_days_empty() {
    let set = parse_working_days("");
    assert!(!set.monday);
    assert!(!set.tuesday);
    assert!(!set.wednesday);
    assert!(!set.thursday);
    assert!(!set.friday);
    assert!(!set.saturday);
    assert!(!set.sunday);
}

#[test]
fn parse_working_days_trims_whitespace() {
    let set = parse_working_days("  Sat ,  Sun ");
    assert!(set.saturday);
    assert!(set.sunday);
    assert!(!set.monday);
}

#[test]
fn parse_working_days_drops_unrecognized_tokens() {
    let set = parse_working_days("Mon,Bogus,Wed");
    assert!(set.monday);
    assert!(set.wednesday);
    assert!(!set.tuesday);
    assert!(!set.thursday);
    assert!(!set.friday);
}

#[test]
fn count_working_days_counts_unrecognized_tokens() {
    // The count keeps every non-empty token, recognized or not: this is the
    // deliberate asymmetry against the set parser.
    assert_eq!(count_working_days("Mon,Bogus,Wed"), 3);
    assert_eq!(count_working_days("Mon,Tue,Wed,Thu,Fri"), 5);
    assert_eq!(count_working_days(""), 0);
    assert_eq!(count_working_days(" , ,"), 0);
    assert_eq!(count_working_days("Mon,,Tue"), 2);
}

#[test]
fn is_working_day_empty_set_is_always_false() {
    let empty = parse_working_days("");
    for day in 1..=28u32 {
        let date = Date {
            year: 2025,
            month: 3,
            day,
        };
        assert!(!is_working_day(&date, &empty));
    }
}

#[test]
fn is_working_day_weekday_membership() {
    let week = parse_working_days("Mon,Tue,Wed,Thu,Fri");
    // 2026-10-12 is a Monday.
    let monday = Date {
        year: 2026,
        month: 10,
        day: 12,
    };
    let saturday = Date {
        year: 2026,
        month: 10,
        day: 17,
    };
    assert!(is_working_day(&monday, &week));
    assert!(!is_working_day(&saturday, &week));
}

#[test]
fn parse_date_valid() {
    let d = parse_date("2024-02-29").expect("leap day parses");
    assert_eq!((d.year, d.month, d.day), (2024, 2, 29));
    let d = parse_date("0000-01-01").expect("year zero parses");
    assert_eq!((d.year, d.month, d.day), (0, 1, 1));
    let d = parse_date("9999-12-31").expect("largest date parses");
    assert_eq!((d.year, d.month, d.day), (9999, 12, 31));
}

#[test]
fn parse_date_invalid() {
    assert!(parse_date("2023-02-29").is_none());
    assert!(parse_date("2023-13-01").is_none());
    assert!(parse_date("2023-00-10").is_none());
    assert!(parse_date("2023-04-31").is_none());
    assert!(parse_date("banana").is_none());
    assert!(parse_date("2023-4-01").is_none());
    assert!(parse_date("2023-04-01 ").is_none());
    assert!(parse_date("").is_none());
}

#[test]
fn weekdays_match_known_dates() {
    // 1970-01-01 was a Thursday, 2000-01-01 a Saturday, 2026-10-12 a Monday.
    let thursday = Date {
        year: 1970,
        month: 1,
        day: 1,
    };
    assert_eq!(thursday.weekday(), Weekday::Thursday);
    let saturday = Date {
        year: 2000,
        month: 1,
        day: 1,
    };
    assert_eq!(saturday.weekday(), Weekday::Saturday);
    let monday = Date {
        year: 2026,
        month: 10,
        day: 12,
    };
    assert_eq!(monday.weekday(), Weekday::Monday);
    assert_eq!(weekday_of_index(monday.day_index() + 1), Weekday::Tuesday);
}

#[test]
fn day_index_spans() {
    let start = parse_date("2024-01-01").unwrap().day_index();
    let end = parse_date("2024-12-31").unwrap().day_index();
    assert_eq!(end - start + 1, 366);
    let start = parse_date("2023-01-01").unwrap().day_index();
    let end = parse_date("2023-12-31").unwrap().day_index();
    assert_eq!(end - start + 1, 365);
    let a = parse_date("2025-02-28").unwrap().day_index();
    let b = parse_date("2025-03-01").unwrap().day_index();
    assert_eq!(b - a, 1);
}
