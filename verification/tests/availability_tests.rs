use capacity_planner::availability::calculate_person_available_hours;
use capacity_planner::models::{Absence, EngineError, Holiday, OverheadTask, Person, PlanningPeriod};

fn person(working_days: &str, weekly_mh: u32, country: Option<i64>) -> Person {
    Person {
        id: 1,
        name: "Alex".to_string(),
        email: "alex@example.com".to_string(),
        available_hours_per_week_mh: weekly_mh,
        working_days: working_days.to_string(),
        country_id: country,
    }
}

fn period(start: &str, end: &str) -> PlanningPeriod {
    PlanningPeriod {
        id: 10,
        name: Some("Q1".to_string()),
        start_date: start.to_string(),
        end_date: end.to_string(),
        created_at: "2025-01-01T00:00:00Z".to_string(),
    }
}

fn absence(start: &str, end: &str, days: i64) -> Absence {
    Absence {
        id: 100,
        person_id: 1,
        start_date: start.to_string(),
        end_date: end.to_string(),
        days,
        reason: Some("leave".to_string()),
        created_at: "2025-01-01T00:00:00Z".to_string(),
    }
}

fn holiday(start: &str, end: &str) -> Holiday {
    Holiday {
        id: 200,
        country_id: 1,
        name: Some("holiday".to_string()),
        start_date: start.to_string(),
        end_date: end.to_string(),
    }
}

fn task(effort_mh: u32, effort_period: &str, optional: bool, weight: Option<u32>) -> OverheadTask {
    OverheadTask {
        id: 300,
        job_id: 30,
        name: "duty".to_string(),
        effort_hours_mh: effort_mh,
        effort_period: effort_period.to_string(),
        is_optional: optional,
        optional_weight_pm: weight,
    }
}

#[test]
fn full_availability_breakdown() {
    // Two weeks Mon..Sun, 40h/week over Mon..Fri: 8h/day, 80h base.
    // 2 absence days (16h), one holiday Monday (8h), 2h/week required
    // overhead (4h), 2h/week optional overhead at weight 0.5 (4h raw, 2h
    // deducted): 80 - 16 - 8 - 4 - 2 = 50h.
    let p = person("Mon,Tue,Wed,Thu,Fri", 40_000, Some(1));
    let pp = period("2025-01-06", "2025-01-19");
    let absences = vec![absence("2025-01-07", "2025-01-08", 2)];
    let holidays = vec![holiday("2025-01-13", "2025-01-13")];
    let tasks = vec![
        task(2_000, "weekly", false, None),
        task(2_000, "weekly", true, Some(500)),
    ];
    let b = calculate_person_available_hours(&p, &pp, &absences, &holidays, &tasks).unwrap();
    assert_eq!(b.base_hours_mh, 80_000);
    assert_eq!(b.absence_days, 2);
    assert_eq!(b.absence_hours_mh, 16_000);
    assert_eq!(b.holiday_days, 1);
    assert_eq!(b.holiday_hours_mh, 8_000);
    assert_eq!(b.overhead_hours_mh, 4_000);
    assert_eq!(b.optional_overhead_hours_mh, 4_000);
    assert_eq!(b.available_hours_mh, 50_000);
}

#[test]
fn holiday_inside_absence_is_not_deducted_twice() {
    let p = person("Mon,Tue,Wed,Thu,Fri", 40_000, Some(1));
    let pp = period("2025-01-06", "2025-01-19");
    // The absence covers the holiday Monday, so the holiday deducts nothing.
    let absences = vec![absence("2025-01-13", "2025-01-14", 2)];
    let holidays = vec![holiday("2025-01-13", "2025-01-13")];
    let b = calculate_person_available_hours(&p, &pp, &absences, &holidays, &vec![]).unwrap();
    assert_eq!(b.holiday_days, 0);
    assert_eq!(b.holiday_hours_mh, 0);
    assert_eq!(b.available_hours_mh, 80_000 - 16_000);
}

#[test]
fn weekend_holiday_is_not_deducted() {
    let p = person("Mon,Tue,Wed,Thu,Fri", 40_000, Some(1));
    let pp = period("2025-01-06", "2025-01-19");
    // 2025-01-18 is a Saturday: not a working day for this person.
    let holidays = vec![holiday("2025-01-18", "2025-01-18")];
    let b = calculate_person_available_hours(&p, &pp, &vec![], &holidays, &vec![]).unwrap();
    assert_eq!(b.holiday_days, 0);
    assert_eq!(b.available_hours_mh, 80_000);
}

#[test]
fn no_country_means_no_holiday_deduction() {
    let p = person("Mon,Tue,Wed,Thu,Fri", 40_000, None);
    let pp = period("2025-01-06", "2025-01-19");
    let holidays = vec![holiday("2025-01-13", "2025-01-13")];
    let b = calculate_person_available_hours(&p, &pp, &vec![], &holidays, &vec![]).unwrap();
    assert_eq!(b.holiday_days, 0);
    assert_eq!(b.holiday_hours_mh, 0);
    assert_eq!(b.available_hours_mh, 80_000);
}

#[test]
fn multi_day_holiday_counts_overlap_working_days() {
    let p = person("Mon,Tue,Wed,Thu,Fri", 40_000, Some(1));
    let pp = period("2025-01-06", "2025-01-19");
    // Thu 2025-01-16 .. Mon 2025-01-20: overlap ends at the period's end
    // (Sun 2025-01-19), so Thu and Fri count, Sat and Sun do not.
    let holidays = vec![holiday("2025-01-16", "2025-01-20")];
    let b = calculate_person_available_hours(&p, &pp, &vec![], &holidays, &vec![]).unwrap();
    assert_eq!(b.holiday_days, 2);
    assert_eq!(b.holiday_hours_mh, 16_000);
}

#[test]
fn daily_overhead_scales_with_working_days() {
    let p = person("Mon,Tue,Wed,Thu,Fri", 40_000, None);
    let pp = period("2025-01-06", "2025-01-19");
    // 0.5h per day over 10 working days (14 days x 5 / 7) = 5h.
    let tasks = vec![task(500, "daily", false, None)];
    let b = calculate_person_available_hours(&p, &pp, &vec![], &vec![], &tasks).unwrap();
    assert_eq!(b.overhead_hours_mh, 5_000);
    assert_eq!(b.available_hours_mh, 75_000);
}

#[test]
fn unrecognized_effort_period_costs_nothing() {
    let p = person("Mon,Tue,Wed,Thu,Fri", 40_000, None);
    let pp = period("2025-01-06", "2025-01-19");
    let tasks = vec![task(2_000, "monthly", false, None)];
    let b = calculate_person_available_hours(&p, &pp, &vec![], &vec![], &tasks).unwrap();
    assert_eq!(b.overhead_hours_mh, 0);
    assert_eq!(b.available_hours_mh, 80_000);
}

#[test]
fn optional_weight_defaults_to_half() {
    let p = person("Mon,Tue,Wed,Thu,Fri", 40_000, None);
    let pp = period("2025-01-06", "2025-01-19");
    let tasks = vec![task(2_000, "weekly", true, None)];
    let b = calculate_person_available_hours(&p, &pp, &vec![], &vec![], &tasks).unwrap();
    assert_eq!(b.optional_overhead_hours_mh, 4_000);
    assert_eq!(b.available_hours_mh, 78_000);
}

#[test]
fn empty_working_days_mean_zero_capacity() {
    let p = person("", 40_000, None);
    let pp = period("2025-01-06", "2025-01-19");
    let b = calculate_person_available_hours(&p, &pp, &vec![], &vec![], &vec![]).unwrap();
    assert_eq!(b.base_hours_mh, 0);
    assert_eq!(b.available_hours_mh, 0);
}

#[test]
fn malformed_dates_fail_the_whole_computation() {
    let p = person("Mon,Tue,Wed,Thu,Fri", 40_000, Some(1));
    let bad_period = period("2025-01-32", "2025-01-19");
    let err = calculate_person_available_hours(&p, &bad_period, &vec![], &vec![], &vec![]);
    assert_eq!(err, Err(EngineError::InvalidDate));

    let pp = period("2025-01-06", "2025-01-19");
    let bad_absence = vec![absence("not-a-date", "2025-01-08", 1)];
    let err = calculate_person_available_hours(&p, &pp, &bad_absence, &vec![], &vec![]);
    assert_eq!(err, Err(EngineError::InvalidDate));

    let bad_holiday = vec![holiday("2025-02-30", "2025-02-30")];
    let err = calculate_person_available_hours(&p, &pp, &vec![], &bad_holiday, &vec![]);
    assert_eq!(err, Err(EngineError::InvalidDate));
}
