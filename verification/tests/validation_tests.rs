use capacity_planner::models::{Absence, Assignment, Holiday, NagerDateHoliday, ProjectRequirement};
use capacity_planner::cache::{
    check_person_dependencies, check_planning_period_dependencies, check_project_dependencies,
    invalidate_assignments_for_person, invalidate_assignments_for_project,
};
use capacity_planner::validation::{
    check_holiday_range, preview_holiday_import, select_holidays_to_import,
    validate_assignment_dates, AssignmentDateError,
};

fn assignment(id: i64, person_id: i64, project_id: i64, period_id: i64) -> Assignment {
    Assignment {
        id,
        person_id,
        project_id,
        planning_period_id: period_id,
        productivity_pm: 1000,
        start_date: "2025-01-06".to_string(),
        end_date: "2025-01-12".to_string(),
        is_pinned: false,
        pinned_allocation_bp: None,
        calculated_allocation_bp: Some(5_000),
        calculated_effective_mh: Some(20_000),
        last_calculated_at: Some("2025-01-10T12:00:00Z".to_string()),
    }
}

fn holiday(start: &str, end: &str) -> Holiday {
    Holiday {
        id: 1,
        country_id: 1,
        name: None,
        start_date: start.to_string(),
        end_date: end.to_string(),
    }
}

fn nager(date: &str, name: &str) -> NagerDateHoliday {
    NagerDateHoliday {
        date: date.to_string(),
        local_name: format!("local {}", name),
        name: name.to_string(),
        country_code: "AT".to_string(),
        global: true,
        types: vec!["Public".to_string()],
    }
}

#[test]
fn assignment_dates_default_to_the_period() {
    let r = validate_assignment_dates(
        &"2025-01-06".to_string(),
        &"2025-01-19".to_string(),
        &None,
        &None,
    );
    assert_eq!(
        r,
        Ok(("2025-01-06".to_string(), "2025-01-19".to_string()))
    );
}

#[test]
fn assignment_dates_error_cases() {
    let ps = "2025-01-06".to_string();
    let pe = "2025-01-19".to_string();
    assert_eq!(
        validate_assignment_dates(&ps, &pe, &Some("2025-01-01".to_string()), &None),
        Err(AssignmentDateError::StartOutsidePeriod)
    );
    assert_eq!(
        validate_assignment_dates(&ps, &pe, &None, &Some("2025-02-01".to_string())),
        Err(AssignmentDateError::EndOutsidePeriod)
    );
    assert_eq!(
        validate_assignment_dates(
            &ps,
            &pe,
            &Some("2025-01-10".to_string()),
            &Some("2025-01-08".to_string())
        ),
        Err(AssignmentDateError::StartAfterEnd)
    );
    assert_eq!(
        validate_assignment_dates(&ps, &pe, &Some("garbage".to_string()), &None),
        Err(AssignmentDateError::InvalidDate)
    );
}

#[test]
fn holiday_overlap_detection() {
    let existing = vec![holiday("2025-12-24", "2025-12-26")];
    // Touching the range at its edge overlaps.
    let r = check_holiday_range(
        &"2025-12-26".to_string(),
        &"2025-12-28".to_string(),
        &existing,
    );
    assert_eq!(r, Ok(true));
    // A disjoint range does not.
    let r = check_holiday_range(
        &"2025-12-27".to_string(),
        &"2025-12-28".to_string(),
        &existing,
    );
    assert_eq!(r, Ok(false));
    // A reversed range is rejected.
    let r = check_holiday_range(
        &"2025-12-28".to_string(),
        &"2025-12-27".to_string(),
        &existing,
    );
    assert_eq!(r, Err(AssignmentDateError::StartAfterEnd));
}

#[test]
fn preview_marks_duplicates() {
    let fetched = vec![nager("2025-01-01", "New Year"), nager("2025-12-25", "Christmas")];
    let existing = vec!["2025-01-01".to_string()];
    let preview = preview_holiday_import(
        "AT".to_string(),
        "Austria".to_string(),
        2025,
        &fetched,
        &existing,
    );
    assert_eq!(preview.country_code, "AT");
    assert_eq!(preview.country_name, "Austria");
    assert_eq!(preview.year, 2025);
    assert_eq!(preview.total_count, 2);
    assert_eq!(preview.duplicate_count, 1);
    assert_eq!(preview.new_count, 1);
    assert!(preview.holidays[0].is_duplicate);
    assert!(!preview.holidays[1].is_duplicate);
    assert_eq!(preview.holidays[1].local_name, "local Christmas");
}

#[test]
fn import_selects_only_new_dates() {
    let fetched = vec![
        nager("2025-01-01", "New Year"),
        nager("2025-12-25", "Christmas"),
        nager("2025-12-26", "Boxing Day"),
    ];
    let existing = vec!["2025-12-25".to_string()];
    let rows = select_holidays_to_import(&fetched, &existing);
    assert_eq!(rows.len(), 2);
    assert_eq!(rows[0], ("local New Year".to_string(), "2025-01-01".to_string()));
    assert_eq!(rows[1], ("local Boxing Day".to_string(), "2025-12-26".to_string()));
}

#[test]
fn invalidation_clears_only_matching_assignments() {
    let mut assignments = vec![assignment(1, 5, 7, 10), assignment(2, 6, 7, 10)];
    invalidate_assignments_for_person(&mut assignments, 5);
    assert_eq!(assignments[0].calculated_allocation_bp, None);
    assert_eq!(assignments[0].calculated_effective_mh, None);
    assert_eq!(assignments[0].last_calculated_at, None);
    // The other assignment keeps its cache, and no input field changed.
    assert_eq!(assignments[1].calculated_allocation_bp, Some(5_000));
    assert_eq!(assignments[1].calculated_effective_mh, Some(20_000));
    assert_eq!(assignments[0].person_id, 5);
    assert_eq!(assignments[0].productivity_pm, 1000);

    let mut assignments = vec![assignment(1, 5, 7, 10), assignment(2, 6, 8, 10)];
    invalidate_assignments_for_project(&mut assignments, 8);
    assert_eq!(assignments[0].calculated_allocation_bp, Some(5_000));
    assert_eq!(assignments[1].calculated_allocation_bp, None);
}

#[test]
fn dependency_counts() {
    let assignments = vec![
        assignment(1, 5, 7, 10),
        assignment(2, 5, 8, 11),
        assignment(3, 6, 7, 10),
    ];
    let absences = vec![Absence {
        id: 1,
        person_id: 5,
        start_date: "2025-01-06".to_string(),
        end_date: "2025-01-07".to_string(),
        days: 2,
        reason: None,
        created_at: "2025-01-01T00:00:00Z".to_string(),
    }];
    let requirements = vec![
        ProjectRequirement {
            id: 1,
            project_id: 7,
            planning_period_id: 10,
            required_hours_mh: 1,
            priority: 10,
        },
        ProjectRequirement {
            id: 2,
            project_id: 7,
            planning_period_id: 11,
            required_hours_mh: 1,
            priority: 10,
        },
    ];
    let deps = check_person_dependencies(&assignments, &absences, 5);
    assert_eq!(deps.assignment_count, 2);
    assert_eq!(deps.absence_count, 1);
    let deps = check_project_dependencies(&requirements, &assignments, 7);
    assert_eq!(deps.requirement_count, 2);
    assert_eq!(deps.assignment_count, 2);
    let deps = check_planning_period_dependencies(&requirements, &assignments, 10);
    assert_eq!(deps.requirement_count, 1);
    assert_eq!(deps.assignment_count, 2);
}
