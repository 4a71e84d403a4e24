use capacity_planner::availability::Breakdown;
use capacity_planner::models::{Assignment, Project, ProjectRequirement};
use capacity_planner::reporting::{
    get_capacity_overview, get_project_staffing, is_staffing_viable, person_capacity, staffing_bp,
    utilization_bp, PersonAvailability,
};

fn breakdown(available_mh: u64) -> Breakdown {
    Breakdown {
        available_hours_mh: available_mh,
        base_hours_mh: available_mh,
        absence_days: 0,
        absence_hours_mh: 0,
        holiday_days: 0,
        holiday_hours_mh: 0,
        overhead_hours_mh: 0,
        optional_overhead_hours_mh: 0,
    }
}

fn row(person_id: i64, name: &str, available_mh: u64) -> PersonAvailability {
    PersonAvailability {
        person_id,
        person_name: name.to_string(),
        breakdown: breakdown(available_mh),
    }
}

fn cached_assignment(
    id: i64,
    person_id: i64,
    project_id: i64,
    allocation_bp: u32,
    effective_mh: u64,
) -> Assignment {
    Assignment {
        id,
        person_id,
        project_id,
        planning_period_id: 10,
        productivity_pm: 1000,
        start_date: "2025-01-06".to_string(),
        end_date: "2025-01-12".to_string(),
        is_pinned: false,
        pinned_allocation_bp: None,
        calculated_allocation_bp: Some(allocation_bp),
        calculated_effective_mh: Some(effective_mh),
        last_calculated_at: Some("2025-01-10T12:00:00Z".to_string()),
    }
}

fn requirement(project_id: i64, required_mh: u64) -> ProjectRequirement {
    ProjectRequirement {
        id: 1,
        project_id,
        planning_period_id: 10,
        required_hours_mh: required_mh,
        priority: 10,
    }
}

#[test]
fn viability_tolerance_thresholds() {
    // 99.96% is viable, 99.95% is the threshold itself, 99.94% is not.
    assert!(is_staffing_viable(9_996));
    assert!(is_staffing_viable(9_995));
    assert!(!is_staffing_viable(9_994));
}

#[test]
fn staffing_tolerance_end_to_end() {
    let people = vec![row(1, "alex", 40_000)];
    let project = Project {
        id: 7,
        name: "atlas".to_string(),
    };
    // 9996 of 10000 required milli-hours: 99.96%, viable, no shortfall.
    let assignments = vec![cached_assignment(101, 1, 7, 2_499, 9_996)];
    let staffed = get_project_staffing(&project, &requirement(7, 10_000), &assignments, &people)
        .unwrap();
    assert_eq!(staffed.staffing_bp, 9_996);
    assert!(staffed.is_viable);
    assert_eq!(staffed.shortfall_mh, 0);

    // 9994 of 10000: 99.94%, not viable, shortfall of the missing sliver.
    let assignments = vec![cached_assignment(101, 1, 7, 2_499, 9_994)];
    let staffed = get_project_staffing(&project, &requirement(7, 10_000), &assignments, &people)
        .unwrap();
    assert_eq!(staffed.staffing_bp, 9_994);
    assert!(!staffed.is_viable);
    assert_eq!(staffed.shortfall_mh, 6);
}

#[test]
fn utilization_and_over_commitment() {
    assert_eq!(utilization_bp(20_000, 40_000), 5_000);
    assert_eq!(utilization_bp(44_000, 40_000), 11_000);
    assert_eq!(utilization_bp(1, 0), 0);
    assert_eq!(staffing_bp(5_000, 0), 0);

    let r = row(1, "alex", 40_000);
    // 110% cached allocation: over-committed.
    let assignments = vec![cached_assignment(101, 1, 7, 11_000, 44_000)];
    let pc = person_capacity(&r, &assignments, &vec![]);
    assert_eq!(pc.total_allocated_hours_mh, 44_000);
    assert_eq!(pc.utilization_bp, 11_000);
    assert!(pc.is_over_committed);

    // Exactly 100% is not over-committed.
    let assignments = vec![cached_assignment(101, 1, 7, 10_000, 40_000)];
    let pc = person_capacity(&r, &assignments, &vec![]);
    assert_eq!(pc.utilization_bp, 10_000);
    assert!(!pc.is_over_committed);
}

#[test]
fn pinned_assignments_display_their_pinned_percentage() {
    let r = row(1, "alex", 40_000);
    let mut a = cached_assignment(101, 1, 7, 3_000, 12_000);
    a.is_pinned = true;
    a.pinned_allocation_bp = Some(5_000);
    let projects = vec![Project {
        id: 7,
        name: "atlas".to_string(),
    }];
    let pc = person_capacity(&r, &vec![a], &projects);
    assert_eq!(pc.assignments.len(), 1);
    assert_eq!(pc.assignments[0].allocation_percentage_bp, 5_000);
    assert_eq!(pc.assignments[0].project_name, "atlas");
    assert!(pc.assignments[0].is_pinned);
    // The allocated rollup follows the displayed (pinned) percentage.
    assert_eq!(pc.total_allocated_hours_mh, 20_000);
}

#[test]
fn missing_cache_counts_as_zero() {
    let r = row(1, "alex", 40_000);
    let mut a = cached_assignment(101, 1, 7, 0, 0);
    a.calculated_allocation_bp = None;
    a.calculated_effective_mh = None;
    let pc = person_capacity(&r, &vec![a], &vec![]);
    assert_eq!(pc.total_allocated_hours_mh, 0);
    assert_eq!(pc.total_effective_hours_mh, 0);
    assert_eq!(pc.utilization_bp, 0);
    assert!(!pc.is_over_committed);
}

#[test]
fn overview_counts_and_rows() {
    let people = vec![row(1, "alex", 40_000), row(2, "blake", 40_000)];
    let projects = vec![
        Project {
            id: 7,
            name: "atlas".to_string(),
        },
        Project {
            id: 8,
            name: "orphan".to_string(),
        },
    ];
    let requirements = vec![requirement(7, 40_000)];
    let assignments = vec![
        cached_assignment(101, 1, 7, 11_000, 44_000),
        cached_assignment(102, 2, 7, 2_500, 10_000),
        // Unknown person: skipped by the overview, not an error.
        cached_assignment(103, 99, 7, 10_000, 40_000),
    ];
    let overview = get_capacity_overview(&people, &projects, &requirements, &assignments);
    assert_eq!(overview.total_people, 2);
    assert_eq!(overview.over_committed_people, 1);
    // Only the project with a requirement row appears.
    assert_eq!(overview.total_projects, 1);
    assert_eq!(overview.project_staffing.len(), 1);
    let staffed = &overview.project_staffing[0];
    assert_eq!(staffed.project_id, 7);
    // 44h + 10h of cached effective hours against 40h required: viable.
    assert_eq!(staffed.total_effective_hours_mh, 54_000);
    assert!(staffed.is_viable);
    // The unknown person's row was skipped.
    assert_eq!(staffed.assigned_people.len(), 2);
    assert_eq!(overview.under_staffed_projects, 0);
}

#[test]
fn project_staffing_unknown_person_is_an_error() {
    let people = vec![row(1, "alex", 40_000)];
    let project = Project {
        id: 7,
        name: "atlas".to_string(),
    };
    let assignments = vec![cached_assignment(101, 99, 7, 10_000, 40_000)];
    let r = get_project_staffing(&project, &requirement(7, 40_000), &assignments, &people);
    assert!(r.is_err());
}

#[test]
fn staffing_exactly_at_the_threshold_is_viable() {
    let people = vec![row(1, "alex", 40_000)];
    let project = Project {
        id: 7,
        name: "atlas".to_string(),
    };
    let assignments = vec![cached_assignment(101, 1, 7, 2_499, 9_995)];
    let staffed = get_project_staffing(&project, &requirement(7, 10_000), &assignments, &people)
        .unwrap();
    assert_eq!(staffed.staffing_bp, 9_995);
    assert!(staffed.is_viable);
    assert_eq!(staffed.shortfall_mh, 0);
}

#[test]
fn zero_requirement_shows_zero_staffing_and_no_shortfall() {
    let people = vec![row(1, "alex", 40_000)];
    let project = Project {
        id: 7,
        name: "atlas".to_string(),
    };
    let assignments = vec![cached_assignment(101, 1, 7, 1_000, 4_000)];
    let staffed = get_project_staffing(&project, &requirement(7, 0), &assignments, &people)
        .unwrap();
    assert_eq!(staffed.staffing_bp, 0);
    assert!(!staffed.is_viable);
    assert_eq!(staffed.shortfall_mh, 0);
}
