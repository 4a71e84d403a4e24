use capacity_planner::models::{
    Absence, Assignment, EngineError, Holiday, OverheadTask, Person, PlanningPeriod, Project,
    ProjectRequirement,
};
use capacity_planner::optimizer::{
    optimize_assignments_proportional, OptimizationWarning, PersonContext,
};

fn period() -> PlanningPeriod {
    PlanningPeriod {
        id: 10,
        name: Some("sprint".to_string()),
        start_date: "2025-01-06".to_string(),
        end_date: "2025-01-12".to_string(),
        created_at: "2025-01-01T00:00:00Z".to_string(),
    }
}

fn ctx(person_id: i64, name: &str, weekly_mh: u32) -> PersonContext {
    PersonContext {
        person: Person {
            id: person_id,
            name: name.to_string(),
            email: format!("{}@example.com", name),
            available_hours_per_week_mh: weekly_mh,
            working_days: "Mon,Tue,Wed,Thu,Fri".to_string(),
            country_id: None,
        },
        absences: Vec::<Absence>::new(),
        holidays: Vec::<Holiday>::new(),
        tasks: Vec::<OverheadTask>::new(),
    }
}

fn assignment(id: i64, person_id: i64, project_id: i64, productivity_pm: u32) -> Assignment {
    Assignment {
        id,
        person_id,
        project_id,
        planning_period_id: 10,
        productivity_pm,
        start_date: "2025-01-06".to_string(),
        end_date: "2025-01-12".to_string(),
        is_pinned: false,
        pinned_allocation_bp: None,
        calculated_allocation_bp: None,
        calculated_effective_mh: None,
        last_calculated_at: None,
    }
}

fn pinned(id: i64, person_id: i64, project_id: i64, productivity_pm: u32, bp: u32) -> Assignment {
    let mut a = assignment(id, person_id, project_id, productivity_pm);
    a.is_pinned = true;
    a.pinned_allocation_bp = Some(bp);
    a
}

fn requirement(id: i64, project_id: i64, required_mh: u64, priority: i64) -> ProjectRequirement {
    ProjectRequirement {
        id,
        project_id,
        planning_period_id: 10,
        required_hours_mh: required_mh,
        priority,
    }
}

fn project(id: i64, name: &str) -> Project {
    Project {
        id,
        name: name.to_string(),
    }
}

#[test]
fn proportional_split_by_max_contribution() {
    // One project needing 40h; two unpinned assignments whose maximum
    // contributions are 30h and 10h (both at productivity 0.8): the first
    // receives 75% of the distributed hours, the second 25%, and both end
    // at 100% allocation since the requirement matches the capacity.
    let people = vec![ctx(1, "alex", 37_500), ctx(2, "blake", 12_500)];
    let assignments = vec![assignment(101, 1, 7, 800), assignment(102, 2, 7, 800)];
    let requirements = vec![requirement(1, 7, 40_000, 10)];
    let projects = vec![project(7, "atlas")];
    let r = optimize_assignments_proportional(&period(), &assignments, &requirements, &projects, &people)
        .unwrap();
    assert!(r.success);
    assert_eq!(r.calculations.len(), 2);
    assert_eq!(r.calculations[0].assignment_id, 101);
    assert_eq!(r.calculations[0].calculated_allocation_bp, 10_000);
    assert_eq!(r.calculations[0].calculated_effective_mh, 30_000);
    assert_eq!(r.calculations[1].assignment_id, 102);
    assert_eq!(r.calculations[1].calculated_allocation_bp, 10_000);
    assert_eq!(r.calculations[1].calculated_effective_mh, 10_000);
    // 30:10 = 75%:25% of the 40 distributed hours.
    assert_eq!(
        r.calculations[0].calculated_effective_mh * 25,
        r.calculations[1].calculated_effective_mh * 75
    );
    assert!(r.infeasible_projects.is_empty());
    assert!(r.warnings.is_empty());
}

#[test]
fn higher_priority_is_served_first() {
    // One person with 40h; two projects each needing 40h. The blocker-tier
    // project is fully staffed; the low-tier one gets nothing and reports
    // the whole gap.
    let people = vec![ctx(1, "alex", 40_000)];
    let assignments = vec![assignment(101, 1, 7, 1000), assignment(102, 1, 8, 1000)];
    let requirements = vec![requirement(1, 7, 40_000, 0), requirement(2, 8, 40_000, 30)];
    let projects = vec![project(7, "low"), project(8, "blocker")];
    let r = optimize_assignments_proportional(&period(), &assignments, &requirements, &projects, &people)
        .unwrap();
    // The blocker project's assignment is served first and takes all 100%;
    // the low project then has no capacity left at all, so its pass records
    // nothing.
    assert_eq!(r.calculations.len(), 1);
    assert_eq!(r.calculations[0].assignment_id, 102);
    assert_eq!(r.calculations[0].calculated_allocation_bp, 10_000);
    assert_eq!(r.calculations[0].calculated_effective_mh, 40_000);
    // Only the low project is infeasible, by the full 40h.
    assert_eq!(r.infeasible_projects.len(), 1);
    assert_eq!(r.infeasible_projects[0].project_id, 7);
    assert_eq!(r.infeasible_projects[0].project_name, "low");
    assert_eq!(r.infeasible_projects[0].shortfall_mh, 40_000);
    assert_eq!(r.infeasible_projects[0].shortfall_bp, 10_000);
}

#[test]
fn same_priority_ties_break_by_project_id() {
    let people = vec![ctx(1, "alex", 40_000)];
    let assignments = vec![assignment(101, 1, 9, 1000), assignment(102, 1, 7, 1000)];
    let requirements = vec![requirement(1, 9, 20_000, 10), requirement(2, 7, 20_000, 10)];
    let projects = vec![project(9, "nine"), project(7, "seven")];
    let r = optimize_assignments_proportional(&period(), &assignments, &requirements, &projects, &people)
        .unwrap();
    // Project 7 is served before project 9 within the same tier.
    assert_eq!(r.calculations[0].assignment_id, 102);
    assert_eq!(r.calculations[1].assignment_id, 101);
    assert_eq!(r.calculations[0].calculated_allocation_bp, 5_000);
    assert_eq!(r.calculations[1].calculated_allocation_bp, 5_000);
}

#[test]
fn pinned_allocation_is_honored_first() {
    // Person pinned at 50% on project 7; the remaining 50% (20h) goes to
    // the unpinned assignment on project 8.
    let people = vec![ctx(1, "alex", 40_000)];
    let assignments = vec![pinned(101, 1, 7, 1000, 5_000), assignment(102, 1, 8, 1000)];
    let requirements = vec![requirement(1, 7, 20_000, 20), requirement(2, 8, 40_000, 10)];
    let projects = vec![project(7, "pinned"), project(8, "rest")];
    let r = optimize_assignments_proportional(&period(), &assignments, &requirements, &projects, &people)
        .unwrap();
    assert_eq!(r.calculations.len(), 2);
    assert_eq!(r.calculations[0].assignment_id, 101);
    assert_eq!(r.calculations[0].calculated_allocation_bp, 5_000);
    assert_eq!(r.calculations[0].calculated_effective_mh, 20_000);
    assert_eq!(r.calculations[1].assignment_id, 102);
    assert_eq!(r.calculations[1].calculated_allocation_bp, 5_000);
    assert_eq!(r.calculations[1].calculated_effective_mh, 20_000);
    // Project 8 wanted 40h but only 20h of capacity remained.
    assert_eq!(r.infeasible_projects.len(), 1);
    assert_eq!(r.infeasible_projects[0].project_id, 8);
    assert_eq!(r.infeasible_projects[0].shortfall_mh, 20_000);
    assert_eq!(r.infeasible_projects[0].shortfall_bp, 5_000);
}

#[test]
fn over_pinned_person_is_flagged() {
    let people = vec![ctx(1, "alex", 40_000)];
    let assignments = vec![
        pinned(101, 1, 7, 1000, 6_000),
        pinned(102, 1, 8, 1000, 5_000),
    ];
    let requirements = vec![requirement(1, 7, 10_000, 10), requirement(2, 8, 10_000, 10)];
    let projects = vec![project(7, "a"), project(8, "b")];
    let r = optimize_assignments_proportional(&period(), &assignments, &requirements, &projects, &people)
        .unwrap();
    assert!(r.warnings.contains(&OptimizationWarning::PinnedOverCommitted {
        person_id: 1,
        pinned_total_bp: 11_000,
    }));
}

#[test]
fn missing_requirement_is_flagged_and_skipped() {
    let people = vec![ctx(1, "alex", 40_000)];
    let assignments = vec![assignment(101, 1, 7, 1000), assignment(102, 1, 8, 1000)];
    let requirements = vec![requirement(1, 7, 20_000, 10)];
    let projects = vec![project(7, "kept"), project(8, "orphan")];
    let r = optimize_assignments_proportional(&period(), &assignments, &requirements, &projects, &people)
        .unwrap();
    assert!(r.warnings.contains(&OptimizationWarning::MissingRequirement { project_id: 8 }));
    // Only the project with a requirement received a calculation.
    assert_eq!(r.calculations.len(), 1);
    assert_eq!(r.calculations[0].assignment_id, 101);
}

#[test]
fn empty_run_warns_and_does_nothing() {
    let people = vec![ctx(1, "alex", 40_000)];
    let r = optimize_assignments_proportional(
        &period(),
        &Vec::<Assignment>::new(),
        &Vec::<ProjectRequirement>::new(),
        &Vec::<Project>::new(),
        &people,
    )
    .unwrap();
    assert!(r.success);
    assert!(r.calculations.is_empty());
    assert!(r.infeasible_projects.is_empty());
    assert_eq!(r.warnings, vec![OptimizationWarning::NoAssignments]);
}

#[test]
fn unknown_person_aborts_the_run() {
    let people = vec![ctx(1, "alex", 40_000)];
    let assignments = vec![assignment(101, 99, 7, 1000)];
    let requirements = vec![requirement(1, 7, 20_000, 10)];
    let projects = vec![project(7, "atlas")];
    let r = optimize_assignments_proportional(&period(), &assignments, &requirements, &projects, &people);
    match r {
        Err(EngineError::ReferenceNotFound { missing_id }) => assert_eq!(missing_id, 99),
        other => panic!("expected a missing reference, got {:?}", other.is_ok()),
    }
}

#[test]
fn invalid_date_aborts_the_run() {
    let people = vec![ctx(1, "alex", 40_000)];
    let mut bad = period();
    bad.end_date = "2025-02-30".to_string();
    let assignments = vec![assignment(101, 1, 7, 1000)];
    let requirements = vec![requirement(1, 7, 20_000, 10)];
    let projects = vec![project(7, "atlas")];
    let r = optimize_assignments_proportional(&bad, &assignments, &requirements, &projects, &people);
    match r {
        Err(EngineError::InvalidDate) => {},
        other => panic!("expected an invalid date error, got {:?}", other.is_ok()),
    }
}

#[test]
fn rerunning_on_unchanged_inputs_gives_identical_results() {
    let people = vec![ctx(1, "alex", 37_500), ctx(2, "blake", 12_500)];
    let mut assignments = vec![assignment(101, 1, 7, 800), assignment(102, 2, 7, 800)];
    let requirements = vec![requirement(1, 7, 30_000, 10)];
    let projects = vec![project(7, "atlas")];
    let first = optimize_assignments_proportional(
        &period(),
        &assignments,
        &requirements,
        &projects,
        &people,
    )
    .unwrap();
    // Persist the first run's calculations, as the command layer would.
    for calc in &first.calculations {
        for a in assignments.iter_mut() {
            if a.id == calc.assignment_id {
                a.calculated_allocation_bp = Some(calc.calculated_allocation_bp);
                a.calculated_effective_mh = Some(calc.calculated_effective_mh);
                a.last_calculated_at = Some("2025-01-10T12:00:00Z".to_string());
            }
        }
    }
    let second = optimize_assignments_proportional(
        &period(),
        &assignments,
        &requirements,
        &projects,
        &people,
    )
    .unwrap();
    assert_eq!(first.calculations, second.calculations);
    assert_eq!(first.warnings, second.warnings);
    assert_eq!(
        first.infeasible_projects.len(),
        second.infeasible_projects.len()
    );
}

#[test]
fn zero_productivity_contributes_nothing() {
    let people = vec![ctx(1, "alex", 40_000)];
    let assignments = vec![assignment(101, 1, 7, 0)];
    let requirements = vec![requirement(1, 7, 20_000, 10)];
    let projects = vec![project(7, "atlas")];
    let r = optimize_assignments_proportional(&period(), &assignments, &requirements, &projects, &people)
        .unwrap();
    // No capacity at all: distribution is skipped, the project is
    // infeasible by its full requirement.
    assert_eq!(r.calculations.len(), 0);
    assert_eq!(r.infeasible_projects.len(), 1);
    assert_eq!(r.infeasible_projects[0].shortfall_mh, 20_000);
}

#[test]
fn zero_capacity_project_with_zero_requirement_is_not_infeasible() {
    let people = vec![ctx(1, "alex", 40_000)];
    let assignments = vec![assignment(101, 1, 7, 0)];
    let requirements = vec![requirement(1, 7, 0, 10)];
    let projects = vec![project(7, "atlas")];
    let r = optimize_assignments_proportional(&period(), &assignments, &requirements, &projects, &people)
        .unwrap();
    assert!(r.infeasible_projects.is_empty());
}

#[test]
fn capacity_cap_within_one_project_uses_the_entry_snapshot() {
    // Two unpinned assignments of the same person on one project: the cap
    // on each allocation uses the person's remaining capacity as it stood
    // when the project was taken up, so both convert their full share.
    let people = vec![ctx(1, "alex", 40_000)];
    let assignments = vec![assignment(101, 1, 7, 1000), assignment(102, 1, 7, 1000)];
    let requirements = vec![requirement(1, 7, 80_000, 10)];
    let projects = vec![project(7, "atlas")];
    let r = optimize_assignments_proportional(&period(), &assignments, &requirements, &projects, &people)
        .unwrap();
    assert_eq!(r.calculations.len(), 2);
    assert_eq!(r.calculations[0].calculated_allocation_bp, 10_000);
    assert_eq!(r.calculations[1].calculated_allocation_bp, 10_000);
    assert!(r.infeasible_projects.is_empty());
}

#[test]
fn pinned_without_percentage_counts_as_zero() {
    let people = vec![ctx(1, "alex", 40_000)];
    let mut a = assignment(101, 1, 7, 1000);
    a.is_pinned = true;
    a.pinned_allocation_bp = None;
    let requirements = vec![requirement(1, 7, 10_000, 10)];
    let projects = vec![project(7, "atlas")];
    let r = optimize_assignments_proportional(&period(), &vec![a], &requirements, &projects, &people)
        .unwrap();
    assert_eq!(r.calculations.len(), 1);
    assert_eq!(r.calculations[0].calculated_allocation_bp, 0);
    assert_eq!(r.calculations[0].calculated_effective_mh, 0);
    assert_eq!(r.infeasible_projects.len(), 1);
}
