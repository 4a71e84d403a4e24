//! The calculated-value cache policy: before a person, project or planning
//! period is deleted, the three cached fields of every assignment that
//! references it are cleared, so that snapshots taken mid-deletion and
//! assignments that survive the cascade never show stale figures.

use vstd::prelude::*;

use crate::models::Absence;
use crate::models::Assignment;
use crate::models::PersonDependencies;
use crate::models::PlanningPeriodDependencies;
use crate::models::ProjectDependencies;
use crate::models::ProjectRequirement;

verus! {

/// An assignment with its calculated-value cache cleared.
pub open spec fn cleared(a: Assignment) -> Assignment {
    Assignment {
        calculated_allocation_bp: None,
        calculated_effective_mh: None,
        last_calculated_at: None,
        ..a
    }
}

/// Clears the cached fields of every assignment that satisfies `hit`,
/// leaving every other assignment untouched.
fn invalidate_where(assignments: &mut Vec<Assignment>, person_id: Option<i64>, project_id: Option<
    i64,
>, planning_period_id: Option<i64>)
    ensures
        final (assignments)@.len() == old(assignments)@.len(),
        forall|k: int|
            0 <= k < old(assignments)@.len() ==> #[trigger] final (assignments)@[k] == (
            if reference_hit(old(assignments)@[k], person_id, project_id, planning_period_id) {
                cleared(old(assignments)@[k])
            } else {
                old(assignments)@[k]
            }),
{
    let n = assignments.len();
    let mut i: usize = 0;
    while i < n
        invariant
            0 <= i <= n,
            n == assignments@.len(),
            assignments@.len() == old(assignments)@.len(),
            forall|k: int|
                i <= k < n ==> #[trigger] assignments@[k] == old(assignments)@[k],
            forall|k: int|
                0 <= k < i ==> #[trigger] assignments@[k] == (
                if reference_hit(old(assignments)@[k], person_id, project_id, planning_period_id) {
                    cleared(old(assignments)@[k])
                } else {
                    old(assignments)@[k]
                }),
        decreases n - i,
    {
        let hit = {
            let a = &assignments[i];
            (match person_id {
                Some(id) => a.person_id == id,
                None => false,
            }) || (match project_id {
                Some(id) => a.project_id == id,
                None => false,
            }) || (match planning_period_id {
                Some(id) => a.planning_period_id == id,
                None => false,
            })
        };
        if hit {
            assignments[i].calculated_allocation_bp = None;
            assignments[i].calculated_effective_mh = None;
            assignments[i].last_calculated_at = None;
        }
        i = i + 1;
    }
}

/// Whether an assignment references one of the entities being deleted.
pub open spec fn reference_hit(
    a: Assignment,
    person_id: Option<i64>,
    project_id: Option<i64>,
    planning_period_id: Option<i64>,
) -> bool {
    ||| (person_id matches Some(id) && a.person_id == id)
    ||| (project_id matches Some(id) && a.project_id == id)
    ||| (planning_period_id matches Some(id) && a.planning_period_id == id)
}

/// Clears the cached fields of every assignment of a person about to be
/// deleted.
pub fn invalidate_assignments_for_person(assignments: &mut Vec<Assignment>, person_id: i64)
    ensures
        final (assignments)@.len() == old(assignments)@.len(),
        forall|k: int|
            0 <= k < old(assignments)@.len() ==> #[trigger] final (assignments)@[k] == (
            if old(assignments)@[k].person_id == person_id {
                cleared(old(assignments)@[k])
            } else {
                old(assignments)@[k]
            }),
{
    invalidate_where(assignments, Some(person_id), None, None);
}

/// Clears the cached fields of every assignment of a project about to be
/// deleted.
pub fn invalidate_assignments_for_project(assignments: &mut Vec<Assignment>, project_id: i64)
    ensures
        final (assignments)@.len() == old(assignments)@.len(),
        forall|k: int|
            0 <= k < old(assignments)@.len() ==> #[trigger] final (assignments)@[k] == (
            if old(assignments)@[k].project_id == project_id {
                cleared(old(assignments)@[k])
            } else {
                old(assignments)@[k]
            }),
{
    invalidate_where(assignments, None, Some(project_id), None);
}

/// Clears the cached fields of every assignment of a planning period about
/// to be deleted.
pub fn invalidate_assignments_for_planning_period(
    assignments: &mut Vec<Assignment>,
    planning_period_id: i64,
)
    ensures
        final (assignments)@.len() == old(assignments)@.len(),
        forall|k: int|
            0 <= k < old(assignments)@.len() ==> #[trigger] final (assignments)@[k] == (
            if old(assignments)@[k].planning_period_id == planning_period_id {
                cleared(old(assignments)@[k])
            } else {
                old(assignments)@[k]
            }),
{
    invalidate_where(assignments, None, None, Some(planning_period_id));
}

/// How many assignments reference a person.
pub open spec fn count_assignments_of_person(assignments: Seq<Assignment>, person_id: i64) -> int
    decreases assignments.len(),
{
    if assignments.len() == 0 {
        0
    } else {
        count_assignments_of_person(assignments.drop_last(), person_id) + (
        if assignments.last().person_id == person_id {
            1int
        } else {
            0int
        })
    }
}

/// How many absences reference a person.
pub open spec fn count_absences_of_person(absences: Seq<Absence>, person_id: i64) -> int
    decreases absences.len(),
{
    if absences.len() == 0 {
        0
    } else {
        count_absences_of_person(absences.drop_last(), person_id) + (
        if absences.last().person_id == person_id {
            1int
        } else {
            0int
        })
    }
}

/// How many assignments reference a project.
pub open spec fn count_assignments_of_project(assignments: Seq<Assignment>, project_id: i64) -> int
    decreases assignments.len(),
{
    if assignments.len() == 0 {
        0
    } else {
        count_assignments_of_project(assignments.drop_last(), project_id) + (
        if assignments.last().project_id == project_id {
            1int
        } else {
            0int
        })
    }
}

/// How many requirements reference a project.
pub open spec fn count_requirements_of_project(
    reqs: Seq<ProjectRequirement>,
    project_id: i64,
) -> int
    decreases reqs.len(),
{
    if reqs.len() == 0 {
        0
    } else {
        count_requirements_of_project(reqs.drop_last(), project_id) + (
        if reqs.last().project_id == project_id {
            1int
        } else {
            0int
        })
    }
}

/// How many assignments reference a planning period.
pub open spec fn count_assignments_of_period(assignments: Seq<Assignment>, period_id: i64) -> int
    decreases assignments.len(),
{
    if assignments.len() == 0 {
        0
    } else {
        count_assignments_of_period(assignments.drop_last(), period_id) + (
        if assignments.last().planning_period_id == period_id {
            1int
        } else {
            0int
        })
    }
}

/// How many requirements reference a planning period.
pub open spec fn count_requirements_of_period(reqs: Seq<ProjectRequirement>, period_id: i64) -> int
    decreases reqs.len(),
{
    if reqs.len() == 0 {
        0
    } else {
        count_requirements_of_period(reqs.drop_last(), period_id) + (
        if reqs.last().planning_period_id == period_id {
            1int
        } else {
            0int
        })
    }
}

/// What still references a person: its assignments and absences, counted
/// before a delete is confirmed.
pub fn check_person_dependencies(
    assignments: &Vec<Assignment>,
    absences: &Vec<Absence>,
    person_id: i64,
) -> (deps: PersonDependencies)
    requires
        assignments@.len() <= i64::MAX,
        absences@.len() <= i64::MAX,
    ensures
        deps.assignment_count == count_assignments_of_person(assignments@, person_id),
        deps.absence_count == count_absences_of_person(absences@, person_id),
{
    let mut assignment_count: i64 = 0;
    let n = assignments.len();
    let mut i: usize = 0;
    while i < n
        invariant
            0 <= i <= n,
            n == assignments@.len() <= i64::MAX,
            assignment_count == count_assignments_of_person(
                assignments@.subrange(0, i as int),
                person_id,
            ),
            0 <= assignment_count <= i,
        decreases n - i,
    {
        proof {
            assert(assignments@.subrange(0, i + 1).drop_last() =~= assignments@.subrange(
                0,
                i as int,
            ));
            assert(assignments@.subrange(0, i + 1).last() == assignments@[i as int]);
        }
        if assignments[i].person_id == person_id {
            assignment_count = assignment_count + 1;
        }
        i = i + 1;
    }
    let mut absence_count: i64 = 0;
    let m = absences.len();
    let mut j: usize = 0;
    while j < m
        invariant
            0 <= j <= m,
            m == absences@.len() <= i64::MAX,
            absence_count == count_absences_of_person(absences@.subrange(0, j as int), person_id),
            0 <= absence_count <= j,
        decreases m - j,
    {
        proof {
            assert(absences@.subrange(0, j + 1).drop_last() =~= absences@.subrange(0, j as int));
            assert(absences@.subrange(0, j + 1).last() == absences@[j as int]);
        }
        if absences[j].person_id == person_id {
            absence_count = absence_count + 1;
        }
        j = j + 1;
    }
    proof {
        assert(assignments@.subrange(0, n as int) =~= assignments@);
        assert(absences@.subrange(0, m as int) =~= absences@);
    }
    PersonDependencies { assignment_count, absence_count }
}

/// What still references a project: its requirement rows and assignments.
pub fn check_project_dependencies(
    requirements: &Vec<ProjectRequirement>,
    assignments: &Vec<Assignment>,
    project_id: i64,
) -> (deps: ProjectDependencies)
    requires
        requirements@.len() <= i64::MAX,
        assignments@.len() <= i64::MAX,
    ensures
        deps.requirement_count == count_requirements_of_project(requirements@, project_id),
        deps.assignment_count == count_assignments_of_project(assignments@, project_id),
{
    let mut requirement_count: i64 = 0;
    let n = requirements.len();
    let mut i: usize = 0;
    while i < n
        invariant
            0 <= i <= n,
            n == requirements@.len() <= i64::MAX,
            requirement_count == count_requirements_of_project(
                requirements@.subrange(0, i as int),
                project_id,
            ),
            0 <= requirement_count <= i,
        decreases n - i,
    {
        proof {
            assert(requirements@.subrange(0, i + 1).drop_last() =~= requirements@.subrange(
                0,
                i as int,
            ));
            assert(requirements@.subrange(0, i + 1).last() == requirements@[i as int]);
        }
        if requirements[i].project_id == project_id {
            requirement_count = requirement_count + 1;
        }
        i = i + 1;
    }
    let mut assignment_count: i64 = 0;
    let m = assignments.len();
    let mut j: usize = 0;
    while j < m
        invariant
            0 <= j <= m,
            m == assignments@.len() <= i64::MAX,
            assignment_count == count_assignments_of_project(
                assignments@.subrange(0, j as int),
                project_id,
            ),
            0 <= assignment_count <= j,
        decreases m - j,
    {
        proof {
            assert(assignments@.subrange(0, j + 1).drop_last() =~= assignments@.subrange(
                0,
                j as int,
            ));
            assert(assignments@.subrange(0, j + 1).last() == assignments@[j as int]);
        }
        if assignments[j].project_id == project_id {
            assignment_count = assignment_count + 1;
        }
        j = j + 1;
    }
    proof {
        assert(requirements@.subrange(0, n as int) =~= requirements@);
        assert(assignments@.subrange(0, m as int) =~= assignments@);
    }
    ProjectDependencies { requirement_count, assignment_count }
}

/// What still references a planning period: its requirement rows and
/// assignments.
pub fn check_planning_period_dependencies(
    requirements: &Vec<ProjectRequirement>,
    assignments: &Vec<Assignment>,
    planning_period_id: i64,
) -> (deps: PlanningPeriodDependencies)
    requires
        requirements@.len() <= i64::MAX,
        assignments@.len() <= i64::MAX,
    ensures
        deps.requirement_count == count_requirements_of_period(requirements@, planning_period_id),
        deps.assignment_count == count_assignments_of_period(assignments@, planning_period_id),
{
    let mut requirement_count: i64 = 0;
    let n = requirements.len();
    let mut i: usize = 0;
    while i < n
        invariant
            0 <= i <= n,
            n == requirements@.len() <= i64::MAX,
            requirement_count == count_requirements_of_period(
                requirements@.subrange(0, i as int),
                planning_period_id,
            ),
            0 <= requirement_count <= i,
        decreases n - i,
    {
        proof {
            assert(requirements@.subrange(0, i + 1).drop_last() =~= requirements@.subrange(
                0,
                i as int,
            ));
            assert(requirements@.subrange(0, i + 1).last() == requirements@[i as int]);
        }
        if requirements[i].planning_period_id == planning_period_id {
            requirement_count = requirement_count + 1;
        }
        i = i + 1;
    }
    let mut assignment_count: i64 = 0;
    let m = assignments.len();
    let mut j: usize = 0;
    while j < m
        invariant
            0 <= j <= m,
            m == assignments@.len() <= i64::MAX,
            assignment_count == count_assignments_of_period(
                assignments@.subrange(0, j as int),
                planning_period_id,
            ),
            0 <= assignment_count <= j,
        decreases m - j,
    {
        proof {
            assert(assignments@.subrange(0, j + 1).drop_last() =~= assignments@.subrange(
                0,
                j as int,
            ));
            assert(assignments@.subrange(0, j + 1).last() == assignments@[j as int]);
        }
        if assignments[j].planning_period_id == planning_period_id {
            assignment_count = assignment_count + 1;
        }
        j = j + 1;
    }
    proof {
        assert(requirements@.subrange(0, n as int) =~= requirements@);
        assert(assignments@.subrange(0, m as int) =~= assignments@);
    }
    PlanningPeriodDependencies { requirement_count, assignment_count }
}

} // verus!
