//! Read-only capacity views: per-person utilization rollups and per-project
//! staffing rollups over the persisted calculated-value cache.
//!
//! These views derive nothing new: they reapply the engine's
//! allocation-percentage semantics (a pinned assignment shows its pinned
//! percentage, any other its calculated one) and treat a missing cached
//! value as zero.

use vstd::prelude::*;

use crate::availability::Breakdown;
use crate::availability::availability_dates_parse;
use crate::availability::calculate_person_available_hours;
use crate::hours::PERCENT_SCALE;
use crate::hours::lemma_mul_le;
use crate::models::Assignment;
use crate::models::EngineError;
use crate::models::PlanningPeriod;
use crate::models::Project;
use crate::models::ProjectRequirement;
use crate::optimizer::MAX_ASSIGNMENTS;
use crate::optimizer::PersonContext;
use crate::optimizer::person_context_valid;
use crate::optimizer::project_name_of;

use vstd::arithmetic::div_mod::lemma_div_is_ordered;
use vstd::arithmetic::div_mod::lemma_div_pos_is_pos;
use vstd::arithmetic::mul::lemma_mul_nonnegative;

verus! {

/// Staffing at or above this share of the requirement counts as fully
/// staffed; the slack absorbs fixed-point rounding from the proportional
/// split (99.95% in basis points).
pub const VIABILITY_THRESHOLD_BP: u64 = 9_995;

/// One assignment as a person's utilization view shows it.
#[derive(Clone, Debug)]
pub struct AssignmentSummary {
    pub assignment_id: i64,
    pub project_name: String,
    pub allocation_percentage_bp: u32,
    pub effective_hours_mh: u64,
    pub is_pinned: bool,
}

/// One person's utilization over a period.
#[derive(Clone, Debug)]
pub struct PersonCapacity {
    pub person_id: i64,
    pub person_name: String,
    pub breakdown: Breakdown,
    pub total_available_hours_mh: u64,
    pub total_allocated_hours_mh: u64,
    pub total_effective_hours_mh: u64,
    pub utilization_bp: u64,
    pub is_over_committed: bool,
    pub assignments: Vec<AssignmentSummary>,
}

/// One assignment as a project's staffing view shows it.
#[derive(Clone, Debug)]
pub struct PersonAssignmentSummary {
    pub assignment_id: i64,
    pub person_name: String,
    pub allocation_percentage_bp: u32,
    pub productivity_pm: u32,
    pub effective_hours_mh: u64,
    pub breakdown: Breakdown,
}

/// One project's staffing over a period.
#[derive(Clone, Debug)]
pub struct ProjectStaffing {
    pub project_id: i64,
    pub project_name: String,
    pub required_hours_mh: u64,
    pub total_allocated_hours_mh: u64,
    pub total_effective_hours_mh: u64,
    pub staffing_bp: u64,
    pub is_viable: bool,
    pub shortfall_mh: u64,
    pub assigned_people: Vec<PersonAssignmentSummary>,
}

/// The whole period at a glance.
#[derive(Debug)]
pub struct CapacityOverview {
    pub total_people: usize,
    pub total_projects: usize,
    pub over_committed_people: usize,
    pub under_staffed_projects: usize,
    pub people_capacity: Vec<PersonCapacity>,
    pub project_staffing: Vec<ProjectStaffing>,
}

/// The percentage an assignment displays: its pinned percentage when
/// pinned, its calculated one otherwise; zero where the cache is empty.
pub open spec fn display_allocation_math(a: Assignment) -> int {
    if a.is_pinned {
        match a.pinned_allocation_bp {
            Some(p) => p as int,
            None => 0,
        }
    } else {
        match a.calculated_allocation_bp {
            Some(p) => p as int,
            None => 0,
        }
    }
}

/// Cached effective hours; zero where the cache is empty.
pub open spec fn cached_effective_math(a: Assignment) -> int {
    match a.calculated_effective_mh {
        Some(h) => h as int,
        None => 0,
    }
}

/// Hours of the person's budget an assignment claims at its displayed
/// percentage.
pub open spec fn allocated_hours_math(available_mh: int, allocation_bp: int) -> int {
    available_mh * allocation_bp / PERCENT_SCALE as int
}

/// Utilization of a budget in basis points; zero budget shows as zero.
pub open spec fn utilization_bp_math(allocated_mh: int, available_mh: int) -> int {
    if available_mh > 0 {
        allocated_mh * PERCENT_SCALE as int / available_mh
    } else {
        0
    }
}

/// Staffing level against a requirement in basis points; a requirement of
/// zero shows as zero.
pub open spec fn staffing_bp_math(effective_mh: int, required_mh: int) -> int {
    if required_mh > 0 {
        effective_mh * PERCENT_SCALE as int / required_mh
    } else {
        0
    }
}

/// Allocated hours of the assignments that belong to one person.
pub open spec fn person_allocated_total(
    assignments: Seq<Assignment>,
    person_id: i64,
    available_mh: int,
) -> int
    decreases assignments.len(),
{
    if assignments.len() == 0 {
        0
    } else {
        person_allocated_total(assignments.drop_last(), person_id, available_mh) + {
            let a = assignments.last();
            if a.person_id == person_id {
                allocated_hours_math(available_mh, display_allocation_math(a))
            } else {
                0
            }
        }
    }
}

/// Cached effective hours of the assignments that belong to one person.
pub open spec fn person_effective_total(assignments: Seq<Assignment>, person_id: i64) -> int
    decreases assignments.len(),
{
    if assignments.len() == 0 {
        0
    } else {
        person_effective_total(assignments.drop_last(), person_id) + {
            let a = assignments.last();
            if a.person_id == person_id {
                cached_effective_math(a)
            } else {
                0
            }
        }
    }
}

/// Whether a person's view is over-committed: utilization past 100%.
pub open spec fn over_committed_math(allocated_mh: int, available_mh: int) -> bool {
    utilization_bp_math(allocated_mh, available_mh) > PERCENT_SCALE
}

/// Whether a staffing level counts as viable, with the rounding tolerance.
pub open spec fn staffing_viable_math(staffing_bp: int) -> bool {
    staffing_bp >= VIABILITY_THRESHOLD_BP
}

/// Utilization of a budget in basis points.
pub fn utilization_bp(allocated_mh: u64, available_mh: u64) -> (utilization: u64)
    requires
        utilization_bp_math(allocated_mh as int, available_mh as int) <= u64::MAX,
    ensures
        utilization == utilization_bp_math(allocated_mh as int, available_mh as int),
{
    if available_mh > 0 {
        proof {
            lemma_mul_le(allocated_mh as int, u64::MAX as int, PERCENT_SCALE as int, PERCENT_SCALE as int);
            lemma_mul_nonnegative(allocated_mh as int, PERCENT_SCALE as int);
            lemma_div_pos_is_pos(allocated_mh as int * PERCENT_SCALE as int, available_mh as int);
        }
        ((allocated_mh as u128 * PERCENT_SCALE as u128) / available_mh as u128) as u64
    } else {
        0
    }
}

/// Staffing level against a requirement in basis points.
pub fn staffing_bp(effective_mh: u64, required_mh: u64) -> (staffing: u64)
    requires
        staffing_bp_math(effective_mh as int, required_mh as int) <= u64::MAX,
    ensures
        staffing == staffing_bp_math(effective_mh as int, required_mh as int),
{
    if required_mh > 0 {
        proof {
            lemma_mul_le(effective_mh as int, u64::MAX as int, PERCENT_SCALE as int, PERCENT_SCALE as int);
            lemma_mul_nonnegative(effective_mh as int, PERCENT_SCALE as int);
            lemma_div_pos_is_pos(effective_mh as int * PERCENT_SCALE as int, required_mh as int);
        }
        ((effective_mh as u128 * PERCENT_SCALE as u128) / required_mh as u128) as u64
    } else {
        0
    }
}

/// Whether a staffing level counts as fully staffed: at or above the
/// 99.95% tolerance threshold.
pub fn is_staffing_viable(staffing: u64) -> (viable: bool)
    ensures
        viable == staffing_viable_math(staffing as int),
{
    staffing >= VIABILITY_THRESHOLD_BP
}

/// The displayed percentage of an assignment.
pub fn display_allocation_bp(a: &Assignment) -> (allocation: u32)
    ensures
        allocation == display_allocation_math(*a),
{
    if a.is_pinned {
        match a.pinned_allocation_bp {
            Some(p) => p,
            None => 0,
        }
    } else {
        match a.calculated_allocation_bp {
            Some(p) => p,
            None => 0,
        }
    }
}

/// Machine limits for one person's rollup.
pub open spec fn person_rollup_fits(
    assignments: Seq<Assignment>,
    person_id: i64,
    available_mh: int,
) -> bool {
    &&& assignments.len() <= MAX_ASSIGNMENTS
    &&& person_allocated_total(assignments, person_id, available_mh) <= u64::MAX
    &&& person_effective_total(assignments, person_id) <= u64::MAX
    &&& utilization_bp_math(
        person_allocated_total(assignments, person_id, available_mh),
        available_mh,
    ) <= u64::MAX
}

proof fn lemma_person_totals_prefix(
    assignments: Seq<Assignment>,
    i: int,
    person_id: i64,
    available_mh: int,
)
    requires
        0 <= i <= assignments.len(),
        available_mh >= 0,
    ensures
        0 <= person_allocated_total(assignments.subrange(0, i), person_id, available_mh)
            <= person_allocated_total(assignments, person_id, available_mh),
        0 <= person_effective_total(assignments.subrange(0, i), person_id)
            <= person_effective_total(assignments, person_id),
    decreases assignments.len(),
{
    if i == assignments.len() {
        assert(assignments.subrange(0, i) =~= assignments);
        lemma_person_totals_nonneg(assignments, person_id, available_mh);
    } else {
        lemma_person_totals_prefix(assignments.drop_last(), i, person_id, available_mh);
        assert(assignments.drop_last().subrange(0, i) =~= assignments.subrange(0, i));
        let a = assignments.last();
        lemma_mul_nonnegative(available_mh, display_allocation_math(a));
        lemma_div_pos_is_pos(available_mh * display_allocation_math(a), PERCENT_SCALE as int);
    }
}

proof fn lemma_person_totals_nonneg(
    assignments: Seq<Assignment>,
    person_id: i64,
    available_mh: int,
)
    requires
        available_mh >= 0,
    ensures
        0 <= person_allocated_total(assignments, person_id, available_mh),
        0 <= person_effective_total(assignments, person_id),
    decreases assignments.len(),
{
    if assignments.len() > 0 {
        lemma_person_totals_nonneg(assignments.drop_last(), person_id, available_mh);
        let a = assignments.last();
        lemma_mul_nonnegative(available_mh, display_allocation_math(a));
        lemma_div_pos_is_pos(available_mh * display_allocation_math(a), PERCENT_SCALE as int);
    }
}

/// One person's utilization rollup over the period's assignments: summed
/// displayed allocations against the availability breakdown, with one
/// summary row per assignment of that person.
pub fn person_capacity(
    row: &PersonAvailability,
    assignments: &Vec<Assignment>,
    projects: &Vec<Project>,
) -> (capacity: PersonCapacity)
    requires
        person_rollup_fits(assignments@, row.person_id, row.breakdown.available_hours_mh as int),
    ensures
        person_capacity_matches(capacity, *row, assignments@, projects@),
{
    let person_id = row.person_id;
    let person_name = &row.person_name;
    let breakdown = &row.breakdown;
    let available = breakdown.available_hours_mh;
    let n = assignments.len();
    let mut allocated: u128 = 0;
    let mut effective: u128 = 0;
    let mut summaries: Vec<AssignmentSummary> = Vec::new();
    let mut i: usize = 0;
    proof {
        assert(assignments@.subrange(0, 0) =~= Seq::<Assignment>::empty());
    }
    while i < n
        invariant
            0 <= i <= n,
            n == assignments@.len(),
            person_rollup_fits(assignments@, person_id, available as int),
            allocated == person_allocated_total(
                assignments@.subrange(0, i as int),
                person_id,
                available as int,
            ),
            effective == person_effective_total(assignments@.subrange(0, i as int), person_id),
            summaries@.len() == count_person_assignments(
                assignments@.subrange(0, i as int),
                person_id,
            ),
            forall|k: int|
                0 <= k < summaries@.len() ==> summary_matches(
                    #[trigger] summaries@[k],
                    person_summary_models(
                        assignments@.subrange(0, i as int),
                        person_id,
                        projects@,
                    )[k],
                ),
        decreases n - i,
    {
        proof {
            assert(assignments@.subrange(0, i + 1).drop_last() =~= assignments@.subrange(
                0,
                i as int,
            ));
            assert(assignments@.subrange(0, i + 1).last() == assignments@[i as int]);
            lemma_person_totals_prefix(assignments@, i + 1, person_id, available as int);
            lemma_person_totals_prefix(assignments@, i as int, person_id, available as int);
        }
        let a = &assignments[i];
        if a.person_id == person_id {
            let pct = display_allocation_bp(a);
            proof {
                lemma_mul_le(available as int, u64::MAX as int, pct as int, u32::MAX as int);
                lemma_mul_nonnegative(available as int, pct as int);
                lemma_div_pos_is_pos(available as int * pct as int, PERCENT_SCALE as int);
            }
            let hours: u128 = (available as u128 * pct as u128) / PERCENT_SCALE as u128;
            allocated = allocated + hours;
            let cached: u64 = match a.calculated_effective_mh {
                Some(h) => h,
                None => 0,
            };
            effective = effective + cached as u128;
            let name = crate::optimizer::find_project_name(projects, a.project_id);
            summaries.push(
                AssignmentSummary {
                    assignment_id: a.id,
                    project_name: name,
                    allocation_percentage_bp: pct,
                    effective_hours_mh: cached,
                    is_pinned: a.is_pinned,
                },
            );
            proof {
                let old_models = person_summary_models(
                    assignments@.subrange(0, i as int),
                    person_id,
                    projects@,
                );
                let new_models = person_summary_models(
                    assignments@.subrange(0, i + 1),
                    person_id,
                    projects@,
                );
                lemma_summary_models_len(
                    assignments@.subrange(0, i as int),
                    person_id,
                    projects@,
                );
                lemma_summary_models_len(assignments@.subrange(0, i + 1), person_id, projects@);
                assert forall|k: int| 0 <= k < summaries@.len() implies summary_matches(
                    #[trigger] summaries@[k],
                    new_models[k],
                ) by {
                    if k < old_models.len() {
                        assert(new_models[k] == old_models[k]);
                    }
                }
            }
        } else {
            proof {
                let old_models = person_summary_models(
                    assignments@.subrange(0, i as int),
                    person_id,
                    projects@,
                );
                let new_models = person_summary_models(
                    assignments@.subrange(0, i + 1),
                    person_id,
                    projects@,
                );
                assert(new_models =~= old_models + Seq::<SummaryModel>::empty());
                assert(new_models =~= old_models);
            }
        }
        i = i + 1;
    }
    proof {
        assert(assignments@.subrange(0, n as int) =~= assignments@);
    }
    let total_allocated = allocated as u64;
    let total_effective = effective as u64;
    let utilization = utilization_bp(total_allocated, available);
    PersonCapacity {
        person_id,
        person_name: person_name.clone(),
        breakdown: *breakdown,
        total_available_hours_mh: available,
        total_allocated_hours_mh: total_allocated,
        total_effective_hours_mh: total_effective,
        utilization_bp: utilization,
        is_over_committed: utilization > PERCENT_SCALE,
        assignments: summaries,
    }
}

/// How many assignments of the sequence belong to one person.
pub open spec fn count_person_assignments(assignments: Seq<Assignment>, person_id: i64) -> int
    decreases assignments.len(),
{
    if assignments.len() == 0 {
        0
    } else {
        count_person_assignments(assignments.drop_last(), person_id) + {
            if assignments.last().person_id == person_id {
                1int
            } else {
                0int
            }
        }
    }
}

/// Spec image of one person's summary row.
pub struct SummaryModel {
    pub assignment_id: i64,
    pub project_name: Seq<char>,
    pub allocation_percentage_bp: int,
    pub effective_hours_mh: int,
    pub is_pinned: bool,
}

pub open spec fn summary_matches(s: AssignmentSummary, m: SummaryModel) -> bool {
    &&& s.assignment_id == m.assignment_id
    &&& s.project_name@ == m.project_name
    &&& s.allocation_percentage_bp == m.allocation_percentage_bp
    &&& s.effective_hours_mh == m.effective_hours_mh
    &&& s.is_pinned == m.is_pinned
}

/// There is one summary image per assignment of the person.
proof fn lemma_summary_models_len(
    assignments: Seq<Assignment>,
    person_id: i64,
    projects: Seq<Project>,
)
    ensures
        person_summary_models(assignments, person_id, projects).len()
            == count_person_assignments(assignments, person_id),
    decreases assignments.len(),
{
    if assignments.len() > 0 {
        lemma_summary_models_len(assignments.drop_last(), person_id, projects);
    }
}

/// Spec images of one person's summary rows, in assignment order.
pub open spec fn person_summary_models(
    assignments: Seq<Assignment>,
    person_id: i64,
    projects: Seq<Project>,
) -> Seq<SummaryModel>
    decreases assignments.len(),
{
    if assignments.len() == 0 {
        Seq::empty()
    } else {
        person_summary_models(assignments.drop_last(), person_id, projects) + {
            let a = assignments.last();
            if a.person_id == person_id {
                seq![
                    SummaryModel {
                        assignment_id: a.id,
                        project_name: project_name_of(projects, a.project_id),
                        allocation_percentage_bp: display_allocation_math(a),
                        effective_hours_mh: cached_effective_math(a),
                        is_pinned: a.is_pinned,
                    },
                ]
            } else {
                Seq::empty()
            }
        }
    }
}

// ---------------------------------------------------------------------------
// Project staffing
// ---------------------------------------------------------------------------

/// One person's availability, computed once and reused by the views.
#[derive(Clone, Debug)]
pub struct PersonAvailability {
    pub person_id: i64,
    pub person_name: String,
    pub breakdown: Breakdown,
}

/// Index of the first availability row of `person_id`, or the length.
pub open spec fn snapshot_index_of(people: Seq<PersonAvailability>, person_id: i64) -> int
    decreases people.len(),
{
    if people.len() == 0 {
        0
    } else if people[0].person_id == person_id {
        0
    } else {
        1 + snapshot_index_of(people.drop_first(), person_id)
    }
}

pub open spec fn has_snapshot(people: Seq<PersonAvailability>, person_id: i64) -> bool {
    snapshot_index_of(people, person_id) < people.len()
}

pub open spec fn snapshot_of(people: Seq<PersonAvailability>, person_id: i64) -> PersonAvailability {
    people[snapshot_index_of(people, person_id)]
}

proof fn lemma_snapshot_index_unique(people: Seq<PersonAvailability>, person_id: i64, i: int)
    requires
        0 <= i <= people.len(),
        forall|j: int| 0 <= j < i ==> (#[trigger] people[j]).person_id != person_id,
        i < people.len() ==> people[i].person_id == person_id,
    ensures
        snapshot_index_of(people, person_id) == i,
    decreases people.len(),
{
    if people.len() > 0 && people[0].person_id != person_id {
        lemma_snapshot_index_unique(people.drop_first(), person_id, i - 1);
    }
}

/// Finds the availability row of a person, or the length when absent.
fn find_snapshot_index(people: &Vec<PersonAvailability>, person_id: i64) -> (index: usize)
    ensures
        index == snapshot_index_of(people@, person_id),
        index <= people@.len(),
        index < people@.len() ==> people@[index as int].person_id == person_id,
{
    let n = people.len();
    let mut i: usize = 0;
    while i < n
        invariant
            0 <= i <= n,
            n == people@.len(),
            forall|j: int| 0 <= j < i ==> (#[trigger] people@[j]).person_id != person_id,
        decreases n - i,
    {
        if people[i].person_id == person_id {
            proof {
                lemma_snapshot_index_unique(people@, person_id, i as int);
            }
            return i;
        }
        i = i + 1;
    }
    proof {
        lemma_snapshot_index_unique(people@, person_id, n as int);
    }
    n
}

/// Allocated hours claimed against a project, summed over its assignments
/// whose person is known.
pub open spec fn project_allocated_total(
    assignments: Seq<Assignment>,
    project_id: i64,
    people: Seq<PersonAvailability>,
) -> int
    decreases assignments.len(),
{
    if assignments.len() == 0 {
        0
    } else {
        project_allocated_total(assignments.drop_last(), project_id, people) + {
            let a = assignments.last();
            if a.project_id == project_id && has_snapshot(people, a.person_id) {
                allocated_hours_math(
                    snapshot_of(people, a.person_id).breakdown.available_hours_mh as int,
                    display_allocation_math(a),
                )
            } else {
                0
            }
        }
    }
}

/// Cached effective hours credited to a project, summed the same way.
pub open spec fn project_effective_total(
    assignments: Seq<Assignment>,
    project_id: i64,
    people: Seq<PersonAvailability>,
) -> int
    decreases assignments.len(),
{
    if assignments.len() == 0 {
        0
    } else {
        project_effective_total(assignments.drop_last(), project_id, people) + {
            let a = assignments.last();
            if a.project_id == project_id && has_snapshot(people, a.person_id) {
                cached_effective_math(a)
            } else {
                0
            }
        }
    }
}

/// Spec image of one staffing row.
pub struct PersonRowModel {
    pub assignment_id: i64,
    pub person_name: Seq<char>,
    pub allocation_percentage_bp: int,
    pub productivity_pm: u32,
    pub effective_hours_mh: int,
    pub breakdown: Breakdown,
}

pub open spec fn row_matches(s: PersonAssignmentSummary, m: PersonRowModel) -> bool {
    &&& s.assignment_id == m.assignment_id
    &&& s.person_name@ == m.person_name
    &&& s.allocation_percentage_bp == m.allocation_percentage_bp
    &&& s.productivity_pm == m.productivity_pm
    &&& s.effective_hours_mh == m.effective_hours_mh
    &&& s.breakdown == m.breakdown
}

/// Spec images of a project's staffing rows, in assignment order.
pub open spec fn project_row_models(
    assignments: Seq<Assignment>,
    project_id: i64,
    people: Seq<PersonAvailability>,
) -> Seq<PersonRowModel>
    decreases assignments.len(),
{
    if assignments.len() == 0 {
        Seq::empty()
    } else {
        project_row_models(assignments.drop_last(), project_id, people) + {
            let a = assignments.last();
            if a.project_id == project_id && has_snapshot(people, a.person_id) {
                seq![
                    PersonRowModel {
                        assignment_id: a.id,
                        person_name: snapshot_of(people, a.person_id).person_name@,
                        allocation_percentage_bp: display_allocation_math(a),
                        productivity_pm: a.productivity_pm,
                        effective_hours_mh: cached_effective_math(a),
                        breakdown: snapshot_of(people, a.person_id).breakdown,
                    },
                ]
            } else {
                Seq::empty()
            }
        }
    }
}

/// Index of the first assignment of the project whose person is unknown, or
/// the length.
pub open spec fn first_missing_for_project(
    assignments: Seq<Assignment>,
    project_id: i64,
    people: Seq<PersonAvailability>,
) -> int
    decreases assignments.len(),
{
    if assignments.len() == 0 {
        0
    } else if assignments[0].project_id == project_id && !has_snapshot(
        people,
        assignments[0].person_id,
    ) {
        0
    } else {
        1 + first_missing_for_project(assignments.drop_first(), project_id, people)
    }
}

proof fn lemma_first_missing_project_characterize(
    assignments: Seq<Assignment>,
    project_id: i64,
    people: Seq<PersonAvailability>,
    i: int,
)
    requires
        0 <= i <= assignments.len(),
        forall|j: int|
            0 <= j < i ==> !((#[trigger] assignments[j]).project_id == project_id && !has_snapshot(
                people,
                assignments[j].person_id,
            )),
        i < assignments.len() ==> assignments[i].project_id == project_id && !has_snapshot(
            people,
            assignments[i].person_id,
        ),
    ensures
        first_missing_for_project(assignments, project_id, people) == i,
    decreases assignments.len(),
{
    if assignments.len() > 0 && !(assignments[0].project_id == project_id && !has_snapshot(
        people,
        assignments[0].person_id,
    )) {
        lemma_first_missing_project_characterize(
            assignments.drop_first(),
            project_id,
            people,
            i - 1,
        );
    }
}

proof fn lemma_project_totals_prefix(
    assignments: Seq<Assignment>,
    i: int,
    project_id: i64,
    people: Seq<PersonAvailability>,
)
    requires
        0 <= i <= assignments.len(),
    ensures
        0 <= project_allocated_total(assignments.subrange(0, i), project_id, people)
            <= project_allocated_total(assignments, project_id, people),
        0 <= project_effective_total(assignments.subrange(0, i), project_id, people)
            <= project_effective_total(assignments, project_id, people),
    decreases assignments.len(),
{
    if i == assignments.len() {
        assert(assignments.subrange(0, i) =~= assignments);
        lemma_project_totals_nonneg(assignments, project_id, people);
    } else {
        lemma_project_totals_prefix(assignments.drop_last(), i, project_id, people);
        assert(assignments.drop_last().subrange(0, i) =~= assignments.subrange(0, i));
        let a = assignments.last();
        if a.project_id == project_id && has_snapshot(people, a.person_id) {
            lemma_mul_nonnegative(
                snapshot_of(people, a.person_id).breakdown.available_hours_mh as int,
                display_allocation_math(a),
            );
            lemma_div_pos_is_pos(
                snapshot_of(people, a.person_id).breakdown.available_hours_mh as int
                    * display_allocation_math(a),
                PERCENT_SCALE as int,
            );
        }
    }
}

proof fn lemma_project_totals_nonneg(
    assignments: Seq<Assignment>,
    project_id: i64,
    people: Seq<PersonAvailability>,
)
    ensures
        0 <= project_allocated_total(assignments, project_id, people),
        0 <= project_effective_total(assignments, project_id, people),
    decreases assignments.len(),
{
    if assignments.len() > 0 {
        lemma_project_totals_nonneg(assignments.drop_last(), project_id, people);
        let a = assignments.last();
        if a.project_id == project_id && has_snapshot(people, a.person_id) {
            lemma_mul_nonnegative(
                snapshot_of(people, a.person_id).breakdown.available_hours_mh as int,
                display_allocation_math(a),
            );
            lemma_div_pos_is_pos(
                snapshot_of(people, a.person_id).breakdown.available_hours_mh as int
                    * display_allocation_math(a),
                PERCENT_SCALE as int,
            );
        }
    }
}

/// Machine limits for one project's rollup.
pub open spec fn project_rollup_fits(
    assignments: Seq<Assignment>,
    project_id: i64,
    people: Seq<PersonAvailability>,
    required_mh: int,
) -> bool {
    &&& assignments.len() <= MAX_ASSIGNMENTS
    &&& project_allocated_total(assignments, project_id, people) <= u64::MAX
    &&& project_effective_total(assignments, project_id, people) <= u64::MAX
    &&& staffing_bp_math(
        project_effective_total(assignments, project_id, people),
        required_mh,
    ) <= u64::MAX
}

/// One project's staffing rollup: cached effective hours of its assignments
/// against its requirement, with the 99.95% viability tolerance. Fails with
/// `ReferenceNotFound` on the first assignment of the project whose person
/// is not among the availability rows.
pub fn get_project_staffing(
    project: &Project,
    requirement: &ProjectRequirement,
    assignments: &Vec<Assignment>,
    people: &Vec<PersonAvailability>,
) -> (result: Result<ProjectStaffing, EngineError>)
    requires
        project_rollup_fits(assignments@, project.id, people@, requirement.required_hours_mh as int),
    ensures
        match result {
            Ok(s) => {
                let allocated = project_allocated_total(assignments@, project.id, people@);
                let effective = project_effective_total(assignments@, project.id, people@);
                let level = staffing_bp_math(effective, requirement.required_hours_mh as int);
                &&& first_missing_for_project(assignments@, project.id, people@)
                    == assignments@.len()
                &&& s.project_id == project.id
                &&& s.project_name@ == project.name@
                &&& s.required_hours_mh == requirement.required_hours_mh
                &&& s.total_allocated_hours_mh == allocated
                &&& s.total_effective_hours_mh == effective
                &&& s.staffing_bp == level
                &&& s.is_viable == staffing_viable_math(level)
                &&& s.shortfall_mh == (if staffing_viable_math(level) || effective
                    >= requirement.required_hours_mh {
                    0int
                } else {
                    requirement.required_hours_mh - effective
                })
                &&& s.assigned_people@.len() == project_row_models(
                    assignments@,
                    project.id,
                    people@,
                ).len()
                &&& forall|k: int|
                    0 <= k < s.assigned_people@.len() ==> row_matches(
                        #[trigger] s.assigned_people@[k],
                        project_row_models(assignments@, project.id, people@)[k],
                    )
            },
            Err(e) => {
                let m = first_missing_for_project(assignments@, project.id, people@);
                &&& m < assignments@.len()
                &&& e == (EngineError::ReferenceNotFound {
                    missing_id: assignments@[m].person_id,
                })
            },
        },
{
    let pid = project.id;
    let n = assignments.len();
    let mut allocated: u128 = 0;
    let mut effective: u128 = 0;
    let mut rows: Vec<PersonAssignmentSummary> = Vec::new();
    let mut i: usize = 0;
    proof {
        assert(assignments@.subrange(0, 0) =~= Seq::<Assignment>::empty());
    }
    while i < n
        invariant
            0 <= i <= n,
            n == assignments@.len(),
            pid == project.id,
            project_rollup_fits(
                assignments@,
                project.id,
                people@,
                requirement.required_hours_mh as int,
            ),
            forall|j: int|
                0 <= j < i ==> !((#[trigger] assignments@[j]).project_id == pid && !has_snapshot(
                    people@,
                    assignments@[j].person_id,
                )),
            allocated == project_allocated_total(
                assignments@.subrange(0, i as int),
                pid,
                people@,
            ),
            effective == project_effective_total(
                assignments@.subrange(0, i as int),
                pid,
                people@,
            ),
            rows@.len() == project_row_models(
                assignments@.subrange(0, i as int),
                pid,
                people@,
            ).len(),
            forall|k: int|
                0 <= k < rows@.len() ==> row_matches(
                    #[trigger] rows@[k],
                    project_row_models(assignments@.subrange(0, i as int), pid, people@)[k],
                ),
        decreases n - i,
    {
        proof {
            assert(assignments@.subrange(0, i + 1).drop_last() =~= assignments@.subrange(
                0,
                i as int,
            ));
            assert(assignments@.subrange(0, i + 1).last() == assignments@[i as int]);
            lemma_project_totals_prefix(assignments@, i + 1, pid, people@);
            lemma_project_totals_prefix(assignments@, i as int, pid, people@);
        }
        let a = &assignments[i];
        if a.project_id == pid {
            let idx = find_snapshot_index(people, a.person_id);
            if idx >= people.len() {
                proof {
                    lemma_first_missing_project_characterize(
                        assignments@,
                        pid,
                        people@,
                        i as int,
                    );
                }
                return Err(EngineError::ReferenceNotFound { missing_id: a.person_id });
            }
            let snap = &people[idx];
            let avail = snap.breakdown.available_hours_mh;
            let pct = display_allocation_bp(a);
            proof {
                lemma_mul_le(avail as int, u64::MAX as int, pct as int, u32::MAX as int);
                lemma_mul_nonnegative(avail as int, pct as int);
                lemma_div_pos_is_pos(avail as int * pct as int, PERCENT_SCALE as int);
            }
            let hours: u128 = (avail as u128 * pct as u128) / PERCENT_SCALE as u128;
            allocated = allocated + hours;
            let cached: u64 = match a.calculated_effective_mh {
                Some(h) => h,
                None => 0,
            };
            effective = effective + cached as u128;
            rows.push(
                PersonAssignmentSummary {
                    assignment_id: a.id,
                    person_name: snap.person_name.clone(),
                    allocation_percentage_bp: pct,
                    productivity_pm: a.productivity_pm,
                    effective_hours_mh: cached,
                    breakdown: snap.breakdown,
                },
            );
            proof {
                let old_models = project_row_models(
                    assignments@.subrange(0, i as int),
                    pid,
                    people@,
                );
                let new_models = project_row_models(assignments@.subrange(0, i + 1), pid, people@);
                assert forall|k: int| 0 <= k < rows@.len() implies row_matches(
                    #[trigger] rows@[k],
                    new_models[k],
                ) by {
                    if k < old_models.len() {
                        assert(new_models[k] == old_models[k]);
                    }
                }
            }
        } else {
            proof {
                let old_models = project_row_models(
                    assignments@.subrange(0, i as int),
                    pid,
                    people@,
                );
                let new_models = project_row_models(assignments@.subrange(0, i + 1), pid, people@);
                assert(new_models =~= old_models + Seq::<PersonRowModel>::empty());
                assert(new_models =~= old_models);
            }
        }
        i = i + 1;
    }
    proof {
        assert(assignments@.subrange(0, n as int) =~= assignments@);
        lemma_first_missing_project_characterize(assignments@, pid, people@, n as int);
    }
    let total_allocated = allocated as u64;
    let total_effective = effective as u64;
    let level = staffing_bp(total_effective, requirement.required_hours_mh);
    let viable = is_staffing_viable(level);
    let shortfall: u64 = if viable || total_effective >= requirement.required_hours_mh {
        0
    } else {
        requirement.required_hours_mh - total_effective
    };
    Ok(
        ProjectStaffing {
            project_id: pid,
            project_name: project.name.clone(),
            required_hours_mh: requirement.required_hours_mh,
            total_allocated_hours_mh: total_allocated,
            total_effective_hours_mh: total_effective,
            staffing_bp: level,
            is_viable: viable,
            shortfall_mh: shortfall,
            assigned_people: rows,
        },
    )
}


/// Everything a person's rollup promises, bundled.
pub open spec fn person_capacity_matches(
    pc: PersonCapacity,
    row: PersonAvailability,
    assignments: Seq<Assignment>,
    projects: Seq<Project>,
) -> bool {
    let avail = row.breakdown.available_hours_mh as int;
    let allocated = person_allocated_total(assignments, row.person_id, avail);
    let effective = person_effective_total(assignments, row.person_id);
    &&& pc.person_id == row.person_id
    &&& pc.person_name@ == row.person_name@
    &&& pc.breakdown == row.breakdown
    &&& pc.total_available_hours_mh == row.breakdown.available_hours_mh
    &&& pc.total_allocated_hours_mh == allocated
    &&& pc.total_effective_hours_mh == effective
    &&& pc.utilization_bp == utilization_bp_math(allocated, avail)
    &&& pc.is_over_committed == over_committed_math(allocated, avail)
    &&& pc.assignments@.len() == count_person_assignments(assignments, row.person_id)
    &&& forall|r: int|
        0 <= r < pc.assignments@.len() ==> summary_matches(
            #[trigger] pc.assignments@[r],
            person_summary_models(assignments, row.person_id, projects)[r],
        )
}

/// Everything a project's rollup promises, bundled.
pub open spec fn project_staffing_matches(
    ps: ProjectStaffing,
    project: Project,
    req: ProjectRequirement,
    assignments: Seq<Assignment>,
    people: Seq<PersonAvailability>,
) -> bool {
    let allocated = project_allocated_total(assignments, project.id, people);
    let effective = project_effective_total(assignments, project.id, people);
    let level = staffing_bp_math(effective, req.required_hours_mh as int);
    &&& ps.project_id == project.id
    &&& ps.project_name@ == project.name@
    &&& ps.required_hours_mh == req.required_hours_mh
    &&& ps.total_allocated_hours_mh == allocated
    &&& ps.total_effective_hours_mh == effective
    &&& ps.staffing_bp == level
    &&& ps.is_viable == staffing_viable_math(level)
    &&& ps.shortfall_mh == (if staffing_viable_math(level) || effective >= req.required_hours_mh {
        0int
    } else {
        req.required_hours_mh - effective
    })
    &&& ps.assigned_people@.len() == project_row_models(assignments, project.id, people).len()
    &&& forall|r: int|
        0 <= r < ps.assigned_people@.len() ==> row_matches(
            #[trigger] ps.assigned_people@[r],
            project_row_models(assignments, project.id, people)[r],
        )
}

/// The availability breakdown of one person's inputs, as a value.
pub open spec fn breakdown_model(ctx: PersonContext, period: PlanningPeriod) -> Breakdown {
    let td = crate::availability::total_days_math(period);
    let wdc = crate::calendar::count_working_days_math(ctx.person.working_days@);
    let weekly = ctx.person.available_hours_per_week_mh as int;
    let hpd = crate::availability::hours_per_day_math(wdc, weekly);
    let hdays = crate::availability::holiday_days_total_spec(
        ctx.person,
        period,
        ctx.absences@,
        ctx.holidays@,
    );
    Breakdown {
        available_hours_mh: crate::optimizer::person_available_spec(ctx, period) as u64,
        base_hours_mh: crate::availability::base_hours_math(td, wdc, weekly) as u64,
        absence_days: crate::availability::total_absence_days_math(ctx.absences@) as u64,
        absence_hours_mh: (crate::availability::total_absence_days_math(ctx.absences@) * hpd) as u64,
        holiday_days: hdays as u64,
        holiday_hours_mh: (hdays * hpd) as u64,
        overhead_hours_mh: crate::availability::required_overhead_total_math(
            ctx.tasks@,
            td,
            wdc,
        ) as u64,
        optional_overhead_hours_mh: crate::availability::optional_overhead_total_math(
            ctx.tasks@,
            td,
            wdc,
        ) as u64,
    }
}

/// Computes every person's availability once, for the views to share.
/// Fails with `InvalidDate` exactly when some person's input dates do not
/// parse.
pub fn compute_person_availabilities(
    period: &PlanningPeriod,
    people: &Vec<PersonContext>,
) -> (result: Result<Vec<PersonAvailability>, EngineError>)
    requires
        forall|k: int|
            0 <= k < people@.len() ==> person_context_valid(#[trigger] people@[k], *period),
    ensures
        match result {
            Ok(v) => {
                &&& crate::optimizer::people_dates_parse(people@, *period)
                &&& v@.len() == people@.len()
                &&& forall|k: int|
                    0 <= k < v@.len() ==> (#[trigger] v@[k]).person_id == people@[k].person.id
                        && v@[k].person_name@ == people@[k].person.name@ && v@[k].breakdown
                        == breakdown_model(people@[k], *period)
            },
            Err(e) => {
                &&& e == EngineError::InvalidDate
                &&& !crate::optimizer::people_dates_parse(people@, *period)
            },
        },
{
    let n = people.len();
    let mut v: Vec<PersonAvailability> = Vec::new();
    let mut i: usize = 0;
    while i < n
        invariant
            0 <= i <= n,
            n == people@.len(),
            forall|k: int|
                0 <= k < people@.len() ==> person_context_valid(#[trigger] people@[k], *period),
            v@.len() == i,
            forall|k: int|
                0 <= k < i ==> availability_dates_parse(
                    (#[trigger] people@[k]).person,
                    *period,
                    people@[k].absences@,
                    people@[k].holidays@,
                ),
            forall|k: int|
                0 <= k < i ==> (#[trigger] v@[k]).person_id == people@[k].person.id
                    && v@[k].person_name@ == people@[k].person.name@ && v@[k].breakdown
                    == breakdown_model(people@[k], *period),
        decreases n - i,
    {
        let ctx = &people[i];
        let breakdown = match calculate_person_available_hours(
            &ctx.person,
            period,
            &ctx.absences,
            &ctx.holidays,
            &ctx.tasks,
        ) {
            Ok(b) => b,
            Err(_) => {
                return Err(EngineError::InvalidDate);
            },
        };
        v.push(
            PersonAvailability {
                person_id: ctx.person.id,
                person_name: ctx.person.name.clone(),
                breakdown,
            },
        );
        i = i + 1;
    }
    Ok(v)
}

/// One person's utilization view, computed from that person's availability
/// inputs and the period's assignments. Fails with `InvalidDate` exactly
/// when the person's input dates do not parse.
pub fn get_person_capacity(
    ctx: &PersonContext,
    period: &PlanningPeriod,
    assignments: &Vec<Assignment>,
    projects: &Vec<Project>,
) -> (result: Result<PersonCapacity, EngineError>)
    requires
        person_context_valid(*ctx, *period),
        availability_dates_parse(ctx.person, *period, ctx.absences@, ctx.holidays@)
            ==> person_rollup_fits(
            assignments@,
            ctx.person.id,
            breakdown_model(*ctx, *period).available_hours_mh as int,
        ),
    ensures
        match result {
            Ok(pc) => {
                &&& availability_dates_parse(ctx.person, *period, ctx.absences@, ctx.holidays@)
                &&& person_capacity_matches(
                    pc,
                    PersonAvailability {
                        person_id: ctx.person.id,
                        person_name: ctx.person.name,
                        breakdown: breakdown_model(*ctx, *period),
                    },
                    assignments@,
                    projects@,
                )
            },
            Err(e) => {
                &&& e == EngineError::InvalidDate
                &&& !availability_dates_parse(ctx.person, *period, ctx.absences@, ctx.holidays@)
            },
        },
{
    let breakdown = match calculate_person_available_hours(
        &ctx.person,
        period,
        &ctx.absences,
        &ctx.holidays,
        &ctx.tasks,
    ) {
        Ok(b) => b,
        Err(_) => {
            return Err(EngineError::InvalidDate);
        },
    };
    let row = PersonAvailability {
        person_id: ctx.person.id,
        person_name: ctx.person.name.clone(),
        breakdown,
    };
    Ok(person_capacity(&row, assignments, projects))
}

/// The projects that have a requirement row, in input order.
pub open spec fn projects_with_req(projects: Seq<Project>, reqs: Seq<ProjectRequirement>) -> Seq<
    Project,
>
    decreases projects.len(),
{
    if projects.len() == 0 {
        Seq::empty()
    } else {
        projects_with_req(projects.drop_last(), reqs) + {
            if crate::optimizer::has_requirement(reqs, projects.last().id) {
                seq![projects.last()]
            } else {
                Seq::empty()
            }
        }
    }
}

/// A prefix of the projects filters to a prefix of the staffed projects.
proof fn lemma_pwr_prefix(projects: Seq<Project>, reqs: Seq<ProjectRequirement>, i: int)
    requires
        0 <= i <= projects.len(),
    ensures
        projects_with_req(projects.subrange(0, i), reqs).len() <= projects_with_req(
            projects,
            reqs,
        ).len(),
        forall|j: int|
            0 <= j < projects_with_req(projects.subrange(0, i), reqs).len()
                ==> #[trigger] projects_with_req(projects.subrange(0, i), reqs)[j]
                == projects_with_req(projects, reqs)[j],
    decreases projects.len(),
{
    if i == projects.len() {
        assert(projects.subrange(0, i) =~= projects);
    } else {
        lemma_pwr_prefix(projects.drop_last(), reqs, i);
        assert(projects.drop_last().subrange(0, i) =~= projects.subrange(0, i));
    }
}

/// How many people show as over-committed.
pub open spec fn count_over_committed(
    people: Seq<PersonAvailability>,
    assignments: Seq<Assignment>,
) -> int
    decreases people.len(),
{
    if people.len() == 0 {
        0
    } else {
        count_over_committed(people.drop_last(), assignments) + {
            let row = people.last();
            if over_committed_math(
                person_allocated_total(
                    assignments,
                    row.person_id,
                    row.breakdown.available_hours_mh as int,
                ),
                row.breakdown.available_hours_mh as int,
            ) {
                1int
            } else {
                0int
            }
        }
    }
}

/// How many staffed projects miss the viability threshold.
pub open spec fn count_understaffed(
    staffed: Seq<Project>,
    reqs: Seq<ProjectRequirement>,
    assignments: Seq<Assignment>,
    people: Seq<PersonAvailability>,
) -> int
    decreases staffed.len(),
{
    if staffed.len() == 0 {
        0
    } else {
        count_understaffed(staffed.drop_last(), reqs, assignments, people) + {
            let p = staffed.last();
            let req = reqs[crate::optimizer::requirement_index_of(reqs, p.id)];
            if !staffing_viable_math(
                staffing_bp_math(
                    project_effective_total(assignments, p.id, people),
                    req.required_hours_mh as int,
                ),
            ) {
                1int
            } else {
                0int
            }
        }
    }
}

/// Machine limits for a whole overview.
pub open spec fn overview_fits(
    people: Seq<PersonAvailability>,
    projects: Seq<Project>,
    reqs: Seq<ProjectRequirement>,
    assignments: Seq<Assignment>,
) -> bool {
    &&& forall|k: int|
        0 <= k < people.len() ==> person_rollup_fits(
            assignments,
            (#[trigger] people[k]).person_id,
            people[k].breakdown.available_hours_mh as int,
        )
    &&& forall|j: int|
        0 <= j < projects_with_req(projects, reqs).len() ==> project_rollup_fits(
            assignments,
            (#[trigger] projects_with_req(projects, reqs)[j]).id,
            people,
            reqs[crate::optimizer::requirement_index_of(
                reqs,
                projects_with_req(projects, reqs)[j].id,
            )].required_hours_mh as int,
        )
}

/// The whole period at a glance: every person's utilization rollup and, for
/// each project that has a requirement in the period, its staffing rollup.
/// Assignments naming unknown people are skipped, not errors, in this view.
pub fn get_capacity_overview(
    people: &Vec<PersonAvailability>,
    projects: &Vec<Project>,
    requirements: &Vec<ProjectRequirement>,
    assignments: &Vec<Assignment>,
) -> (overview: CapacityOverview)
    requires
        overview_fits(people@, projects@, requirements@, assignments@),
    ensures
        overview.total_people == people@.len(),
        overview.people_capacity@.len() == people@.len(),
        forall|k: int|
            0 <= k < people@.len() ==> person_capacity_matches(
                #[trigger] overview.people_capacity@[k],
                people@[k],
                assignments@,
                projects@,
            ),
        overview.over_committed_people == count_over_committed(people@, assignments@),
        overview.total_projects == projects_with_req(projects@, requirements@).len(),
        overview.project_staffing@.len() == projects_with_req(projects@, requirements@).len(),
        forall|j: int|
            0 <= j < overview.project_staffing@.len() ==> project_staffing_matches(
                #[trigger] overview.project_staffing@[j],
                projects_with_req(projects@, requirements@)[j],
                requirements@[crate::optimizer::requirement_index_of(
                    requirements@,
                    projects_with_req(projects@, requirements@)[j].id,
                )],
                assignments@,
                people@,
            ),
        overview.under_staffed_projects == count_understaffed(
            projects_with_req(projects@, requirements@),
            requirements@,
            assignments@,
            people@,
        ),
{
    // People side.
    let np = people.len();
    let mut people_capacity: Vec<PersonCapacity> = Vec::new();
    let mut over_committed: usize = 0;
    let mut i: usize = 0;
    proof {
        assert(people@.subrange(0, 0) =~= Seq::<PersonAvailability>::empty());
    }
    while i < np
        invariant
            0 <= i <= np,
            np == people@.len(),
            overview_fits(people@, projects@, requirements@, assignments@),
            people_capacity@.len() == i,
            forall|k: int|
                0 <= k < i ==> person_capacity_matches(
                    #[trigger] people_capacity@[k],
                    people@[k],
                    assignments@,
                    projects@,
                ),
            over_committed == count_over_committed(people@.subrange(0, i as int), assignments@),
            over_committed <= i,
        decreases np - i,
    {
        proof {
            assert(people@.subrange(0, i + 1).drop_last() =~= people@.subrange(0, i as int));
            assert(people@.subrange(0, i + 1).last() == people@[i as int]);
        }
        let row = &people[i];
        let pc = person_capacity(row, assignments, projects);
        if pc.is_over_committed {
            over_committed = over_committed + 1;
        }
        people_capacity.push(pc);
        i = i + 1;
    }
    proof {
        assert(people@.subrange(0, np as int) =~= people@);
    }

    // Project side: only projects with a requirement, skipping unknown
    // people inside the rollups.
    let npr = projects.len();
    let mut staffing: Vec<ProjectStaffing> = Vec::new();
    let mut under_staffed: usize = 0;
    let mut i: usize = 0;
    proof {
        assert(projects@.subrange(0, 0) =~= Seq::<Project>::empty());
    }
    while i < npr
        invariant
            0 <= i <= npr,
            npr == projects@.len(),
            overview_fits(people@, projects@, requirements@, assignments@),
            staffing@.len() == projects_with_req(projects@.subrange(0, i as int), requirements@).len(),
            staffing@.len() <= i,
            forall|j: int|
                0 <= j < staffing@.len() ==> project_staffing_matches(
                    #[trigger] staffing@[j],
                    projects_with_req(projects@, requirements@)[j],
                    requirements@[crate::optimizer::requirement_index_of(
                        requirements@,
                        projects_with_req(projects@, requirements@)[j].id,
                    )],
                    assignments@,
                    people@,
                ),
            under_staffed == count_understaffed(
                projects_with_req(projects@.subrange(0, i as int), requirements@),
                requirements@,
                assignments@,
                people@,
            ),
            under_staffed <= i,
        decreases npr - i,
    {
        proof {
            assert(projects@.subrange(0, i + 1).drop_last() =~= projects@.subrange(0, i as int));
            assert(projects@.subrange(0, i + 1).last() == projects@[i as int]);
            lemma_pwr_prefix(projects@, requirements@, i as int);
            lemma_pwr_prefix(projects@, requirements@, i + 1);
        }
        let project = &projects[i];
        let ridx = crate::optimizer::find_requirement_index(requirements, project.id);
        if ridx < requirements.len() {
            let req = &requirements[ridx];
            let ghost pwr_new = projects_with_req(projects@.subrange(0, i + 1), requirements@);
            let ghost pwr_old = projects_with_req(projects@.subrange(0, i as int), requirements@);
            let ghost pwr_full = projects_with_req(projects@, requirements@);
            proof {
                assert(pwr_new =~= pwr_old + seq![projects@[i as int]]);
                assert(pwr_new.drop_last() =~= pwr_old);
                let j = pwr_old.len() as int;
                assert(pwr_new[j] == projects@[i as int]);
                assert(pwr_full[j] == projects@[i as int]);
                assert(project_rollup_fits(
                    assignments@,
                    pwr_full[j].id,
                    people@,
                    requirements@[crate::optimizer::requirement_index_of(
                        requirements@,
                        pwr_full[j].id,
                    )].required_hours_mh as int,
                ));
            }
            let ps = project_staffing_skipping(project, req, assignments, people);
            if !ps.is_viable {
                under_staffed = under_staffed + 1;
            }
            staffing.push(ps);
            proof {
                let j = pwr_old.len() as int;
                assert(staffing@[j] == ps);
                assert forall|w: int| 0 <= w < staffing@.len() implies project_staffing_matches(
                    #[trigger] staffing@[w],
                    pwr_full[w],
                    requirements@[crate::optimizer::requirement_index_of(
                        requirements@,
                        pwr_full[w].id,
                    )],
                    assignments@,
                    people@,
                ) by {
                    if w < j {
                        assert(staffing@[w] == staffing@.subrange(0, j)[w]);
                    }
                }
            }
        } else {
            proof {
                let pwr_new = projects_with_req(projects@.subrange(0, i + 1), requirements@);
                let pwr_old = projects_with_req(projects@.subrange(0, i as int), requirements@);
                assert(pwr_new =~= pwr_old + Seq::<Project>::empty());
                assert(pwr_new =~= pwr_old);
            }
        }
        i = i + 1;
    }
    proof {
        assert(projects@.subrange(0, npr as int) =~= projects@);
    }

    CapacityOverview {
        total_people: np,
        total_projects: staffing.len(),
        over_committed_people: over_committed,
        under_staffed_projects: under_staffed,
        people_capacity,
        project_staffing: staffing,
    }
}

/// A project rollup that skips assignments whose person is unknown, as the
/// overview does.
fn project_staffing_skipping(
    project: &Project,
    requirement: &ProjectRequirement,
    assignments: &Vec<Assignment>,
    people: &Vec<PersonAvailability>,
) -> (staffing: ProjectStaffing)
    requires
        project_rollup_fits(
            assignments@,
            project.id,
            people@,
            requirement.required_hours_mh as int,
        ),
    ensures
        project_staffing_matches(staffing, *project, *requirement, assignments@, people@),
{
    let pid = project.id;
    let n = assignments.len();
    let mut allocated: u128 = 0;
    let mut effective: u128 = 0;
    let mut rows: Vec<PersonAssignmentSummary> = Vec::new();
    let mut i: usize = 0;
    proof {
        assert(assignments@.subrange(0, 0) =~= Seq::<Assignment>::empty());
    }
    while i < n
        invariant
            0 <= i <= n,
            n == assignments@.len(),
            pid == project.id,
            project_rollup_fits(
                assignments@,
                project.id,
                people@,
                requirement.required_hours_mh as int,
            ),
            allocated == project_allocated_total(
                assignments@.subrange(0, i as int),
                pid,
                people@,
            ),
            effective == project_effective_total(
                assignments@.subrange(0, i as int),
                pid,
                people@,
            ),
            rows@.len() == project_row_models(
                assignments@.subrange(0, i as int),
                pid,
                people@,
            ).len(),
            forall|k: int|
                0 <= k < rows@.len() ==> row_matches(
                    #[trigger] rows@[k],
                    project_row_models(assignments@.subrange(0, i as int), pid, people@)[k],
                ),
        decreases n - i,
    {
        proof {
            assert(assignments@.subrange(0, i + 1).drop_last() =~= assignments@.subrange(
                0,
                i as int,
            ));
            assert(assignments@.subrange(0, i + 1).last() == assignments@[i as int]);
            lemma_project_totals_prefix(assignments@, i + 1, pid, people@);
            lemma_project_totals_prefix(assignments@, i as int, pid, people@);
        }
        let a = &assignments[i];
        let mut skipped = true;
        if a.project_id == pid {
            let idx = find_snapshot_index(people, a.person_id);
            if idx < people.len() {
                skipped = false;
                let snap = &people[idx];
                let avail = snap.breakdown.available_hours_mh;
                let pct = display_allocation_bp(a);
                proof {
                    lemma_mul_le(avail as int, u64::MAX as int, pct as int, u32::MAX as int);
                    lemma_mul_nonnegative(avail as int, pct as int);
                    lemma_div_pos_is_pos(avail as int * pct as int, PERCENT_SCALE as int);
                }
                let hours: u128 = (avail as u128 * pct as u128) / PERCENT_SCALE as u128;
                allocated = allocated + hours;
                let cached: u64 = match a.calculated_effective_mh {
                    Some(h) => h,
                    None => 0,
                };
                effective = effective + cached as u128;
                rows.push(
                    PersonAssignmentSummary {
                        assignment_id: a.id,
                        person_name: snap.person_name.clone(),
                        allocation_percentage_bp: pct,
                        productivity_pm: a.productivity_pm,
                        effective_hours_mh: cached,
                        breakdown: snap.breakdown,
                    },
                );
                proof {
                    let old_models = project_row_models(
                        assignments@.subrange(0, i as int),
                        pid,
                        people@,
                    );
                    let new_models = project_row_models(
                        assignments@.subrange(0, i + 1),
                        pid,
                        people@,
                    );
                    assert forall|k: int| 0 <= k < rows@.len() implies row_matches(
                        #[trigger] rows@[k],
                        new_models[k],
                    ) by {
                        if k < old_models.len() {
                            assert(new_models[k] == old_models[k]);
                        }
                    }
                }
            }
        }
        if skipped {
            proof {
                let old_models = project_row_models(
                    assignments@.subrange(0, i as int),
                    pid,
                    people@,
                );
                let new_models = project_row_models(assignments@.subrange(0, i + 1), pid, people@);
                assert(new_models =~= old_models + Seq::<PersonRowModel>::empty());
                assert(new_models =~= old_models);
            }
        }
        i = i + 1;
    }
    proof {
        assert(assignments@.subrange(0, n as int) =~= assignments@);
    }
    let total_allocated = allocated as u64;
    let total_effective = effective as u64;
    let level = staffing_bp(total_effective, requirement.required_hours_mh);
    let viable = is_staffing_viable(level);
    let shortfall: u64 = if viable || total_effective >= requirement.required_hours_mh {
        0
    } else {
        requirement.required_hours_mh - total_effective
    };
    ProjectStaffing {
        project_id: pid,
        project_name: project.name.clone(),
        required_hours_mh: requirement.required_hours_mh,
        total_allocated_hours_mh: total_allocated,
        total_effective_hours_mh: total_effective,
        staffing_bp: level,
        is_viable: viable,
        shortfall_mh: shortfall,
        assigned_people: rows,
    }
}


} // verus!
