//! Priority-tiered proportional allocation: the optimization run that turns
//! availability, requirements and pinned commitments into per-assignment
//! allocation percentages and effective hours.

use vstd::prelude::*;

use crate::availability::availability_dates_parse;
use crate::availability::availability_inputs_valid;
use crate::availability::availability_sums_fit;
use crate::availability::base_hours_math;
use crate::availability::calculate_person_available_hours;
use crate::calendar::count_working_days_math;
use crate::availability::holiday_days_total_spec;
use crate::availability::hours_per_day_math;
use crate::availability::min_int;
use crate::availability::max_int;
use crate::availability::required_overhead_total_math;
use crate::availability::total_absence_days_math;
use crate::availability::total_days_math;
use crate::availability::weighted_optional_total_math;
use crate::dates::MAX_DAY_INDEX;
use crate::hours::EFFECTIVE_DIVISOR;
use crate::hours::FACTOR_SCALE;
use crate::hours::PERCENT_SCALE;
use crate::hours::available_hours_math;
use crate::hours::calculate_assignment_effective_hours;
use crate::hours::effective_hours_math;
use crate::hours::lemma_mul_le;
use crate::models::Absence;
use crate::models::Assignment;
use crate::models::EngineError;
use crate::models::Holiday;
use crate::models::OverheadTask;
use crate::models::Person;
use crate::models::PlanningPeriod;
use crate::models::Project;
use crate::models::ProjectRequirement;

use vstd::arithmetic::div_mod::lemma_div_is_ordered;
use vstd::arithmetic::div_mod::lemma_fundamental_div_mod;
use vstd::arithmetic::div_mod::lemma_mod_bound;
use vstd::arithmetic::div_mod::lemma_div_multiples_vanish;
use vstd::arithmetic::div_mod::lemma_div_nonincreasing;
use vstd::arithmetic::div_mod::lemma_div_pos_is_pos;

verus! {

/// Ceiling on how many assignments one optimization run takes on; keeps
/// every fixed-point sum inside a `u64`/`u128`.
pub const MAX_ASSIGNMENTS: usize = 0x1000_0000;

/// Ceiling on a single pinned allocation percentage (10 000% in basis
/// points); keeps pinned effective hours inside a `u64`.
pub const MAX_PINNED_ALLOCATION_BP: u32 = 1_000_000;

/// Everything the engine needs to know about one person for a run: the
/// person and their period-overlapping absences, country holidays and job
/// overhead tasks, as the record store hands them over.
pub struct PersonContext {
    pub person: Person,
    pub absences: Vec<Absence>,
    pub holidays: Vec<Holiday>,
    pub tasks: Vec<OverheadTask>,
}

/// Mutable per-run state of one person.
#[derive(Clone, Copy, PartialEq, Eq, Structural, Debug)]
pub struct PersonState {
    pub person_id: i64,
    pub available_mh: u64,
    pub pinned_total_bp: u64,
    pub remaining_bp: u64,
}

/// One row of the optimization outcome, destined for the assignment's
/// calculated-value cache.
#[derive(Clone, Copy, PartialEq, Eq, Structural, Debug)]
pub struct AssignmentCalculation {
    pub assignment_id: i64,
    pub calculated_allocation_bp: u32,
    pub calculated_effective_mh: u64,
}

/// A project whose requirement could not be met, with the gap.
#[derive(Clone, Debug)]
pub struct ProjectShortfall {
    pub project_id: i64,
    pub project_name: String,
    pub required_hours_mh: u64,
    pub available_effective_hours_mh: u64,
    pub shortfall_mh: u64,
    pub shortfall_bp: u64,
}

/// Non-fatal findings of a run: surfaced, never thrown.
#[derive(Clone, Copy, PartialEq, Eq, Structural, Debug)]
pub enum OptimizationWarning {
    /// The period has no assignments; the run did nothing.
    NoAssignments,
    /// A project has assignments but no requirement row; it was skipped.
    MissingRequirement { project_id: i64 },
    /// A person's pinned allocations add up past 100%.
    PinnedOverCommitted { person_id: i64, pinned_total_bp: u64 },
}

/// What an optimization run returns: the calculations to persist, the
/// projects left understaffed, and the warnings gathered along the way.
pub struct OptimizationResult {
    pub success: bool,
    pub calculations: Vec<AssignmentCalculation>,
    pub infeasible_projects: Vec<ProjectShortfall>,
    pub warnings: Vec<OptimizationWarning>,
}

/// Spec-level image of a shortfall record; the name is a character sequence.
pub struct ShortfallModel {
    pub project_id: i64,
    pub project_name: Seq<char>,
    pub required_hours_mh: u64,
    pub available_effective_hours_mh: u64,
    pub shortfall_mh: u64,
    pub shortfall_bp: u64,
}

/// Spec-level image of a whole run.
pub struct OptimizationModel {
    pub calculations: Seq<AssignmentCalculation>,
    pub infeasible: Seq<ShortfallModel>,
    pub warnings: Seq<OptimizationWarning>,
}

pub open spec fn shortfall_matches(s: ProjectShortfall, m: ShortfallModel) -> bool {
    &&& s.project_id == m.project_id
    &&& s.project_name@ == m.project_name
    &&& s.required_hours_mh == m.required_hours_mh
    &&& s.available_effective_hours_mh == m.available_effective_hours_mh
    &&& s.shortfall_mh == m.shortfall_mh
    &&& s.shortfall_bp == m.shortfall_bp
}

// ---------------------------------------------------------------------------
// Lookups
// ---------------------------------------------------------------------------

/// Index of the first state of `person_id`, or the length when absent.
pub open spec fn state_index_of(states: Seq<PersonState>, person_id: i64) -> int
    decreases states.len(),
{
    if states.len() == 0 {
        0
    } else if states[0].person_id == person_id {
        0
    } else {
        1 + state_index_of(states.drop_first(), person_id)
    }
}

pub open spec fn has_state(states: Seq<PersonState>, person_id: i64) -> bool {
    state_index_of(states, person_id) < states.len()
}

/// Index of the first requirement of `project_id`, or the length.
pub open spec fn requirement_index_of(reqs: Seq<ProjectRequirement>, project_id: i64) -> int
    decreases reqs.len(),
{
    if reqs.len() == 0 {
        0
    } else if reqs[0].project_id == project_id {
        0
    } else {
        1 + requirement_index_of(reqs.drop_first(), project_id)
    }
}

pub open spec fn has_requirement(reqs: Seq<ProjectRequirement>, project_id: i64) -> bool {
    requirement_index_of(reqs, project_id) < reqs.len()
}

/// The name of the first project carrying `project_id`; empty when unknown.
pub open spec fn project_name_of(projects: Seq<Project>, project_id: i64) -> Seq<char>
    decreases projects.len(),
{
    if projects.len() == 0 {
        Seq::empty()
    } else if projects[0].id == project_id {
        projects[0].name@
    } else {
        project_name_of(projects.drop_first(), project_id)
    }
}

proof fn lemma_state_index_of(states: Seq<PersonState>, person_id: i64)
    ensures
        0 <= state_index_of(states, person_id) <= states.len(),
        has_state(states, person_id) ==> states[state_index_of(states, person_id)].person_id
            == person_id,
        forall|j: int|
            0 <= j < state_index_of(states, person_id) ==> (#[trigger] states[j]).person_id
                != person_id,
    decreases states.len(),
{
    if states.len() > 0 && states[0].person_id != person_id {
        lemma_state_index_of(states.drop_first(), person_id);
        assert forall|j: int|
            0 <= j < state_index_of(states, person_id) implies (#[trigger] states[j]).person_id
            != person_id by {
            if j > 0 {
                assert(states.drop_first()[j - 1] == states[j]);
            }
        }
    }
}

proof fn lemma_requirement_index_of(reqs: Seq<ProjectRequirement>, project_id: i64)
    ensures
        0 <= requirement_index_of(reqs, project_id) <= reqs.len(),
        has_requirement(reqs, project_id) ==> reqs[requirement_index_of(
            reqs,
            project_id,
        )].project_id == project_id,
        forall|j: int|
            0 <= j < requirement_index_of(reqs, project_id) ==> (#[trigger] reqs[j]).project_id
                != project_id,
    decreases reqs.len(),
{
    if reqs.len() > 0 && reqs[0].project_id != project_id {
        lemma_requirement_index_of(reqs.drop_first(), project_id);
        assert forall|j: int|
            0 <= j < requirement_index_of(reqs, project_id) implies (#[trigger] reqs[j]).project_id
            != project_id by {
            if j > 0 {
                assert(reqs.drop_first()[j - 1] == reqs[j]);
            }
        }
    }
}

/// Finds the first state of `person_id`, or the length when absent.
fn find_state_index(states: &Vec<PersonState>, person_id: i64) -> (index: usize)
    ensures
        index == state_index_of(states@, person_id),
        index <= states@.len(),
        index < states@.len() ==> states@[index as int].person_id == person_id,
{
    proof {
        lemma_state_index_of(states@, person_id);
    }
    let n = states.len();
    let mut i: usize = 0;
    while i < n
        invariant
            0 <= i <= n,
            n == states@.len(),
            forall|j: int| 0 <= j < i ==> (#[trigger] states@[j]).person_id != person_id,
        decreases n - i,
    {
        if states[i].person_id == person_id {
            proof {
                lemma_state_index_unique(states@, person_id, i as int);
            }
            return i;
        }
        i = i + 1;
    }
    proof {
        lemma_state_index_unique(states@, person_id, n as int);
    }
    n
}

proof fn lemma_state_index_unique(states: Seq<PersonState>, person_id: i64, i: int)
    requires
        0 <= i <= states.len(),
        forall|j: int| 0 <= j < i ==> (#[trigger] states[j]).person_id != person_id,
        i < states.len() ==> states[i].person_id == person_id,
    ensures
        state_index_of(states, person_id) == i,
    decreases states.len(),
{
    if states.len() > 0 && states[0].person_id != person_id {
        lemma_state_index_unique(states.drop_first(), person_id, i - 1);
    }
}

proof fn lemma_requirement_index_unique(reqs: Seq<ProjectRequirement>, project_id: i64, i: int)
    requires
        0 <= i <= reqs.len(),
        forall|j: int| 0 <= j < i ==> (#[trigger] reqs[j]).project_id != project_id,
        i < reqs.len() ==> reqs[i].project_id == project_id,
    ensures
        requirement_index_of(reqs, project_id) == i,
    decreases reqs.len(),
{
    if reqs.len() > 0 && reqs[0].project_id != project_id {
        lemma_requirement_index_unique(reqs.drop_first(), project_id, i - 1);
    }
}

/// Finds the first requirement of `project_id`, or the length when absent.
pub fn find_requirement_index(reqs: &Vec<ProjectRequirement>, project_id: i64) -> (index: usize)
    ensures
        index == requirement_index_of(reqs@, project_id),
        index <= reqs@.len(),
        index < reqs@.len() ==> reqs@[index as int].project_id == project_id,
{
    proof {
        lemma_requirement_index_of(reqs@, project_id);
    }
    let n = reqs.len();
    let mut i: usize = 0;
    while i < n
        invariant
            0 <= i <= n,
            n == reqs@.len(),
            forall|j: int| 0 <= j < i ==> (#[trigger] reqs@[j]).project_id != project_id,
        decreases n - i,
    {
        if reqs[i].project_id == project_id {
            proof {
                lemma_requirement_index_unique(reqs@, project_id, i as int);
            }
            return i;
        }
        i = i + 1;
    }
    proof {
        lemma_requirement_index_unique(reqs@, project_id, n as int);
    }
    n
}

/// Copies out the name of the first project carrying `project_id`, or the
/// empty string.
pub fn find_project_name(projects: &Vec<Project>, project_id: i64) -> (name: String)
    ensures
        name@ == project_name_of(projects@, project_id),
{
    let n = projects.len();
    proof {
        assert(projects@.subrange(0, n as int) =~= projects@);
    }
    let mut i: usize = 0;
    while i < n
        invariant
            0 <= i <= n,
            n == projects@.len(),
            project_name_of(projects@, project_id) == project_name_of(
                projects@.subrange(i as int, n as int),
                project_id,
            ),
        decreases n - i,
    {
        proof {
            assert(projects@.subrange(i as int, n as int).drop_first() =~= projects@.subrange(
                i + 1,
                n as int,
            ));
        }
        if projects[i].id == project_id {
            return projects[i].name.clone();
        }
        i = i + 1;
    }
    proof {
        reveal_strlit("");
    }
    "".to_owned()
}

// ---------------------------------------------------------------------------
// The run, as a mathematical function of its inputs
// ---------------------------------------------------------------------------

/// What one person has available for the run: the availability calculation's
/// net result, composed from its published pieces.
pub open spec fn person_available_spec(ctx: PersonContext, period: PlanningPeriod) -> int {
    let td = total_days_math(period);
    let wdc = count_working_days_math(ctx.person.working_days@);
    let weekly = ctx.person.available_hours_per_week_mh as int;
    let hpd = hours_per_day_math(wdc, weekly);
    available_hours_math(
        base_hours_math(td, wdc, weekly),
        total_absence_days_math(ctx.absences@) * hpd,
        holiday_days_total_spec(ctx.person, period, ctx.absences@, ctx.holidays@) * hpd,
        required_overhead_total_math(ctx.tasks@, td, wdc),
        weighted_optional_total_math(ctx.tasks@, td, wdc),
        FACTOR_SCALE as int,
    )
}

pub open spec fn pinned_pct_of(a: Assignment) -> int {
    match a.pinned_allocation_bp {
        Some(p) => p as int,
        None => 0,
    }
}

/// Basis points pinned for one person across every assignment of the run.
pub open spec fn pinned_total_for(assignments: Seq<Assignment>, person_id: i64) -> int
    decreases assignments.len(),
{
    if assignments.len() == 0 {
        0
    } else {
        pinned_total_for(assignments.drop_last(), person_id) + {
            let a = assignments.last();
            if a.person_id == person_id && a.is_pinned {
                pinned_pct_of(a)
            } else {
                0
            }
        }
    }
}

/// Capacity not yet committed after pinning, floored at zero.
pub open spec fn initial_remaining(pinned: int) -> int {
    if pinned >= PERCENT_SCALE {
        0
    } else {
        PERCENT_SCALE - pinned
    }
}

/// Per-person state before the first project is served.
pub open spec fn initial_states(
    people: Seq<PersonContext>,
    period: PlanningPeriod,
    assignments: Seq<Assignment>,
) -> Seq<PersonState> {
    Seq::new(
        people.len(),
        |k: int|
            PersonState {
                person_id: people[k].person.id,
                available_mh: person_available_spec(people[k], period) as u64,
                pinned_total_bp: pinned_total_for(assignments, people[k].person.id) as u64,
                remaining_bp: initial_remaining(
                    pinned_total_for(assignments, people[k].person.id),
                ) as u64,
            },
    )
}

/// One warning for each person pinned past 100%, in people order.
pub open spec fn pin_warnings(states: Seq<PersonState>) -> Seq<OptimizationWarning>
    decreases states.len(),
{
    if states.len() == 0 {
        Seq::empty()
    } else {
        pin_warnings(states.drop_last()) + {
            let st = states.last();
            if st.pinned_total_bp > PERCENT_SCALE {
                seq![
                    OptimizationWarning::PinnedOverCommitted {
                        person_id: st.person_id,
                        pinned_total_bp: st.pinned_total_bp,
                    },
                ]
            } else {
                Seq::empty()
            }
        }
    }
}

/// Project ids in order of first appearance among the assignments.
pub open spec fn distinct_project_ids(assignments: Seq<Assignment>) -> Seq<i64>
    decreases assignments.len(),
{
    if assignments.len() == 0 {
        Seq::empty()
    } else {
        let r = distinct_project_ids(assignments.drop_last());
        if r.contains(assignments.last().project_id) {
            r
        } else {
            r.push(assignments.last().project_id)
        }
    }
}

/// `(priority, project_id)` for each project that has a requirement.
pub open spec fn project_entries(ids: Seq<i64>, reqs: Seq<ProjectRequirement>) -> Seq<(i64, i64)>
    decreases ids.len(),
{
    if ids.len() == 0 {
        Seq::empty()
    } else {
        let r = project_entries(ids.drop_last(), reqs);
        if has_requirement(reqs, ids.last()) {
            r.push((reqs[requirement_index_of(reqs, ids.last())].priority, ids.last()))
        } else {
            r
        }
    }
}

/// One warning for each project with assignments but no requirement.
pub open spec fn requirement_warnings(ids: Seq<i64>, reqs: Seq<ProjectRequirement>) -> Seq<
    OptimizationWarning,
>
    decreases ids.len(),
{
    if ids.len() == 0 {
        Seq::empty()
    } else {
        let r = requirement_warnings(ids.drop_last(), reqs);
        if has_requirement(reqs, ids.last()) {
            r
        } else {
            r.push(OptimizationWarning::MissingRequirement { project_id: ids.last() })
        }
    }
}

/// Serving order: higher priority first, ties by ascending project id.
pub open spec fn entry_le(a: (i64, i64), b: (i64, i64)) -> bool {
    a.0 > b.0 || (a.0 == b.0 && a.1 <= b.1)
}

pub open spec fn insert_entry(x: (i64, i64), s: Seq<(i64, i64)>) -> Seq<(i64, i64)>
    decreases s.len(),
{
    if s.len() == 0 {
        seq![x]
    } else if entry_le(x, s[0]) {
        seq![x] + s
    } else {
        seq![s[0]] + insert_entry(x, s.drop_first())
    }
}

/// Insertion sort of the project entries; keys are distinct, so this is the
/// unique ordering by `entry_le`.
pub open spec fn sort_entries(s: Seq<(i64, i64)>) -> Seq<(i64, i64)>
    decreases s.len(),
{
    if s.len() == 0 {
        Seq::empty()
    } else {
        insert_entry(s.last(), sort_entries(s.drop_last()))
    }
}

/// What one person can still put into a project: available hours times
/// remaining capacity times productivity.
pub open spec fn max_contribution_of(a: Assignment, states: Seq<PersonState>) -> int {
    let st = states[state_index_of(states, a.person_id)];
    effective_hours_math(st.available_mh as int, st.remaining_bp as int, a.productivity_pm as int)
}

/// The calculation recorded for a pinned assignment: its pinned percentage,
/// honored as is.
pub open spec fn pinned_calc_of(a: Assignment, states: Seq<PersonState>) -> AssignmentCalculation {
    let st = states[state_index_of(states, a.person_id)];
    AssignmentCalculation {
        assignment_id: a.id,
        calculated_allocation_bp: pinned_pct_of(a) as u32,
        calculated_effective_mh: effective_hours_math(
            st.available_mh as int,
            pinned_pct_of(a),
            a.productivity_pm as int,
        ) as u64,
    }
}

/// Calculations of the pinned assignments of one project, in input order.
pub open spec fn pinned_calcs(asgs: Seq<Assignment>, pid: i64, states: Seq<PersonState>) -> Seq<
    AssignmentCalculation,
>
    decreases asgs.len(),
{
    if asgs.len() == 0 {
        Seq::empty()
    } else {
        pinned_calcs(asgs.drop_last(), pid, states) + {
            let a = asgs.last();
            if a.project_id == pid && a.is_pinned {
                seq![pinned_calc_of(a, states)]
            } else {
                Seq::empty()
            }
        }
    }
}

/// Effective hours already pinned onto one project.
pub open spec fn pinned_hours(asgs: Seq<Assignment>, pid: i64, states: Seq<PersonState>) -> int
    decreases asgs.len(),
{
    if asgs.len() == 0 {
        0
    } else {
        pinned_hours(asgs.drop_last(), pid, states) + {
            let a = asgs.last();
            if a.project_id == pid && a.is_pinned {
                pinned_calc_of(a, states).calculated_effective_mh as int
            } else {
                0
            }
        }
    }
}

/// Capacity the unpinned assignments of one project can contribute in all.
pub open spec fn total_available(asgs: Seq<Assignment>, pid: i64, states: Seq<PersonState>) -> int
    decreases asgs.len(),
{
    if asgs.len() == 0 {
        0
    } else {
        total_available(asgs.drop_last(), pid, states) + {
            let a = asgs.last();
            if a.project_id == pid && !a.is_pinned {
                max_contribution_of(a, states)
            } else {
                0
            }
        }
    }
}

/// The allocation percentage an unpinned assignment receives: its
/// proportional share converted back to basis points, capped by the
/// remaining capacity the person had when the project was taken up.
pub open spec fn allocation_pct_math(
    avail: int,
    rem0: int,
    prod: int,
    max_i: int,
    total: int,
    htd: int,
) -> int {
    if avail > 0 && prod > 0 {
        let share = max_i * htd / total;
        min_int(share * EFFECTIVE_DIVISOR as int / (prod * avail), rem0)
    } else {
        0
    }
}

/// Outcome of a distribution pass or a whole run segment.
pub struct RunOutcome {
    pub states: Seq<PersonState>,
    pub calcs: Seq<AssignmentCalculation>,
    pub shortfalls: Seq<ShortfallModel>,
    pub effective_sum: int,
}

/// Distributes `htd` hours over the unpinned assignments of project `pid`,
/// in input order. `states0` is the snapshot taken when the project was
/// taken up; `live` carries the capacity decrements.
pub open spec fn distribute_math(
    asgs: Seq<Assignment>,
    pid: i64,
    states0: Seq<PersonState>,
    live: Seq<PersonState>,
    total: int,
    htd: int,
) -> RunOutcome
    decreases asgs.len(),
{
    if asgs.len() == 0 {
        RunOutcome { states: live, calcs: Seq::empty(), shortfalls: Seq::empty(), effective_sum: 0 }
    } else {
        let a = asgs[0];
        let rest = asgs.drop_first();
        if a.project_id == pid && !a.is_pinned {
            let st0 = states0[state_index_of(states0, a.person_id)];
            let max_i = effective_hours_math(
                st0.available_mh as int,
                st0.remaining_bp as int,
                a.productivity_pm as int,
            );
            let pct = allocation_pct_math(
                st0.available_mh as int,
                st0.remaining_bp as int,
                a.productivity_pm as int,
                max_i,
                total,
                htd,
            );
            let eff = effective_hours_math(st0.available_mh as int, pct, a.productivity_pm as int);
            let idx = state_index_of(live, a.person_id);
            let lrem = live[idx].remaining_bp as int;
            let nrem = if lrem >= pct {
                lrem - pct
            } else {
                0
            };
            let live2 = live.update(
                idx,
                PersonState { remaining_bp: nrem as u64, ..live[idx] },
            );
            let rec = distribute_math(rest, pid, states0, live2, total, htd);
            RunOutcome {
                states: rec.states,
                calcs: seq![
                    AssignmentCalculation {
                        assignment_id: a.id,
                        calculated_allocation_bp: pct as u32,
                        calculated_effective_mh: eff as u64,
                    },
                ] + rec.calcs,
                shortfalls: Seq::empty(),
                effective_sum: eff + rec.effective_sum,
            }
        } else {
            distribute_math(rest, pid, states0, live, total, htd)
        }
    }
}

/// The shortfall record of one project, when its requirement was missed.
pub open spec fn shortfall_of(
    pid: i64,
    req: ProjectRequirement,
    total_eff: int,
    projects: Seq<Project>,
) -> Seq<ShortfallModel> {
    if total_eff < req.required_hours_mh {
        seq![
            ShortfallModel {
                project_id: pid,
                project_name: project_name_of(projects, pid),
                required_hours_mh: req.required_hours_mh,
                available_effective_hours_mh: total_eff as u64,
                shortfall_mh: (req.required_hours_mh - total_eff) as u64,
                shortfall_bp: ((req.required_hours_mh - total_eff) * PERCENT_SCALE as int
                    / req.required_hours_mh as int) as u64,
            },
        ]
    } else {
        Seq::empty()
    }
}

/// Serves one project: honors its pinned assignments, distributes what
/// remains of the requirement proportionally, and reports a shortfall when
/// the requirement is missed.
pub open spec fn project_step(
    states: Seq<PersonState>,
    pid: i64,
    assignments: Seq<Assignment>,
    reqs: Seq<ProjectRequirement>,
    projects: Seq<Project>,
) -> RunOutcome {
    let req = reqs[requirement_index_of(reqs, pid)];
    let pcalcs = pinned_calcs(assignments, pid, states);
    let ph = pinned_hours(assignments, pid, states);
    let total = total_available(assignments, pid, states);
    let needed = max_int(req.required_hours_mh - ph, 0);
    let htd = min_int(needed, total);
    if total > 0 {
        let d = distribute_math(assignments, pid, states, states, total, htd);
        RunOutcome {
            states: d.states,
            calcs: pcalcs + d.calcs,
            shortfalls: shortfall_of(pid, req, ph + d.effective_sum, projects),
            effective_sum: ph + d.effective_sum,
        }
    } else {
        RunOutcome {
            states,
            calcs: pcalcs,
            shortfalls: shortfall_of(pid, req, ph, projects),
            effective_sum: ph,
        }
    }
}

/// Serves the projects in order, threading the person states through.
pub open spec fn run_projects(
    states: Seq<PersonState>,
    entries: Seq<(i64, i64)>,
    assignments: Seq<Assignment>,
    reqs: Seq<ProjectRequirement>,
    projects: Seq<Project>,
) -> RunOutcome
    decreases entries.len(),
{
    if entries.len() == 0 {
        RunOutcome { states, calcs: Seq::empty(), shortfalls: Seq::empty(), effective_sum: 0 }
    } else {
        let step = project_step(states, entries[0].1, assignments, reqs, projects);
        let rest = run_projects(step.states, entries.drop_first(), assignments, reqs, projects);
        RunOutcome {
            states: rest.states,
            calcs: step.calcs + rest.calcs,
            shortfalls: step.shortfalls + rest.shortfalls,
            effective_sum: step.effective_sum + rest.effective_sum,
        }
    }
}

/// The whole run as a function of its inputs. The calculated-value cache on
/// the assignments is not among the inputs read, so re-running on unchanged
/// data returns the same model.
pub open spec fn optimize_model(
    period: PlanningPeriod,
    assignments: Seq<Assignment>,
    reqs: Seq<ProjectRequirement>,
    projects: Seq<Project>,
    people: Seq<PersonContext>,
) -> OptimizationModel {
    if assignments.len() == 0 {
        OptimizationModel {
            calculations: Seq::empty(),
            infeasible: Seq::empty(),
            warnings: seq![OptimizationWarning::NoAssignments],
        }
    } else {
        let states0 = initial_states(people, period, assignments);
        let ids = distinct_project_ids(assignments);
        let entries = sort_entries(project_entries(ids, reqs));
        let run = run_projects(states0, entries, assignments, reqs, projects);
        OptimizationModel {
            calculations: run.calcs,
            infeasible: run.shortfalls,
            warnings: pin_warnings(states0) + requirement_warnings(ids, reqs),
        }
    }
}

// ---------------------------------------------------------------------------
// Input conditions
// ---------------------------------------------------------------------------

/// The availability inputs of one person are complete and within machine
/// limits.
pub open spec fn person_context_valid(ctx: PersonContext, period: PlanningPeriod) -> bool {
    &&& ctx.person.working_days@.len() < usize::MAX
    &&& availability_inputs_valid(period, ctx.absences@, ctx.tasks@)
    &&& availability_sums_fit(ctx.person, period, ctx.absences@, ctx.holidays@, ctx.tasks@)
}

/// Every date string of every person's availability inputs parses.
pub open spec fn people_dates_parse(people: Seq<PersonContext>, period: PlanningPeriod) -> bool {
    forall|k: int|
        0 <= k < people.len() ==> availability_dates_parse(
            (#[trigger] people[k]).person,
            period,
            people[k].absences@,
            people[k].holidays@,
        )
}

/// Assignment fields are within their documented ranges, and the run is
/// within machine limits.
pub open spec fn assignments_valid(assignments: Seq<Assignment>) -> bool {
    &&& assignments.len() <= MAX_ASSIGNMENTS
    &&& forall|k: int|
        0 <= k < assignments.len() ==> (#[trigger] assignments[k]).productivity_pm <= FACTOR_SCALE
            && pinned_pct_of(assignments[k]) <= MAX_PINNED_ALLOCATION_BP
}

/// Index of the first assignment whose person has no state, or the length.
pub open spec fn first_missing_person(
    assignments: Seq<Assignment>,
    states: Seq<PersonState>,
) -> int
    decreases assignments.len(),
{
    if assignments.len() == 0 {
        0
    } else if !has_state(states, assignments[0].person_id) {
        0
    } else {
        1 + first_missing_person(assignments.drop_first(), states)
    }
}

pub open spec fn all_persons_known(assignments: Seq<Assignment>, states: Seq<PersonState>) -> bool {
    first_missing_person(assignments, states) == assignments.len()
}

/// Largest net availability any person can have.
pub open spec fn avail_bound() -> int {
    (MAX_DAY_INDEX + 1) * u32::MAX
}

/// The state bounds every arithmetic step of a run leans on.
pub open spec fn states_wf(states: Seq<PersonState>) -> bool {
    forall|k: int|
        0 <= k < states.len() ==> (#[trigger] states[k]).available_mh <= avail_bound() && states[
            k
        ].remaining_bp <= PERCENT_SCALE
}

/// Two state sequences that agree on everything but the remaining capacity.
pub open spec fn states_aligned(s1: Seq<PersonState>, s2: Seq<PersonState>) -> bool {
    &&& s1.len() == s2.len()
    &&& forall|k: int|
        0 <= k < s1.len() ==> (#[trigger] s2[k]).person_id == s1[k].person_id && s2[k].available_mh
            == s1[k].available_mh && s2[k].pinned_total_bp == s1[k].pinned_total_bp
}

// ---------------------------------------------------------------------------
// Arithmetic bounds
// ---------------------------------------------------------------------------

/// An allocation within remaining capacity never credits more than the
/// person has.
pub proof fn lemma_effective_le_available(a: int, p: int, f: int)
    requires
        0 <= a,
        0 <= p <= PERCENT_SCALE,
        0 <= f <= FACTOR_SCALE,
    ensures
        0 <= effective_hours_math(a, p, f) <= a,
{
    lemma_mul_le(a, a, p, PERCENT_SCALE as int);
    lemma_mul_le(a * p, a * PERCENT_SCALE as int, f, FACTOR_SCALE as int);
    lemma_div_is_ordered(a * p * f, a * EFFECTIVE_DIVISOR as int, EFFECTIVE_DIVISOR as int);
    lemma_div_multiples_vanish(a, EFFECTIVE_DIVISOR as int);
    assert(a * EFFECTIVE_DIVISOR as int == EFFECTIVE_DIVISOR as int * a) by (nonlinear_arith);
    lemma_div_pos_is_pos(a * p * f, EFFECTIVE_DIVISOR as int);
}

/// A pinned allocation, even past 100%, stays within `u64` effective hours.
pub proof fn lemma_effective_pinned_bound(a: int, p: int, f: int)
    requires
        0 <= a <= avail_bound(),
        0 <= p <= MAX_PINNED_ALLOCATION_BP,
        0 <= f <= FACTOR_SCALE,
    ensures
        0 <= effective_hours_math(a, p, f) <= 100 * avail_bound() < u64::MAX,
{
    lemma_mul_le(a, avail_bound(), p, MAX_PINNED_ALLOCATION_BP as int);
    lemma_mul_le(
        a * p,
        avail_bound() * MAX_PINNED_ALLOCATION_BP as int,
        f,
        FACTOR_SCALE as int,
    );
    lemma_div_is_ordered(
        a * p * f,
        avail_bound() * 1_000_000_000,
        EFFECTIVE_DIVISOR as int,
    );
    lemma_div_multiples_vanish(100 * avail_bound(), EFFECTIVE_DIVISOR as int);
    assert(avail_bound() * 1_000_000_000 == EFFECTIVE_DIVISOR as int * (100 * avail_bound()))
        by (nonlinear_arith);
    lemma_div_pos_is_pos(a * p * f, EFFECTIVE_DIVISOR as int);
}

/// A proportional share never exceeds the contribution it is cut from.
pub proof fn lemma_share_le(m: int, htd: int, total: int)
    requires
        0 <= m,
        0 <= htd <= total,
        0 < total,
    ensures
        0 <= m * htd / total <= m,
{
    lemma_mul_le(m, m, htd, total);
    lemma_div_is_ordered(m * htd, m * total, total);
    assert(m * total == total * m) by (nonlinear_arith);
    lemma_div_multiples_vanish(m, total);
    vstd::arithmetic::mul::lemma_mul_nonnegative(m, htd);
    lemma_div_pos_is_pos(m * htd, total);
}

// ---------------------------------------------------------------------------
// Building the per-person states
// ---------------------------------------------------------------------------

proof fn lemma_pinned_total_prefix(assignments: Seq<Assignment>, i: int, person_id: i64)
    requires
        0 <= i <= assignments.len(),
        assignments_valid(assignments),
    ensures
        0 <= pinned_total_for(assignments.subrange(0, i), person_id) <= i
            * MAX_PINNED_ALLOCATION_BP,
    decreases i,
{
    if i == 0 {
        assert(assignments.subrange(0, 0) =~= Seq::empty());
    } else {
        lemma_pinned_total_prefix(assignments, i - 1, person_id);
        assert(assignments.subrange(0, i).drop_last() =~= assignments.subrange(0, i - 1));
        lemma_mul_le(i - 1, i - 1, MAX_PINNED_ALLOCATION_BP as int, MAX_PINNED_ALLOCATION_BP as int);
        assert((i - 1) * MAX_PINNED_ALLOCATION_BP + MAX_PINNED_ALLOCATION_BP == i
            * MAX_PINNED_ALLOCATION_BP) by (nonlinear_arith);
    }
}

/// Basis points pinned for one person, summed over every assignment.
fn compute_pinned_total(assignments: &Vec<Assignment>, person_id: i64) -> (total: u64)
    requires
        assignments_valid(assignments@),
    ensures
        total == pinned_total_for(assignments@, person_id),
        total <= MAX_ASSIGNMENTS * MAX_PINNED_ALLOCATION_BP,
{
    let n = assignments.len();
    let mut acc: u64 = 0;
    let mut i: usize = 0;
    while i < n
        invariant
            0 <= i <= n,
            n == assignments@.len(),
            assignments_valid(assignments@),
            acc == pinned_total_for(assignments@.subrange(0, i as int), person_id),
            acc <= i * MAX_PINNED_ALLOCATION_BP,
        decreases n - i,
    {
        proof {
            assert(assignments@.subrange(0, i + 1).drop_last() =~= assignments@.subrange(
                0,
                i as int,
            ));
            assert(assignments@.subrange(0, i + 1).last() == assignments@[i as int]);
        }
        let a = &assignments[i];
        if a.person_id == person_id && a.is_pinned {
            match a.pinned_allocation_bp {
                Some(p) => {
                    acc = acc + p as u64;
                },
                None => {},
            }
        }
        i = i + 1;
    }
    proof {
        assert(assignments@.subrange(0, n as int) =~= assignments@);
        lemma_pinned_total_prefix(assignments@, n as int, person_id);
    }
    acc
}

/// Computes each person's availability once and derives the initial run
/// state: net hours, pinned total, remaining capacity.
fn build_states(
    people: &Vec<PersonContext>,
    period: &PlanningPeriod,
    assignments: &Vec<Assignment>,
) -> (result: Result<Vec<PersonState>, EngineError>)
    requires
        forall|k: int|
            0 <= k < people@.len() ==> person_context_valid(#[trigger] people@[k], *period),
        assignments_valid(assignments@),
    ensures
        match result {
            Ok(v) => {
                &&& people_dates_parse(people@, *period)
                &&& v@ == initial_states(people@, *period, assignments@)
                &&& states_wf(v@)
            },
            Err(e) => {
                &&& e == EngineError::InvalidDate
                &&& !people_dates_parse(people@, *period)
            },
        },
{
    let n = people.len();
    let mut v: Vec<PersonState> = Vec::new();
    let mut i: usize = 0;
    while i < n
        invariant
            0 <= i <= n,
            n == people@.len(),
            forall|k: int|
                0 <= k < people@.len() ==> person_context_valid(#[trigger] people@[k], *period),
            assignments_valid(assignments@),
            v@.len() == i,
            forall|k: int|
                0 <= k < i ==> availability_dates_parse(
                    (#[trigger] people@[k]).person,
                    *period,
                    people@[k].absences@,
                    people@[k].holidays@,
                ),
            forall|k: int|
                0 <= k < i ==> #[trigger] v@[k] == initial_states(people@, *period, assignments@)[k],
            forall|k: int|
                0 <= k < i ==> (#[trigger] v@[k]).available_mh <= avail_bound() && v@[k].remaining_bp
                    <= PERCENT_SCALE,
        decreases n - i,
    {
        let ctx = &people[i];
        let breakdown = match calculate_person_available_hours(
            &ctx.person,
            period,
            &ctx.absences,
            &ctx.holidays,
            &ctx.tasks,
        ) {
            Ok(b) => b,
            Err(_) => {
                return Err(EngineError::InvalidDate);
            },
        };
        proof {
            lemma_mul_le(
                MAX_DAY_INDEX as int + 1,
                MAX_DAY_INDEX as int + 1,
                ctx.person.available_hours_per_week_mh as int,
                u32::MAX as int,
            );
        }
        let pinned = compute_pinned_total(assignments, ctx.person.id);
        let remaining: u64 = if pinned >= PERCENT_SCALE {
            0
        } else {
            PERCENT_SCALE - pinned
        };
        v.push(
            PersonState {
                person_id: ctx.person.id,
                available_mh: breakdown.available_hours_mh,
                pinned_total_bp: pinned,
                remaining_bp: remaining,
            },
        );
        i = i + 1;
    }
    proof {
        assert(v@ =~= initial_states(people@, *period, assignments@));
    }
    Ok(v)
}

// ---------------------------------------------------------------------------
// Referential check, project ids, requirement pairing, ordering
// ---------------------------------------------------------------------------

proof fn lemma_first_missing_characterize(
    assignments: Seq<Assignment>,
    states: Seq<PersonState>,
    i: int,
)
    requires
        0 <= i <= assignments.len(),
        forall|j: int| 0 <= j < i ==> has_state(states, (#[trigger] assignments[j]).person_id),
        i < assignments.len() ==> !has_state(states, assignments[i].person_id),
    ensures
        first_missing_person(assignments, states) == i,
    decreases assignments.len(),
{
    if assignments.len() > 0 && has_state(states, assignments[0].person_id) {
        lemma_first_missing_characterize(assignments.drop_first(), states, i - 1);
    }
}

/// Fails with the first assignment whose person the run does not know.
fn check_persons_known(assignments: &Vec<Assignment>, states: &Vec<PersonState>) -> (result: Result<
    (),
    EngineError,
>)
    ensures
        match result {
            Ok(()) => all_persons_known(assignments@, states@),
            Err(e) => {
                let m = first_missing_person(assignments@, states@);
                &&& m < assignments@.len()
                &&& e == (EngineError::ReferenceNotFound {
                    missing_id: assignments@[m].person_id,
                })
            },
        },
{
    let n = assignments.len();
    let mut i: usize = 0;
    while i < n
        invariant
            0 <= i <= n,
            n == assignments@.len(),
            forall|j: int| 0 <= j < i ==> has_state(states@, (#[trigger] assignments@[j]).person_id),
        decreases n - i,
    {
        let idx = find_state_index(states, assignments[i].person_id);
        if idx >= states.len() {
            proof {
                lemma_first_missing_characterize(assignments@, states@, i as int);
            }
            return Err(EngineError::ReferenceNotFound { missing_id: assignments[i].person_id });
        }
        i = i + 1;
    }
    proof {
        lemma_first_missing_characterize(assignments@, states@, n as int);
    }
    Ok(())
}

fn vec_contains_i64(v: &Vec<i64>, x: i64) -> (found: bool)
    ensures
        found == v@.contains(x),
{
    let n = v.len();
    let mut i: usize = 0;
    while i < n
        invariant
            0 <= i <= n,
            n == v@.len(),
            forall|j: int| 0 <= j < i ==> v@[j] != x,
        decreases n - i,
    {
        if v[i] == x {
            return true;
        }
        i = i + 1;
    }
    false
}

/// Project ids in order of first appearance among the assignments.
fn collect_project_ids(assignments: &Vec<Assignment>) -> (ids: Vec<i64>)
    ensures
        ids@ == distinct_project_ids(assignments@),
{
    let n = assignments.len();
    let mut ids: Vec<i64> = Vec::new();
    let mut i: usize = 0;
    while i < n
        invariant
            0 <= i <= n,
            n == assignments@.len(),
            ids@ == distinct_project_ids(assignments@.subrange(0, i as int)),
        decreases n - i,
    {
        proof {
            assert(assignments@.subrange(0, i + 1).drop_last() =~= assignments@.subrange(
                0,
                i as int,
            ));
            assert(assignments@.subrange(0, i + 1).last() == assignments@[i as int]);
        }
        let pid = assignments[i].project_id;
        if !vec_contains_i64(&ids, pid) {
            ids.push(pid);
        }
        i = i + 1;
    }
    proof {
        assert(assignments@.subrange(0, n as int) =~= assignments@);
    }
    ids
}

/// Pairs each project that has a requirement with its priority, and warns
/// about the projects that have none.
fn build_entries(ids: &Vec<i64>, reqs: &Vec<ProjectRequirement>) -> (out: (
    Vec<(i64, i64)>,
    Vec<OptimizationWarning>,
))
    ensures
        out.0@ == project_entries(ids@, reqs@),
        out.1@ == requirement_warnings(ids@, reqs@),
        forall|k: int|
            0 <= k < out.0@.len() ==> has_requirement(reqs@, (#[trigger] out.0@[k]).1),
{
    let n = ids.len();
    let mut entries: Vec<(i64, i64)> = Vec::new();
    let mut warnings: Vec<OptimizationWarning> = Vec::new();
    let mut i: usize = 0;
    while i < n
        invariant
            0 <= i <= n,
            n == ids@.len(),
            entries@ == project_entries(ids@.subrange(0, i as int), reqs@),
            warnings@ == requirement_warnings(ids@.subrange(0, i as int), reqs@),
            forall|k: int|
                0 <= k < entries@.len() ==> has_requirement(reqs@, (#[trigger] entries@[k]).1),
        decreases n - i,
    {
        proof {
            assert(ids@.subrange(0, i + 1).drop_last() =~= ids@.subrange(0, i as int));
            assert(ids@.subrange(0, i + 1).last() == ids@[i as int]);
        }
        let pid = ids[i];
        let ridx = find_requirement_index(reqs, pid);
        if ridx < reqs.len() {
            entries.push((reqs[ridx].priority, pid));
        } else {
            warnings.push(OptimizationWarning::MissingRequirement { project_id: pid });
        }
        i = i + 1;
    }
    proof {
        assert(ids@.subrange(0, n as int) =~= ids@);
    }
    (entries, warnings)
}

proof fn lemma_insert_entry_at(x: (i64, i64), s: Seq<(i64, i64)>, j: int)
    requires
        0 <= j <= s.len(),
        forall|k: int| 0 <= k < j ==> !entry_le(x, #[trigger] s[k]),
        j < s.len() ==> entry_le(x, s[j]),
    ensures
        insert_entry(x, s) == s.insert(j, x),
    decreases s.len(),
{
    if s.len() == 0 {
        assert(insert_entry(x, s) =~= s.insert(0, x));
    } else if entry_le(x, s[0]) {
        assert(j == 0);
        assert(seq![x] + s =~= s.insert(0, x));
    } else {
        lemma_insert_entry_at(x, s.drop_first(), j - 1);
        assert(seq![s[0]] + s.drop_first().insert(j - 1, x) =~= s.insert(j, x));
    }
}

proof fn lemma_concat_contains<T>(a: Seq<T>, b: Seq<T>, y: T)
    ensures
        (a + b).contains(y) <==> a.contains(y) || b.contains(y),
{
    if (a + b).contains(y) {
        let w = choose|w: int| 0 <= w < (a + b).len() && (a + b)[w] == y;
        if w < a.len() {
            assert(a[w] == y);
        } else {
            assert(b[w - a.len()] == y);
        }
    }
    if a.contains(y) {
        let w = choose|w: int| 0 <= w < a.len() && a[w] == y;
        assert((a + b)[w] == y);
    }
    if b.contains(y) {
        let w = choose|w: int| 0 <= w < b.len() && b[w] == y;
        assert((a + b)[w + a.len()] == y);
    }
}

/// Membership survives insertion.
proof fn lemma_insert_entry_contains(x: (i64, i64), s: Seq<(i64, i64)>, y: (i64, i64))
    ensures
        insert_entry(x, s).contains(y) <==> (x == y || s.contains(y)),
    decreases s.len(),
{
    if s.len() == 0 {
        assert(seq![x].contains(y) <==> x == y) by {
            if seq![x].contains(y) {
                let w = choose|w: int| 0 <= w < seq![x].len() && seq![x][w] == y;
            }
            if x == y {
                assert(seq![x][0] == y);
            }
        }
    } else if entry_le(x, s[0]) {
        lemma_concat_contains(seq![x], s, y);
        if seq![x].contains(y) {
            let w = choose|w: int| 0 <= w < seq![x].len() && seq![x][w] == y;
        }
        if x == y {
            assert(seq![x][0] == y);
        }
    } else {
        lemma_insert_entry_contains(x, s.drop_first(), y);
        lemma_concat_contains(seq![s[0]], insert_entry(x, s.drop_first()), y);
        lemma_concat_contains(seq![s[0]], s.drop_first(), y);
        assert(seq![s[0]] + s.drop_first() =~= s);
        if seq![s[0]].contains(y) {
            let w = choose|w: int| 0 <= w < seq![s[0]].len() && seq![s[0]][w] == y;
        }
        if y == s[0] {
            assert(seq![s[0]][0] == y);
        }
    }
}

/// Membership in the sorted entries is membership in the input.
proof fn lemma_sort_entries_contains(s: Seq<(i64, i64)>, y: (i64, i64))
    ensures
        sort_entries(s).contains(y) <==> s.contains(y),
    decreases s.len(),
{
    if s.len() > 0 {
        lemma_sort_entries_contains(s.drop_last(), y);
        lemma_insert_entry_contains(s.last(), sort_entries(s.drop_last()), y);
        assert(s.drop_last().push(s.last()) =~= s);
        lemma_concat_contains(s.drop_last(), seq![s.last()], y);
        assert(s.drop_last() + seq![s.last()] =~= s);
        if seq![s.last()].contains(y) {
            let w = choose|w: int| 0 <= w < seq![s.last()].len() && seq![s.last()][w] == y;
        }
        if y == s.last() {
            assert(seq![s.last()][0] == y);
        }
    }
}

/// Inserts one entry into an already sorted list, keeping the order.
fn insert_entry_exec(v: Vec<(i64, i64)>, x: (i64, i64)) -> (out: Vec<(i64, i64)>)
    requires
        v@.len() < usize::MAX,
    ensures
        out@ == insert_entry(x, v@),
{
    let n = v.len();
    let mut j: usize = 0;
    loop
        invariant
            0 <= j <= n,
            n == v@.len(),
            n < usize::MAX,
            forall|k: int| 0 <= k < j ==> !entry_le(x, #[trigger] v@[k]),
        ensures
            j <= n,
            forall|k: int| 0 <= k < j ==> !entry_le(x, #[trigger] v@[k]),
            j < n ==> entry_le(x, v@[j as int]),
        decreases n - j,
    {
        if j >= n {
            break;
        }
        let e = v[j];
        if x.0 > e.0 || (x.0 == e.0 && x.1 <= e.1) {
            break;
        }
        j = j + 1;
    }
    proof {
        lemma_insert_entry_at(x, v@, j as int);
    }
    let mut out = v;
    out.insert(j, x);
    out
}

/// Sorts the project entries: priority descending, project id ascending.
fn sort_entries_exec(entries: &Vec<(i64, i64)>) -> (out: Vec<(i64, i64)>)
    requires
        entries@.len() < usize::MAX,
    ensures
        out@ == sort_entries(entries@),
{
    let n = entries.len();
    let mut out: Vec<(i64, i64)> = Vec::new();
    let mut i: usize = 0;
    proof {
        assert(entries@.subrange(0, 0) =~= Seq::<(i64, i64)>::empty());
    }
    while i < n
        invariant
            0 <= i <= n,
            n == entries@.len(),
            n < usize::MAX,
            out@ == sort_entries(entries@.subrange(0, i as int)),
            out@.len() == i,
        decreases n - i,
    {
        proof {
            assert(entries@.subrange(0, i + 1).drop_last() =~= entries@.subrange(0, i as int));
            assert(entries@.subrange(0, i + 1).last() == entries@[i as int]);
            lemma_insert_entry_len(entries@[i as int], out@);
        }
        out = insert_entry_exec(out, entries[i]);
        i = i + 1;
    }
    proof {
        assert(entries@.subrange(0, n as int) =~= entries@);
    }
    out
}

proof fn lemma_insert_entry_len(x: (i64, i64), s: Seq<(i64, i64)>)
    ensures
        insert_entry(x, s).len() == s.len() + 1,
    decreases s.len(),
{
    if s.len() > 0 && !entry_le(x, s[0]) {
        lemma_insert_entry_len(x, s.drop_first());
    }
}

proof fn lemma_distinct_ids_len(assignments: Seq<Assignment>)
    ensures
        distinct_project_ids(assignments).len() <= assignments.len(),
    decreases assignments.len(),
{
    if assignments.len() > 0 {
        lemma_distinct_ids_len(assignments.drop_last());
    }
}

proof fn lemma_project_entries_len(ids: Seq<i64>, reqs: Seq<ProjectRequirement>)
    ensures
        project_entries(ids, reqs).len() <= ids.len(),
    decreases ids.len(),
{
    if ids.len() > 0 {
        lemma_project_entries_len(ids.drop_last(), reqs);
    }
}

// ---------------------------------------------------------------------------
// Alignment: serving a project never changes who is known or what they have
// ---------------------------------------------------------------------------

proof fn lemma_aligned_state_index(s1: Seq<PersonState>, s2: Seq<PersonState>, person_id: i64)
    requires
        states_aligned(s1, s2),
    ensures
        state_index_of(s1, person_id) == state_index_of(s2, person_id),
    decreases s1.len(),
{
    if s1.len() > 0 {
        assert(s2[0].person_id == s1[0].person_id);
        if s1[0].person_id != person_id {
            assert(states_aligned(s1.drop_first(), s2.drop_first())) by {
                assert forall|k: int|
                    0 <= k < s1.drop_first().len() implies (#[trigger] s2.drop_first()[k]).person_id
                    == s1.drop_first()[k].person_id && s2.drop_first()[k].available_mh
                    == s1.drop_first()[k].available_mh && s2.drop_first()[k].pinned_total_bp
                    == s1.drop_first()[k].pinned_total_bp by {
                    assert(s1.drop_first()[k] == s1[k + 1]);
                    assert(s2.drop_first()[k] == s2[k + 1]);
                }
            }
            lemma_aligned_state_index(s1.drop_first(), s2.drop_first(), person_id);
        }
    }
}

proof fn lemma_first_missing_aligned(
    assignments: Seq<Assignment>,
    s1: Seq<PersonState>,
    s2: Seq<PersonState>,
)
    requires
        states_aligned(s1, s2),
    ensures
        first_missing_person(assignments, s1) == first_missing_person(assignments, s2),
    decreases assignments.len(),
{
    if assignments.len() > 0 {
        lemma_aligned_state_index(s1, s2, assignments[0].person_id);
        if has_state(s1, assignments[0].person_id) {
            lemma_first_missing_aligned(assignments.drop_first(), s1, s2);
        }
    }
}

/// When every assignment's person is known, each lookup lands.
proof fn lemma_all_known_index(assignments: Seq<Assignment>, states: Seq<PersonState>)
    requires
        all_persons_known(assignments, states),
    ensures
        forall|k: int|
            0 <= k < assignments.len() ==> has_state(
                states,
                (#[trigger] assignments[k]).person_id,
            ),
    decreases assignments.len(),
{
    if assignments.len() > 0 {
        assert(has_state(states, assignments[0].person_id));
        lemma_all_known_index(assignments.drop_first(), states);
        assert forall|k: int|
            0 <= k < assignments.len() implies has_state(
            states,
            (#[trigger] assignments[k]).person_id,
        ) by {
            if k > 0 {
                assert(assignments.drop_first()[k - 1] == assignments[k]);
            }
        }
    }
}

/// Exec shortfall records match their spec-level images field for field.
pub open spec fn shortfalls_match(v: Seq<ProjectShortfall>, m: Seq<ShortfallModel>) -> bool {
    &&& v.len() == m.len()
    &&& forall|k: int| 0 <= k < v.len() ==> shortfall_matches(#[trigger] v[k], m[k])
}

/// Copies the person states; the distribution pass reads this snapshot while
/// it decrements the live states.
fn clone_states(states: &Vec<PersonState>) -> (out: Vec<PersonState>)
    ensures
        out@ == states@,
{
    let n = states.len();
    let mut out: Vec<PersonState> = Vec::new();
    let mut i: usize = 0;
    while i < n
        invariant
            0 <= i <= n,
            n == states@.len(),
            out@ == states@.subrange(0, i as int),
        decreases n - i,
    {
        out.push(states[i]);
        proof {
            assert(out@ =~= states@.subrange(0, i + 1));
        }
        i = i + 1;
    }
    proof {
        assert(states@.subrange(0, n as int) =~= states@);
    }
    out
}

/// Serves one project: records its pinned calculations, distributes what is
/// still needed over the unpinned assignments in proportion to what each can
/// contribute, decrements the people's remaining capacity, and reports a
/// shortfall when the requirement was missed.
#[verifier::rlimit(60)]
fn process_project(
    states: Vec<PersonState>,
    pid: i64,
    assignments: &Vec<Assignment>,
    reqs: &Vec<ProjectRequirement>,
    projects: &Vec<Project>,
    calcs: Vec<AssignmentCalculation>,
    shortfalls: Vec<ProjectShortfall>,
    Ghost(models): Ghost<Seq<ShortfallModel>>,
) -> (out: (
    Vec<PersonState>,
    Vec<AssignmentCalculation>,
    Vec<ProjectShortfall>,
    Ghost<Seq<ShortfallModel>>,
))
    requires
        assignments_valid(assignments@),
        states_wf(states@),
        all_persons_known(assignments@, states@),
        has_requirement(reqs@, pid),
        shortfalls_match(shortfalls@, models),
    ensures
        ({
            let step = project_step(states@, pid, assignments@, reqs@, projects@);
            &&& out.0@ == step.states
            &&& out.1@ == calcs@ + step.calcs
            &&& shortfalls_match(out.2@, models + step.shortfalls)
            &&& out.3@ == models + step.shortfalls
            &&& states_wf(out.0@)
            &&& states_aligned(states@, out.0@)
        }),
{
    proof {
        lemma_all_known_index(assignments@, states@);
        lemma_requirement_index_of(reqs@, pid);
    }
    let ghost states_before = states@;
    let ridx = find_requirement_index(reqs, pid);
    let required = reqs[ridx].required_hours_mh;
    let n = assignments.len();

    // Pinned pass: honor pinned percentages as they stand.
    let mut calcs = calcs;
    let ghost calcs0 = calcs@;
    let mut pinned_sum: u128 = 0;
    let mut i: usize = 0;
    proof {
        assert(assignments@.subrange(0, 0) =~= Seq::<Assignment>::empty());
        assert(calcs0 + Seq::<AssignmentCalculation>::empty() =~= calcs0);
    }
    while i < n
        invariant
            0 <= i <= n,
            n == assignments@.len(),
            assignments_valid(assignments@),
            states_wf(states@),
            forall|k: int|
                0 <= k < assignments@.len() ==> has_state(
                    states@,
                    (#[trigger] assignments@[k]).person_id,
                ),
            calcs@ == calcs0 + pinned_calcs(assignments@.subrange(0, i as int), pid, states@),
            pinned_sum == pinned_hours(assignments@.subrange(0, i as int), pid, states@),
            pinned_sum <= i * (100 * avail_bound()),
        decreases n - i,
    {
        proof {
            assert(assignments@.subrange(0, i + 1).drop_last() =~= assignments@.subrange(
                0,
                i as int,
            ));
            assert(assignments@.subrange(0, i + 1).last() == assignments@[i as int]);
        }
        let a = &assignments[i];
        if a.project_id == pid && a.is_pinned {
            let idx = find_state_index(&states, a.person_id);
            let st = states[idx];
            let pct: u32 = match a.pinned_allocation_bp {
                Some(p) => p,
                None => 0,
            };
            proof {
                lemma_effective_pinned_bound(
                    st.available_mh as int,
                    pct as int,
                    a.productivity_pm as int,
                );
            }
            let eff = calculate_assignment_effective_hours(st.available_mh, pct, a.productivity_pm);
            calcs.push(
                AssignmentCalculation {
                    assignment_id: a.id,
                    calculated_allocation_bp: pct,
                    calculated_effective_mh: eff,
                },
            );
            proof {
                lemma_mul_le(
                    i as int,
                    MAX_ASSIGNMENTS as int,
                    100 * avail_bound(),
                    100 * avail_bound(),
                );
                assert((i as int + 1) * (100 * avail_bound()) == i as int * (100 * avail_bound())
                    + 100 * avail_bound()) by (nonlinear_arith);
            }
            pinned_sum = pinned_sum + eff as u128;
            proof {
                assert(calcs@ =~= calcs0 + pinned_calcs(
                    assignments@.subrange(0, i + 1),
                    pid,
                    states@,
                ));
            }
        }
        proof {
            assert((i as int + 1) * (100 * avail_bound()) == i as int * (100 * avail_bound())
                + 100 * avail_bound()) by (nonlinear_arith);
        }
        i = i + 1;
    }
    proof {
        assert(assignments@.subrange(0, n as int) =~= assignments@);
    }

    // Capacity pass: what each unpinned assignment could still contribute.
    let mut total: u128 = 0;
    let mut i: usize = 0;
    proof {
        assert(assignments@.subrange(0, 0) =~= Seq::<Assignment>::empty());
    }
    while i < n
        invariant
            0 <= i <= n,
            n == assignments@.len(),
            assignments_valid(assignments@),
            states_wf(states@),
            forall|k: int|
                0 <= k < assignments@.len() ==> has_state(
                    states@,
                    (#[trigger] assignments@[k]).person_id,
                ),
            total == total_available(assignments@.subrange(0, i as int), pid, states@),
            total <= i * avail_bound(),
        decreases n - i,
    {
        proof {
            assert(assignments@.subrange(0, i + 1).drop_last() =~= assignments@.subrange(
                0,
                i as int,
            ));
            assert(assignments@.subrange(0, i + 1).last() == assignments@[i as int]);
        }
        let a = &assignments[i];
        if a.project_id == pid && !a.is_pinned {
            let idx = find_state_index(&states, a.person_id);
            let st = states[idx];
            proof {
                lemma_effective_le_available(
                    st.available_mh as int,
                    st.remaining_bp as int,
                    a.productivity_pm as int,
                );
            }
            let mc = calculate_assignment_effective_hours(
                st.available_mh,
                st.remaining_bp as u32,
                a.productivity_pm,
            );
            proof {
                lemma_mul_le(i as int, MAX_ASSIGNMENTS as int, avail_bound(), avail_bound());
            }
            total = total + mc as u128;
        }
        proof {
            assert((i as int + 1) * avail_bound() == i as int * avail_bound() + avail_bound())
                by (nonlinear_arith);
        }
        i = i + 1;
    }
    proof {
        assert(assignments@.subrange(0, n as int) =~= assignments@);
    }

    // What is still needed, capped by what is available.
    let needed: u64 = if (required as u128) > pinned_sum {
        required - (pinned_sum as u64)
    } else {
        0
    };
    let htd: u64 = if (needed as u128) <= total {
        needed
    } else {
        total as u64
    };

    // Distribution pass.
    let mut d_sum: u128 = 0;
    let mut dcalcs: Vec<AssignmentCalculation> = Vec::new();
    let mut states = states;
    if total > 0 {
        let snapshot = clone_states(&states);
        let mut i: usize = 0;
        proof {
            assert(assignments@.subrange(0, n as int) =~= assignments@);
            assert(Seq::<AssignmentCalculation>::empty() + distribute_math(
                assignments@,
                pid,
                states_before,
                states_before,
                total as int,
                htd as int,
            ).calcs =~= distribute_math(
                assignments@,
                pid,
                states_before,
                states_before,
                total as int,
                htd as int,
            ).calcs);
        }
        while i < n
            invariant
                0 <= i <= n,
                n == assignments@.len(),
                assignments_valid(assignments@),
                snapshot@ == states_before,
                states_wf(states_before),
                states_wf(states@),
                states_aligned(states_before, states@),
                total > 0,
                htd as int <= total as int,
                forall|k: int|
                    0 <= k < assignments@.len() ==> has_state(
                        states_before,
                        (#[trigger] assignments@[k]).person_id,
                    ),
                ({
                    let dfull = distribute_math(
                        assignments@,
                        pid,
                        states_before,
                        states_before,
                        total as int,
                        htd as int,
                    );
                    let rem = distribute_math(
                        assignments@.subrange(i as int, n as int),
                        pid,
                        states_before,
                        states@,
                        total as int,
                        htd as int,
                    );
                    &&& dfull.calcs == dcalcs@ + rem.calcs
                    &&& dfull.effective_sum == d_sum + rem.effective_sum
                    &&& dfull.states == rem.states
                }),
                d_sum <= i * avail_bound(),
            decreases n - i,
        {
            proof {
                assert(assignments@.subrange(i as int, n as int)[0] == assignments@[i as int]);
                assert(assignments@.subrange(i as int, n as int).drop_first()
                    =~= assignments@.subrange(i + 1, n as int));
                lemma_aligned_state_index(
                    states_before,
                    states@,
                    assignments@[i as int].person_id,
                );
            }
            let a = &assignments[i];
            if a.project_id == pid && !a.is_pinned {
                let idx0 = find_state_index(&snapshot, a.person_id);
                let st0 = snapshot[idx0];
                proof {
                    lemma_effective_le_available(
                        st0.available_mh as int,
                        st0.remaining_bp as int,
                        a.productivity_pm as int,
                    );
                }
                let max_i = calculate_assignment_effective_hours(
                    st0.available_mh,
                    st0.remaining_bp as u32,
                    a.productivity_pm,
                );
                let pct: u32 = if st0.available_mh > 0 && a.productivity_pm > 0 {
                    proof {
                        lemma_mul_le(max_i as int, u64::MAX as int, htd as int, u64::MAX as int);
                        lemma_share_le(max_i as int, htd as int, total as int);
                        lemma_mul_le(
                            (max_i as int * htd as int) / (total as int),
                            u64::MAX as int,
                            EFFECTIVE_DIVISOR as int,
                            EFFECTIVE_DIVISOR as int,
                        );
                        lemma_mul_le(
                            a.productivity_pm as int,
                            FACTOR_SCALE as int,
                            st0.available_mh as int,
                            avail_bound(),
                        );
                    }
                    proof {
                        assert(a.productivity_pm as int * st0.available_mh as int > 0)
                            by (nonlinear_arith)
                            requires
                                a.productivity_pm > 0,
                                st0.available_mh > 0,
                        ;
                    }
                    let share: u128 = (max_i as u128 * htd as u128) / total;
                    let praw: u128 = share * (EFFECTIVE_DIVISOR as u128) / (a.productivity_pm
                        as u128 * st0.available_mh as u128);
                    if praw < st0.remaining_bp as u128 {
                        praw as u32
                    } else {
                        st0.remaining_bp as u32
                    }
                } else {
                    0
                };
                proof {
                    lemma_effective_le_available(
                        st0.available_mh as int,
                        pct as int,
                        a.productivity_pm as int,
                    );
                }
                let eff = calculate_assignment_effective_hours(
                    st0.available_mh,
                    pct,
                    a.productivity_pm,
                );
                dcalcs.push(
                    AssignmentCalculation {
                        assignment_id: a.id,
                        calculated_allocation_bp: pct,
                        calculated_effective_mh: eff,
                    },
                );
                proof {
                    lemma_mul_le(i as int, MAX_ASSIGNMENTS as int, avail_bound(), avail_bound());
                }
                d_sum = d_sum + eff as u128;
                let idx = find_state_index(&states, a.person_id);
                let lrem = states[idx].remaining_bp;
                let nrem: u64 = if lrem >= pct as u64 {
                    lrem - pct as u64
                } else {
                    0
                };
                let mut ns = states[idx];
                ns.remaining_bp = nrem;
                states[idx] = ns;
                proof {
                    let dfull = distribute_math(
                        assignments@,
                        pid,
                        states_before,
                        states_before,
                        total as int,
                        htd as int,
                    );
                    let rem_new = distribute_math(
                        assignments@.subrange(i + 1, n as int),
                        pid,
                        states_before,
                        states@,
                        total as int,
                        htd as int,
                    );
                    assert(dfull.calcs =~= dcalcs@ + rem_new.calcs);
                }
            }
            proof {
                assert((i as int + 1) * avail_bound() == i as int * avail_bound() + avail_bound())
                    by (nonlinear_arith);
            }
            i = i + 1;
        }
        proof {
            assert(assignments@.subrange(n as int, n as int) =~= Seq::<Assignment>::empty());
            let dfull = distribute_math(
                assignments@,
                pid,
                states_before,
                states_before,
                total as int,
                htd as int,
            );
            assert(dfull.calcs =~= dcalcs@ + Seq::<AssignmentCalculation>::empty());
            assert(dfull.calcs =~= dcalcs@);
        }
    }
    let mut calcs = calcs;
    calcs.append(&mut dcalcs);

    // Shortfall, when the requirement was missed.
    proof {
        lemma_mul_le(
            n as int,
            MAX_ASSIGNMENTS as int,
            100 * avail_bound(),
            100 * avail_bound(),
        );
        lemma_mul_le(n as int, MAX_ASSIGNMENTS as int, avail_bound(), avail_bound());
    }
    let total_eff: u128 = pinned_sum + d_sum;
    let mut shortfalls = shortfalls;
    let ghost req = reqs@[requirement_index_of(reqs@, pid)];
    let ghost step_shortfalls = shortfall_of(pid, req, total_eff as int, projects@);
    if total_eff < required as u128 {
        let shortfall: u64 = required - (total_eff as u64);
        proof {
            lemma_share_le(PERCENT_SCALE as int, shortfall as int, required as int);
            assert(PERCENT_SCALE as int * shortfall as int == shortfall as int
                * PERCENT_SCALE as int) by (nonlinear_arith);
        }
        let bp: u128 = (shortfall as u128) * (PERCENT_SCALE as u128) / (required as u128);
        let name = find_project_name(projects, pid);
        shortfalls.push(
            ProjectShortfall {
                project_id: pid,
                project_name: name,
                required_hours_mh: required,
                available_effective_hours_mh: total_eff as u64,
                shortfall_mh: shortfall,
                shortfall_bp: bp as u64,
            },
        );
    }
    proof {
        let step = project_step(states_before, pid, assignments@, reqs@, projects@);
        assert(calcs@ =~= calcs0 + step.calcs);
        assert(models + step.shortfalls =~= models + step_shortfalls);
    }
    (states, calcs, shortfalls, Ghost(models + step_shortfalls))
}

/// Gathers the over-pinned warnings in people order.
fn collect_pin_warnings(states: &Vec<PersonState>) -> (warnings: Vec<OptimizationWarning>)
    ensures
        warnings@ == pin_warnings(states@),
{
    let n = states.len();
    let mut warnings: Vec<OptimizationWarning> = Vec::new();
    let mut i: usize = 0;
    proof {
        assert(states@.subrange(0, 0) =~= Seq::<PersonState>::empty());
    }
    while i < n
        invariant
            0 <= i <= n,
            n == states@.len(),
            warnings@ == pin_warnings(states@.subrange(0, i as int)),
        decreases n - i,
    {
        proof {
            assert(states@.subrange(0, i + 1).drop_last() =~= states@.subrange(0, i as int));
            assert(states@.subrange(0, i + 1).last() == states@[i as int]);
        }
        let st = states[i];
        if st.pinned_total_bp > PERCENT_SCALE {
            warnings.push(
                OptimizationWarning::PinnedOverCommitted {
                    person_id: st.person_id,
                    pinned_total_bp: st.pinned_total_bp,
                },
            );
        }
        i = i + 1;
    }
    proof {
        assert(states@.subrange(0, n as int) =~= states@);
    }
    warnings
}

/// One optimization run for a planning period.
///
/// The caller hands over the period, its assignments, its project
/// requirements, the projects (for shortfall names) and every person's
/// availability inputs. The run computes each person's net availability
/// once, honors pinned allocations, serves projects by priority (ties by
/// ascending project id) and distributes what is needed proportionally to
/// what each unpinned assignment can contribute.
///
/// Returns the calculations to persist, the understaffed projects and the
/// warnings. Fails with `InvalidDate` when any availability input date is
/// malformed, and with `ReferenceNotFound` when an assignment names a person
/// that is not among the inputs; a run without assignments succeeds at once
/// with a warning. The outcome is a function of the listed inputs alone —
/// in particular the calculated-value cache on the assignments is never
/// read, so re-running on unchanged data yields the same outcome.
pub fn optimize_assignments_proportional(
    period: &PlanningPeriod,
    assignments: &Vec<Assignment>,
    requirements: &Vec<ProjectRequirement>,
    projects: &Vec<Project>,
    people: &Vec<PersonContext>,
) -> (result: Result<OptimizationResult, EngineError>)
    requires
        forall|k: int|
            0 <= k < people@.len() ==> person_context_valid(#[trigger] people@[k], *period),
        assignments_valid(assignments@),
    ensures
        ({
            let model = optimize_model(*period, assignments@, requirements@, projects@, people@);
            match result {
                Ok(r) => {
                    &&& assignments@.len() > 0 ==> people_dates_parse(people@, *period)
                    &&& assignments@.len() > 0 ==> all_persons_known(
                        assignments@,
                        initial_states(people@, *period, assignments@),
                    )
                    &&& r.success
                    &&& r.calculations@ == model.calculations
                    &&& r.warnings@ == model.warnings
                    &&& shortfalls_match(r.infeasible_projects@, model.infeasible)
                },
                Err(EngineError::InvalidDate) => {
                    &&& assignments@.len() > 0
                    &&& !people_dates_parse(people@, *period)
                },
                Err(EngineError::ReferenceNotFound { missing_id }) => {
                    let states0 = initial_states(people@, *period, assignments@);
                    let m = first_missing_person(assignments@, states0);
                    &&& assignments@.len() > 0
                    &&& people_dates_parse(people@, *period)
                    &&& m < assignments@.len()
                    &&& missing_id == assignments@[m].person_id
                },
            }
        }),
{
    if assignments.len() == 0 {
        let mut warnings: Vec<OptimizationWarning> = Vec::new();
        warnings.push(OptimizationWarning::NoAssignments);
        proof {
            assert(warnings@ =~= seq![OptimizationWarning::NoAssignments]);
        }
        return Ok(
            OptimizationResult {
                success: true,
                calculations: Vec::new(),
                infeasible_projects: Vec::new(),
                warnings,
            },
        );
    }

    // Availability once per person, then the referential check.
    let states = match build_states(people, period, assignments) {
        Ok(v) => v,
        Err(e) => {
            return Err(e);
        },
    };
    match check_persons_known(assignments, &states) {
        Ok(()) => {},
        Err(e) => {
            return Err(e);
        },
    }

    // Warnings: over-pinned people, then projects without requirements.
    let mut warnings = collect_pin_warnings(&states);
    let ids = collect_project_ids(assignments);
    let (entries, mut req_warnings) = build_entries(&ids, requirements);
    warnings.append(&mut req_warnings);

    // Priority order, ties by project id.
    proof {
        lemma_distinct_ids_len(assignments@);
        lemma_project_entries_len(ids@, requirements@);
    }
    let sorted = sort_entries_exec(&entries);

    // Serve the projects in order.
    let ghost states0 = states@;
    let m = sorted.len();
    let mut states = states;
    let mut calcs: Vec<AssignmentCalculation> = Vec::new();
    let mut shortfalls: Vec<ProjectShortfall> = Vec::new();
    let mut models: Ghost<Seq<ShortfallModel>> = Ghost(Seq::empty());
    let mut i: usize = 0;
    proof {
        assert(sorted@.subrange(0, m as int) =~= sorted@);
        let full = run_projects(states0, sorted@, assignments@, requirements@, projects@);
        assert(full.calcs =~= Seq::<AssignmentCalculation>::empty() + full.calcs);
        assert(full.shortfalls =~= Seq::<ShortfallModel>::empty() + full.shortfalls);
    }
    while i < m
        invariant
            0 <= i <= m,
            m == sorted@.len(),
            assignments_valid(assignments@),
            states_wf(states@),
            states_aligned(states0, states@),
            all_persons_known(assignments@, states0),
            sorted@ == sort_entries(project_entries(distinct_project_ids(assignments@), requirements@)),
            forall|k: int|
                0 <= k < project_entries(distinct_project_ids(assignments@), requirements@).len()
                    ==> has_requirement(
                    requirements@,
                    (#[trigger] project_entries(
                        distinct_project_ids(assignments@),
                        requirements@,
                    )[k]).1,
                ),
            shortfalls_match(shortfalls@, models@),
            ({
                let full = run_projects(states0, sorted@, assignments@, requirements@, projects@);
                let rem = run_projects(
                    states@,
                    sorted@.subrange(i as int, m as int),
                    assignments@,
                    requirements@,
                    projects@,
                );
                &&& full.calcs == calcs@ + rem.calcs
                &&& full.shortfalls == models@ + rem.shortfalls
                &&& full.states == rem.states
            }),
        decreases m - i,
    {
        let entry = sorted[i];
        proof {
            let entries_spec = project_entries(distinct_project_ids(assignments@), requirements@);
            assert(sorted@.contains(entry));
            lemma_sort_entries_contains(entries_spec, entry);
            let w = choose|w: int| 0 <= w < entries_spec.len() && entries_spec[w] == entry;
            assert(has_requirement(requirements@, entry.1));
            lemma_first_missing_aligned(assignments@, states0, states@);
            assert(sorted@.subrange(i as int, m as int)[0] == entry);
            assert(sorted@.subrange(i as int, m as int).drop_first() =~= sorted@.subrange(
                i + 1,
                m as int,
            ));
        }
        let ghost states_in = states@;
        let (new_states, new_calcs, new_shortfalls, new_models) = process_project(
            states,
            entry.1,
            assignments,
            requirements,
            projects,
            calcs,
            shortfalls,
            Ghost(models@),
        );
        states = new_states;
        calcs = new_calcs;
        shortfalls = new_shortfalls;
        models = Ghost(new_models@);
        proof {
            let full = run_projects(states0, sorted@, assignments@, requirements@, projects@);
            let step = project_step(states_in, entry.1, assignments@, requirements@, projects@);
            let rem_new = run_projects(
                states@,
                sorted@.subrange(i + 1, m as int),
                assignments@,
                requirements@,
                projects@,
            );
            assert(full.calcs =~= calcs@ + rem_new.calcs);
            assert(full.shortfalls =~= models@ + rem_new.shortfalls);
        }
        i = i + 1;
    }
    proof {
        assert(sorted@.subrange(m as int, m as int) =~= Seq::<(i64, i64)>::empty());
        let full = run_projects(states0, sorted@, assignments@, requirements@, projects@);
        assert(full.calcs =~= calcs@ + Seq::<AssignmentCalculation>::empty());
        assert(full.calcs =~= calcs@);
        assert(full.shortfalls =~= models@ + Seq::<ShortfallModel>::empty());
        assert(full.shortfalls =~= models@);
    }
    Ok(
        OptimizationResult {
            success: true,
            calculations: calcs,
            infeasible_projects: shortfalls,
            warnings,
        },
    )
}

/// Runs the proportional optimizer; the one optimization entry point.
pub fn optimize_assignments(
    period: &PlanningPeriod,
    assignments: &Vec<Assignment>,
    requirements: &Vec<ProjectRequirement>,
    projects: &Vec<Project>,
    people: &Vec<PersonContext>,
) -> (result: Result<OptimizationResult, EngineError>)
    requires
        forall|k: int|
            0 <= k < people@.len() ==> person_context_valid(#[trigger] people@[k], *period),
        assignments_valid(assignments@),
    ensures
        ({
            let model = optimize_model(*period, assignments@, requirements@, projects@, people@);
            match result {
                Ok(r) => {
                    &&& r.success
                    &&& r.calculations@ == model.calculations
                    &&& r.warnings@ == model.warnings
                    &&& shortfalls_match(r.infeasible_projects@, model.infeasible)
                },
                Err(EngineError::InvalidDate) => {
                    &&& assignments@.len() > 0
                    &&& !people_dates_parse(people@, *period)
                },
                Err(EngineError::ReferenceNotFound { missing_id }) => {
                    let states0 = initial_states(people@, *period, assignments@);
                    let m = first_missing_person(assignments@, states0);
                    &&& assignments@.len() > 0
                    &&& people_dates_parse(people@, *period)
                    &&& m < assignments@.len()
                    &&& missing_id == assignments@[m].person_id
                },
            }
        }),
{
    optimize_assignments_proportional(period, assignments, requirements, projects, people)
}


// ---------------------------------------------------------------------------
// Laws
// ---------------------------------------------------------------------------

/// Proportionality of one distribution pass: the hours two unpinned
/// assignments receive from the same pot stand to each other as their
/// maximum contributions, to within one rounding step. With
/// `share(m) = m * htd / total`, the cross products `share(m_i) * m_j` and
/// `share(m_j) * m_i` — equal for exact division — differ by less than the
/// contribution on the small side.
pub proof fn lemma_distribution_proportional(m_i: int, m_j: int, htd: int, total: int)
    requires
        0 <= m_i,
        0 <= m_j,
        0 <= htd <= total,
        0 < total,
    ensures
        (m_i * htd / total) * m_j <= (m_j * htd / total) * m_i + m_i,
        (m_j * htd / total) * m_i <= (m_i * htd / total) * m_j + m_j,
{
    let qi = m_i * htd / total;
    let ri = (m_i * htd) % total;
    let qj = m_j * htd / total;
    let rj = (m_j * htd) % total;
    lemma_fundamental_div_mod(m_i * htd, total);
    lemma_mod_bound(m_i * htd, total);
    lemma_fundamental_div_mod(m_j * htd, total);
    lemma_mod_bound(m_j * htd, total);
    assert(qi * m_j <= qj * m_i + m_i && qj * m_i <= qi * m_j + m_j) by (nonlinear_arith)
        requires
            m_i * htd == total * qi + ri,
            0 <= ri < total,
            m_j * htd == total * qj + rj,
            0 <= rj < total,
            0 <= m_i,
            0 <= m_j,
            0 < total,
    ;
}

/// Two assignment rows that agree on everything the optimizer reads; only
/// the calculated-value cache and its timestamp may differ.
pub open spec fn assignment_inputs_eq(a: Assignment, b: Assignment) -> bool {
    &&& a.id == b.id
    &&& a.person_id == b.person_id
    &&& a.project_id == b.project_id
    &&& a.planning_period_id == b.planning_period_id
    &&& a.productivity_pm == b.productivity_pm
    &&& a.start_date@ == b.start_date@
    &&& a.end_date@ == b.end_date@
    &&& a.is_pinned == b.is_pinned
    &&& a.pinned_allocation_bp == b.pinned_allocation_bp
}

pub open spec fn assignments_inputs_eq(s1: Seq<Assignment>, s2: Seq<Assignment>) -> bool {
    &&& s1.len() == s2.len()
    &&& forall|k: int| 0 <= k < s1.len() ==> assignment_inputs_eq(#[trigger] s1[k], #[trigger] s2[k])
}

proof fn lemma_inputs_eq_drop_last(s1: Seq<Assignment>, s2: Seq<Assignment>)
    requires
        assignments_inputs_eq(s1, s2),
        s1.len() > 0,
    ensures
        assignments_inputs_eq(s1.drop_last(), s2.drop_last()),
        assignment_inputs_eq(s1.last(), s2.last()),
{
}

proof fn lemma_inputs_eq_drop_first(s1: Seq<Assignment>, s2: Seq<Assignment>)
    requires
        assignments_inputs_eq(s1, s2),
        s1.len() > 0,
    ensures
        assignments_inputs_eq(s1.drop_first(), s2.drop_first()),
        assignment_inputs_eq(s1[0], s2[0]),
{
    assert forall|k: int|
        0 <= k < s1.drop_first().len() implies assignment_inputs_eq(
        #[trigger] s1.drop_first()[k],
        #[trigger] s2.drop_first()[k],
    ) by {
        assert(s1.drop_first()[k] == s1[k + 1]);
        assert(s2.drop_first()[k] == s2[k + 1]);
    }
}

proof fn lemma_pinned_total_inputs_eq(s1: Seq<Assignment>, s2: Seq<Assignment>, person_id: i64)
    requires
        assignments_inputs_eq(s1, s2),
    ensures
        pinned_total_for(s1, person_id) == pinned_total_for(s2, person_id),
    decreases s1.len(),
{
    if s1.len() > 0 {
        lemma_inputs_eq_drop_last(s1, s2);
        lemma_pinned_total_inputs_eq(s1.drop_last(), s2.drop_last(), person_id);
    }
}

proof fn lemma_distinct_ids_inputs_eq(s1: Seq<Assignment>, s2: Seq<Assignment>)
    requires
        assignments_inputs_eq(s1, s2),
    ensures
        distinct_project_ids(s1) == distinct_project_ids(s2),
    decreases s1.len(),
{
    if s1.len() > 0 {
        lemma_inputs_eq_drop_last(s1, s2);
        lemma_distinct_ids_inputs_eq(s1.drop_last(), s2.drop_last());
    }
}

proof fn lemma_states_inputs_eq(
    people: Seq<PersonContext>,
    period: PlanningPeriod,
    s1: Seq<Assignment>,
    s2: Seq<Assignment>,
)
    requires
        assignments_inputs_eq(s1, s2),
    ensures
        initial_states(people, period, s1) == initial_states(people, period, s2),
{
    assert forall|k: int|
        0 <= k < people.len() implies #[trigger] initial_states(people, period, s1)[k]
        == initial_states(people, period, s2)[k] by {
        lemma_pinned_total_inputs_eq(s1, s2, people[k].person.id);
    }
    assert(initial_states(people, period, s1) =~= initial_states(people, period, s2));
}

proof fn lemma_pinned_pass_inputs_eq(
    s1: Seq<Assignment>,
    s2: Seq<Assignment>,
    pid: i64,
    states: Seq<PersonState>,
)
    requires
        assignments_inputs_eq(s1, s2),
    ensures
        pinned_calcs(s1, pid, states) == pinned_calcs(s2, pid, states),
        pinned_hours(s1, pid, states) == pinned_hours(s2, pid, states),
        total_available(s1, pid, states) == total_available(s2, pid, states),
    decreases s1.len(),
{
    if s1.len() > 0 {
        lemma_inputs_eq_drop_last(s1, s2);
        lemma_pinned_pass_inputs_eq(s1.drop_last(), s2.drop_last(), pid, states);
    }
}

proof fn lemma_distribute_inputs_eq(
    s1: Seq<Assignment>,
    s2: Seq<Assignment>,
    pid: i64,
    states0: Seq<PersonState>,
    live: Seq<PersonState>,
    total: int,
    htd: int,
)
    requires
        assignments_inputs_eq(s1, s2),
    ensures
        distribute_math(s1, pid, states0, live, total, htd) == distribute_math(
            s2,
            pid,
            states0,
            live,
            total,
            htd,
        ),
    decreases s1.len(),
{
    if s1.len() > 0 {
        lemma_inputs_eq_drop_first(s1, s2);
        let a = s1[0];
        if a.project_id == pid && !a.is_pinned {
            let st0 = states0[state_index_of(states0, a.person_id)];
            let max_i = effective_hours_math(
                st0.available_mh as int,
                st0.remaining_bp as int,
                a.productivity_pm as int,
            );
            let pct = allocation_pct_math(
                st0.available_mh as int,
                st0.remaining_bp as int,
                a.productivity_pm as int,
                max_i,
                total,
                htd,
            );
            let idx = state_index_of(live, a.person_id);
            let lrem = live[idx].remaining_bp as int;
            let nrem = if lrem >= pct {
                lrem - pct
            } else {
                0
            };
            let live2 = live.update(idx, PersonState { remaining_bp: nrem as u64, ..live[idx] });
            lemma_distribute_inputs_eq(
                s1.drop_first(),
                s2.drop_first(),
                pid,
                states0,
                live2,
                total,
                htd,
            );
        } else {
            lemma_distribute_inputs_eq(
                s1.drop_first(),
                s2.drop_first(),
                pid,
                states0,
                live,
                total,
                htd,
            );
        }
    }
}

proof fn lemma_project_step_inputs_eq(
    states: Seq<PersonState>,
    pid: i64,
    s1: Seq<Assignment>,
    s2: Seq<Assignment>,
    reqs: Seq<ProjectRequirement>,
    projects: Seq<Project>,
)
    requires
        assignments_inputs_eq(s1, s2),
    ensures
        project_step(states, pid, s1, reqs, projects) == project_step(states, pid, s2, reqs, projects),
{
    lemma_pinned_pass_inputs_eq(s1, s2, pid, states);
    let req = reqs[requirement_index_of(reqs, pid)];
    let ph = pinned_hours(s1, pid, states);
    let total = total_available(s1, pid, states);
    let needed = max_int(req.required_hours_mh - ph, 0);
    let htd = min_int(needed, total);
    if total > 0 {
        lemma_distribute_inputs_eq(s1, s2, pid, states, states, total, htd);
    }
}

proof fn lemma_run_projects_inputs_eq(
    states: Seq<PersonState>,
    entries: Seq<(i64, i64)>,
    s1: Seq<Assignment>,
    s2: Seq<Assignment>,
    reqs: Seq<ProjectRequirement>,
    projects: Seq<Project>,
)
    requires
        assignments_inputs_eq(s1, s2),
    ensures
        run_projects(states, entries, s1, reqs, projects) == run_projects(
            states,
            entries,
            s2,
            reqs,
            projects,
        ),
    decreases entries.len(),
{
    if entries.len() > 0 {
        lemma_project_step_inputs_eq(states, entries[0].1, s1, s2, reqs, projects);
        let step = project_step(states, entries[0].1, s1, reqs, projects);
        lemma_run_projects_inputs_eq(step.states, entries.drop_first(), s1, s2, reqs, projects);
    }
}

/// Idempotence law of the optimizer: the run never reads the
/// calculated-value cache it writes, so two runs over assignment rows that
/// agree on everything but that cache — in particular, a second run right
/// after the first one's results were persisted — produce identical
/// calculations, shortfalls and warnings.
pub proof fn lemma_optimize_idempotent(
    period: PlanningPeriod,
    s1: Seq<Assignment>,
    s2: Seq<Assignment>,
    reqs: Seq<ProjectRequirement>,
    projects: Seq<Project>,
    people: Seq<PersonContext>,
)
    requires
        assignments_inputs_eq(s1, s2),
    ensures
        optimize_model(period, s1, reqs, projects, people) == optimize_model(
            period,
            s2,
            reqs,
            projects,
            people,
        ),
{
    if s1.len() > 0 {
        lemma_states_inputs_eq(people, period, s1, s2);
        lemma_distinct_ids_inputs_eq(s1, s2);
        let states0 = initial_states(people, period, s1);
        let ids = distinct_project_ids(s1);
        let entries = sort_entries(project_entries(ids, reqs));
        lemma_run_projects_inputs_eq(states0, entries, s1, s2, reqs, projects);
    }
}


proof fn lemma_distribute_remaining_monotone(
    asgs: Seq<Assignment>,
    pid: i64,
    states0: Seq<PersonState>,
    live: Seq<PersonState>,
    total: int,
    htd: int,
)
    requires
        0 <= htd,
        0 < total,
        forall|k: int| 0 <= k < asgs.len() ==> has_state(live, (#[trigger] asgs[k]).person_id),
    ensures
        ({
            let after = distribute_math(asgs, pid, states0, live, total, htd).states;
            &&& after.len() == live.len()
            &&& forall|k: int|
                0 <= k < live.len() ==> (#[trigger] after[k]).remaining_bp <= live[k].remaining_bp
                    && after[k].person_id == live[k].person_id && after[k].available_mh == live[
                    k
                ].available_mh && after[k].pinned_total_bp == live[k].pinned_total_bp
        }),
    decreases asgs.len(),
{
    if asgs.len() > 0 {
        let a = asgs[0];
        if a.project_id == pid && !a.is_pinned {
            let st0 = states0[state_index_of(states0, a.person_id)];
            let max_i = effective_hours_math(
                st0.available_mh as int,
                st0.remaining_bp as int,
                a.productivity_pm as int,
            );
            let pct = allocation_pct_math(
                st0.available_mh as int,
                st0.remaining_bp as int,
                a.productivity_pm as int,
                max_i,
                total,
                htd,
            );
            let idx = state_index_of(live, a.person_id);
            let lrem = live[idx].remaining_bp as int;
            let nrem = if lrem >= pct {
                lrem - pct
            } else {
                0
            };
            let live2 = live.update(idx, PersonState { remaining_bp: nrem as u64, ..live[idx] });
            assert(0 <= pct) by {
                if st0.available_mh > 0 && a.productivity_pm > 0 {
                    vstd::arithmetic::mul::lemma_mul_nonnegative(
                        st0.available_mh as int * st0.remaining_bp as int,
                        a.productivity_pm as int,
                    );
                    vstd::arithmetic::mul::lemma_mul_nonnegative(
                        st0.available_mh as int,
                        st0.remaining_bp as int,
                    );
                    lemma_div_pos_is_pos(
                        st0.available_mh as int * st0.remaining_bp as int
                            * a.productivity_pm as int,
                        EFFECTIVE_DIVISOR as int,
                    );
                    vstd::arithmetic::mul::lemma_mul_nonnegative(max_i, htd);
                    lemma_div_pos_is_pos(max_i * htd, total);
                    let share = max_i * htd / total;
                    vstd::arithmetic::mul::lemma_mul_nonnegative(
                        share,
                        EFFECTIVE_DIVISOR as int,
                    );
                    assert(a.productivity_pm as int * st0.available_mh as int > 0)
                        by (nonlinear_arith)
                        requires
                            a.productivity_pm > 0,
                            st0.available_mh > 0,
                    ;
                    lemma_div_pos_is_pos(
                        share * EFFECTIVE_DIVISOR as int,
                        a.productivity_pm as int * st0.available_mh as int,
                    );
                }
            }
            lemma_state_index_of(live, a.person_id);
            assert forall|k: int|
                0 <= k < asgs.drop_first().len() implies has_state(
                live2,
                (#[trigger] asgs.drop_first()[k]).person_id,
            ) by {
                assert(asgs.drop_first()[k] == asgs[k + 1]);
                lemma_states_aligned_update(live, idx, nrem as u64);
                lemma_aligned_state_index(live, live2, asgs[k + 1].person_id);
            }
            lemma_distribute_remaining_monotone(
                asgs.drop_first(),
                pid,
                states0,
                live2,
                total,
                htd,
            );
        } else {
            assert forall|k: int|
                0 <= k < asgs.drop_first().len() implies has_state(
                live,
                (#[trigger] asgs.drop_first()[k]).person_id,
            ) by {
                assert(asgs.drop_first()[k] == asgs[k + 1]);
            }
            lemma_distribute_remaining_monotone(asgs.drop_first(), pid, states0, live, total, htd);
        }
    }
}

proof fn lemma_states_aligned_update(live: Seq<PersonState>, idx: int, nrem: u64)
    requires
        0 <= idx < live.len(),
    ensures
        states_aligned(live, live.update(idx, PersonState { remaining_bp: nrem, ..live[idx] })),
{
}

/// The capacity mechanism behind priority order: serving a project never
/// increases anyone's remaining capacity, so a project served later — one
/// of lower priority, or of a larger id in the same tier — is distributed
/// from at most the capacity every earlier project saw.
pub proof fn lemma_priority_order_capacity_monotone(
    states: Seq<PersonState>,
    pid: i64,
    assignments: Seq<Assignment>,
    reqs: Seq<ProjectRequirement>,
    projects: Seq<Project>,
)
    requires
        forall|k: int|
            0 <= k < assignments.len() ==> has_state(states, (#[trigger] assignments[k]).person_id),
    ensures
        ({
            let after = project_step(states, pid, assignments, reqs, projects).states;
            &&& after.len() == states.len()
            &&& forall|k: int|
                0 <= k < states.len() ==> (#[trigger] after[k]).remaining_bp <= states[
                    k
                ].remaining_bp && after[k].person_id == states[k].person_id && after[
                    k
                ].available_mh == states[k].available_mh
        }),
{
    let req = reqs[requirement_index_of(reqs, pid)];
    let ph = pinned_hours(assignments, pid, states);
    let total = total_available(assignments, pid, states);
    let needed = max_int(req.required_hours_mh - ph, 0);
    let htd = min_int(needed, total);
    if total > 0 {
        lemma_distribute_remaining_monotone(assignments, pid, states, states, total, htd);
    }
}

} // verus!
