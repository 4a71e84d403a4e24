//! The engine's data model: people, planning periods, absences, holidays,
//! overhead tasks, projects, requirements and assignments.
//!
//! Entities are created, updated and deleted by an outside command layer and
//! persisted in an outside record store; the engine only reads them and
//! computes. Hour fields hold milli-hours, percentage fields basis points,
//! factor and weight fields per-mille (see the crate root).

use vstd::prelude::*;

verus! {

/// A person whose time is planned. An empty or unrecognized working-day
/// list means zero capacity; a missing country means no holiday deduction.
#[derive(Clone, Debug)]
pub struct Person {
    pub id: i64,
    pub name: String,
    pub email: String,
    pub available_hours_per_week_mh: u32,
    pub working_days: String,
    pub country_id: Option<i64>,
}

/// An inclusive span of calendar dates that planning runs against.
#[derive(Clone, Debug)]
pub struct PlanningPeriod {
    pub id: i64,
    pub name: Option<String>,
    pub start_date: String,
    pub end_date: String,
    pub created_at: String,
}

/// A person's absence over an inclusive date span. The `days` figure is
/// supplied by the caller and treated as authoritative; it is not recomputed
/// from the span.
#[derive(Clone, Debug)]
pub struct Absence {
    pub id: i64,
    pub person_id: i64,
    pub start_date: String,
    pub end_date: String,
    pub days: i64,
    pub reason: Option<String>,
    pub created_at: String,
}

/// A public holiday of one country, possibly spanning several days.
#[derive(Clone, Debug)]
pub struct Holiday {
    pub id: i64,
    pub country_id: i64,
    pub name: Option<String>,
    pub start_date: String,
    pub end_date: String,
}

/// A recurring overhead duty attached to a job. `effort_period` is
/// `"daily"` or `"weekly"`; anything else contributes nothing. The weight is
/// meaningful only for optional tasks and defaults to 500 per-mille.
#[derive(Clone, Debug)]
pub struct OverheadTask {
    pub id: i64,
    pub job_id: i64,
    pub name: String,
    pub effort_hours_mh: u32,
    pub effort_period: String,
    pub is_optional: bool,
    pub optional_weight_pm: Option<u32>,
}

/// A project competing for capacity.
#[derive(Clone, Debug)]
pub struct Project {
    pub id: i64,
    pub name: String,
}

/// A project's demand within one planning period, with its priority tier
/// (higher is served first; 0 = low, 10 = medium, 20 = high, 30 = blocker).
#[derive(Clone, Debug)]
pub struct ProjectRequirement {
    pub id: i64,
    pub project_id: i64,
    pub planning_period_id: i64,
    pub required_hours_mh: u64,
    pub priority: i64,
}

/// A person staffed on a project within a planning period. The three
/// `calculated_*`/`last_calculated_at` fields are a derived cache: null
/// until an optimization run writes them, and cleared when a referenced
/// entity is deleted.
#[derive(Clone, Debug)]
pub struct Assignment {
    pub id: i64,
    pub person_id: i64,
    pub project_id: i64,
    pub planning_period_id: i64,
    pub productivity_pm: u32,
    pub start_date: String,
    pub end_date: String,
    pub is_pinned: bool,
    pub pinned_allocation_bp: Option<u32>,
    pub calculated_allocation_bp: Option<u32>,
    pub calculated_effective_mh: Option<u64>,
    pub last_calculated_at: Option<String>,
}

/// Input for creating a planning period.
#[derive(Clone, Debug)]
pub struct CreatePlanningPeriodInput {
    pub name: Option<String>,
    pub start_date: String,
    pub end_date: String,
}

/// Input for creating an absence.
#[derive(Clone, Debug)]
pub struct CreateAbsenceInput {
    pub person_id: i64,
    pub start_date: String,
    pub end_date: String,
    pub days: i64,
    pub reason: Option<String>,
}

/// How many rows reference a person, shown before deleting it.
#[derive(Clone, Copy, PartialEq, Eq, Structural, Debug)]
pub struct PersonDependencies {
    pub assignment_count: i64,
    pub absence_count: i64,
}

/// How many rows reference a project, shown before deleting it.
#[derive(Clone, Copy, PartialEq, Eq, Structural, Debug)]
pub struct ProjectDependencies {
    pub requirement_count: i64,
    pub assignment_count: i64,
}

/// How many rows reference a planning period, shown before deleting it.
#[derive(Clone, Copy, PartialEq, Eq, Structural, Debug)]
pub struct PlanningPeriodDependencies {
    pub requirement_count: i64,
    pub assignment_count: i64,
}

/// A country as the outside holiday service lists it.
#[derive(Clone, Debug)]
pub struct NagerDateCountry {
    pub country_code: String,
    pub name: String,
}

/// A single-day public holiday as the outside holiday service reports it.
#[derive(Clone, Debug)]
pub struct NagerDateHoliday {
    pub date: String,
    pub local_name: String,
    pub name: String,
    pub country_code: String,
    pub global: bool,
    pub types: Vec<String>,
}

/// The engine's hard errors. Data-integrity findings are warnings in the
/// optimization result instead, and understaffing is reported as data.
#[derive(Clone, Copy, PartialEq, Eq, Structural, Debug)]
pub enum EngineError {
    /// An input date string is not a valid `YYYY-MM-DD` calendar date.
    InvalidDate,
    /// A referenced entity is missing; carries the missing id.
    ReferenceNotFound { missing_id: i64 },
}

} // verus!
