//! Capacity planning engine.
//!
//! The engine allocates people's working time across competing projects
//! within a planning period, under absences, public holidays, recurring
//! overhead tasks and pinned commitments.
//!
//! All quantities are fixed-point integers:
//! - hours are held in milli-hours (`1 hour = 1000`),
//! - percentages in basis points (`100% = 10_000`),
//! - productivity factors and optional-task weights in per-mille
//!   (`1.0 = 1000`).
//!
//! Persistence, networking and presentation are outside collaborators; the
//! engine only computes.

pub mod availability;
pub mod cache;
pub mod calendar;
pub mod dates;
pub mod hours;
pub mod models;
pub mod optimizer;
pub mod reporting;
pub mod validation;

pub use availability::calculate_person_available_hours;
pub use calendar::count_working_days;
pub use calendar::is_working_day;
pub use calendar::parse_working_days;
pub use hours::calculate_available_hours;
pub use hours::calculate_assignment_effective_hours;
pub use optimizer::optimize_assignments;
pub use optimizer::optimize_assignments_proportional;
pub use reporting::get_capacity_overview;
pub use reporting::get_person_capacity;
pub use reporting::get_project_staffing;
