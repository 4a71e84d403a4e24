//! Fixed-point hour arithmetic: the two pure helpers at the bottom of the
//! engine, and the laws that hold of them.
//!
//! Hours are milli-hours, percentages are basis points (`100% = 10_000`),
//! factors and weights are per-mille (`1.0 = 1000`).

use vstd::prelude::*;

verus! {

/// Basis points in 100%.
pub const PERCENT_SCALE: u64 = 10_000;

/// Per-mille steps in a factor of 1.0.
pub const FACTOR_SCALE: u64 = 1_000;

/// `PERCENT_SCALE * FACTOR_SCALE`: divisor that turns
/// `milli-hours x basis points x per-mille` back into milli-hours.
pub const EFFECTIVE_DIVISOR: u64 = 10_000_000;

/// An optional-overhead deduction: `optional_mh` milli-hours weighted by a
/// per-mille probability, rounded down to whole milli-hours.
pub open spec fn weighted_optional_math(optional_mh: int, weight_pm: int) -> int {
    optional_mh * weight_pm / FACTOR_SCALE as int
}

/// Net available milli-hours: base minus all deductions, floored at zero.
pub open spec fn available_hours_math(
    base_mh: int,
    absence_mh: int,
    holiday_mh: int,
    required_overhead_mh: int,
    optional_overhead_mh: int,
    optional_weight_pm: int,
) -> int {
    let net = base_mh - absence_mh - holiday_mh - required_overhead_mh
        - weighted_optional_math(optional_overhead_mh, optional_weight_pm);
    if net >= 0 {
        net
    } else {
        0
    }
}

/// Net available hours for a person after every deduction: absences,
/// holidays, required overhead at full weight, optional overhead at its
/// probability weight. Never negative.
pub fn calculate_available_hours(
    base_mh: u64,
    absence_mh: u64,
    holiday_mh: u64,
    required_overhead_mh: u64,
    optional_overhead_mh: u64,
    optional_weight_pm: u32,
) -> (available_mh: u64)
    requires
        optional_weight_pm <= FACTOR_SCALE,
    ensures
        available_mh == available_hours_math(
            base_mh as int,
            absence_mh as int,
            holiday_mh as int,
            required_overhead_mh as int,
            optional_overhead_mh as int,
            optional_weight_pm as int,
        ),
{
    proof {
        assert(optional_overhead_mh as int * optional_weight_pm as int
            <= u64::MAX as int * FACTOR_SCALE as int) by (nonlinear_arith)
            requires
                0 <= optional_overhead_mh <= u64::MAX,
                0 <= optional_weight_pm <= FACTOR_SCALE,
        ;
    }
    let weighted: u128 = optional_overhead_mh as u128 * optional_weight_pm as u128
        / FACTOR_SCALE as u128;
    let deductions: u128 = absence_mh as u128 + holiday_mh as u128 + required_overhead_mh as u128
        + weighted;
    if base_mh as u128 >= deductions {
        (base_mh as u128 - deductions) as u64
    } else {
        0
    }
}

/// Floor law of [`calculate_available_hours`]: the result is never negative,
/// and it equals the plain deduction expression whenever that expression is
/// non-negative.
pub proof fn lemma_available_hours_floor(
    base_mh: int,
    absence_mh: int,
    holiday_mh: int,
    required_overhead_mh: int,
    optional_overhead_mh: int,
    optional_weight_pm: int,
)
    ensures
        available_hours_math(
            base_mh,
            absence_mh,
            holiday_mh,
            required_overhead_mh,
            optional_overhead_mh,
            optional_weight_pm,
        ) >= 0,
        base_mh - absence_mh - holiday_mh - required_overhead_mh
            - weighted_optional_math(optional_overhead_mh, optional_weight_pm) >= 0
            ==> available_hours_math(
            base_mh,
            absence_mh,
            holiday_mh,
            required_overhead_mh,
            optional_overhead_mh,
            optional_weight_pm,
        ) == base_mh - absence_mh - holiday_mh - required_overhead_mh
            - weighted_optional_math(optional_overhead_mh, optional_weight_pm),
{
}

/// Effective milli-hours before rounding, in units of
/// `milli-hours x basis points x per-mille`: the exact product that the
/// fixed-point result is the floor of.
pub open spec fn effective_hours_exact(available_mh: int, allocation_bp: int, productivity_pm: int) -> int {
    available_mh * allocation_bp * productivity_pm
}

/// Effective milli-hours credited to an assignment:
/// `available x (allocation / 100%) x productivity`, rounded down to whole
/// milli-hours.
pub open spec fn effective_hours_math(available_mh: int, allocation_bp: int, productivity_pm: int) -> int {
    effective_hours_exact(available_mh, allocation_bp, productivity_pm) / EFFECTIVE_DIVISOR as int
}

/// Effective hours actually credited to a project from one assignment, after
/// applying the allocation percentage and the productivity factor.
pub fn calculate_assignment_effective_hours(
    available_mh: u64,
    allocation_bp: u32,
    productivity_pm: u32,
) -> (effective_mh: u64)
    requires
        productivity_pm <= FACTOR_SCALE,
        effective_hours_math(available_mh as int, allocation_bp as int, productivity_pm as int)
            <= u64::MAX,
    ensures
        effective_mh == effective_hours_math(
            available_mh as int,
            allocation_bp as int,
            productivity_pm as int,
        ),
{
    proof {
        assert(available_mh as int * allocation_bp as int <= u64::MAX as int * u32::MAX as int)
            by (nonlinear_arith)
            requires
                0 <= available_mh <= u64::MAX,
                0 <= allocation_bp <= u32::MAX,
        ;
        assert(available_mh as int * allocation_bp as int * productivity_pm as int
            <= u64::MAX as int * u32::MAX as int * FACTOR_SCALE as int) by (nonlinear_arith)
            requires
                0 <= available_mh <= u64::MAX,
                0 <= allocation_bp <= u32::MAX,
                0 <= productivity_pm <= FACTOR_SCALE,
        ;
    }
    let product: u128 = available_mh as u128 * allocation_bp as u128 * productivity_pm as u128;
    (product / EFFECTIVE_DIVISOR as u128) as u64
}

/// Bounds a product by the product of the bounds.
pub proof fn lemma_mul_le(a: int, a_max: int, b: int, b_max: int)
    requires
        0 <= a <= a_max,
        0 <= b <= b_max,
    ensures
        0 <= a * b <= a_max * b_max,
{
    assert(0 <= a * b <= a_max * b_max) by (nonlinear_arith)
        requires
            0 <= a <= a_max,
            0 <= b <= b_max,
    ;
}

/// Linearity law of the effective-hours product: scaling any one argument by
/// `k` scales the exact product by `k`, holding the other two fixed. The
/// executable function returns this product rounded down to whole
/// milli-hours.
pub proof fn lemma_effective_hours_linear(
    available_mh: int,
    allocation_bp: int,
    productivity_pm: int,
    k: int,
)
    ensures
        effective_hours_exact(k * available_mh, allocation_bp, productivity_pm)
            == k * effective_hours_exact(available_mh, allocation_bp, productivity_pm),
        effective_hours_exact(available_mh, k * allocation_bp, productivity_pm)
            == k * effective_hours_exact(available_mh, allocation_bp, productivity_pm),
        effective_hours_exact(available_mh, allocation_bp, k * productivity_pm)
            == k * effective_hours_exact(available_mh, allocation_bp, productivity_pm),
{
    assert(k * available_mh * allocation_bp * productivity_pm
        == k * (available_mh * allocation_bp * productivity_pm)) by (nonlinear_arith);
    assert(available_mh * (k * allocation_bp) * productivity_pm
        == k * (available_mh * allocation_bp * productivity_pm)) by (nonlinear_arith);
    assert(available_mh * allocation_bp * (k * productivity_pm)
        == k * (available_mh * allocation_bp * productivity_pm)) by (nonlinear_arith);
}

/// Zero law of effective hours: the result is zero whenever any argument is
/// zero.
pub proof fn lemma_effective_hours_zero(available_mh: int, allocation_bp: int, productivity_pm: int)
    ensures
        available_mh == 0 || allocation_bp == 0 || productivity_pm == 0
            ==> effective_hours_math(available_mh, allocation_bp, productivity_pm) == 0,
{
    assert(available_mh == 0 || allocation_bp == 0 || productivity_pm == 0
        ==> available_mh * allocation_bp * productivity_pm == 0) by (nonlinear_arith);
}

} // verus!
