use capacity_planner::hours::{calculate_assignment_effective_hours, calculate_available_hours};

#[test]
fn available_hours_scenario() {
    // base 160h, absence 16h, holiday 8h, required overhead 8h, optional
    // overhead 4h at weight 0.5: 160 - 16 - 8 - 8 - 2 = 126h.
    let available = calculate_available_hours(160_000, 16_000, 8_000, 8_000, 4_000, 500);
    assert_eq!(available, 126_000);
}

#[test]
fn available_hours_floors_at_zero() {
    let available = calculate_available_hours(10_000, 8_000, 4_000, 0, 0, 0);
    assert_eq!(available, 0);
    let available = calculate_available_hours(0, 0, 0, 0, 1_000_000, 1000);
    assert_eq!(available, 0);
}

#[test]
fn available_hours_exact_when_nonnegative() {
    let available = calculate_available_hours(100_000, 10_000, 5_000, 2_000, 10_000, 250);
    // 100 - 10 - 5 - 2 - 2.5 = 80.5h
    assert_eq!(available, 80_500);
}

#[test]
fn available_hours_full_weight_deducts_fully() {
    let available = calculate_available_hours(50_000, 0, 0, 0, 20_000, 1000);
    assert_eq!(available, 30_000);
}

#[test]
fn effective_hours_scenario() {
    // 40 available hours, 100% allocation, productivity 0.8 => 32h.
    let effective = calculate_assignment_effective_hours(40_000, 10_000, 800);
    assert_eq!(effective, 32_000);
}

#[test]
fn effective_hours_zero_when_any_argument_is_zero() {
    assert_eq!(calculate_assignment_effective_hours(0, 10_000, 800), 0);
    assert_eq!(calculate_assignment_effective_hours(40_000, 0, 800), 0);
    assert_eq!(calculate_assignment_effective_hours(40_000, 10_000, 0), 0);
}

#[test]
fn effective_hours_scales_linearly_in_allocation() {
    let half = calculate_assignment_effective_hours(40_000, 5_000, 800);
    let full = calculate_assignment_effective_hours(40_000, 10_000, 800);
    assert_eq!(full, 2 * half);
    let quarter = calculate_assignment_effective_hours(40_000, 2_500, 800);
    assert_eq!(full, 4 * quarter);
}

#[test]
fn effective_hours_full_allocation_full_productivity() {
    assert_eq!(calculate_assignment_effective_hours(37_500, 10_000, 1000), 37_500);
}
