use mcts::ucb::{
    exploration_term_of, ln_fixed_of, log2_fixed_of, parent_rate_fixed_of, sqrt_floor_of, ONE,
    SQRT_2,
};

#[test]
fn log2_is_exact_at_powers_of_two_and_linear_between() {
    assert_eq!(log2_fixed_of(0), 0);
    assert_eq!(log2_fixed_of(1), 0);
    assert_eq!(log2_fixed_of(8), 3 * ONE);
    assert_eq!(log2_fixed_of(12), 3_500_000);
    assert_eq!(log2_fixed_of(10), 3_250_000);
    assert_eq!(log2_fixed_of(u64::MAX), 63 * ONE + 999_999);
}

#[test]
fn natural_log_in_fixed_point() {
    assert_eq!(ln_fixed_of(1), 0);
    assert_eq!(ln_fixed_of(2), 693_147);
    assert_eq!(ln_fixed_of(10), 2_252_727);
}

#[test]
fn integer_square_root() {
    assert_eq!(sqrt_floor_of(0), 0);
    assert_eq!(sqrt_floor_of(15), 3);
    assert_eq!(sqrt_floor_of(16), 4);
    assert_eq!(sqrt_floor_of(u64::MAX), 4_294_967_295);
}

#[test]
fn exploration_term_values() {
    assert_eq!(exploration_term_of(SQRT_2, 1, 1), 0);
    assert_eq!(exploration_term_of(ONE, 2, 1), 1_177_409);
    assert_eq!(exploration_term_of(SQRT_2, 10, 3), 1_733_099);
}

#[test]
fn parent_perspective_is_one_minus_own_rate() {
    // A child that won every simulation for its own mover is worth nothing
    // to the player who moved into it, and the other way round.
    assert_eq!(parent_rate_fixed_of(4, 4), 0);
    assert_eq!(parent_rate_fixed_of(-4, 4), ONE);
    assert_eq!(parent_rate_fixed_of(0, 4), ONE / 2);
    // own rate (3/4 + 1) / 2 = 0.875, so the parent sees 0.125
    assert_eq!(parent_rate_fixed_of(3, 4), 125_000);
}
