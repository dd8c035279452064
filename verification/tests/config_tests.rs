use pikku::config::{commitment_rank, log2_usize, projection_shape, ShapeError, WITNESS_COEFF_BOUND};

#[test]
fn configured_bounds_and_ranks_match_estimates() {
    assert_eq!(WITNESS_COEFF_BOUND, 1 << 10);
    assert_eq!(commitment_rank(1 << 18), 12);
    assert_eq!(commitment_rank(1 << 20), 12);
    assert_eq!(commitment_rank(1 << 22), 13);
}

#[test]
fn log2_is_the_floor() {
    assert_eq!(log2_usize(1), 0);
    assert_eq!(log2_usize(2), 1);
    assert_eq!(log2_usize(3), 1);
    assert_eq!(log2_usize(1 << 20), 20);
    assert_eq!(log2_usize((1 << 20) + 5), 20);
}

#[test]
fn projection_shape_balances_the_coarse_layers() {
    // 2 * 2^20 inputs down to 2^8 rows: shrink 2^13 split as 2^7 and 2^6.
    assert_eq!(projection_shape(1 << 20), Ok([128, 64]));
    // 2 * 2^18 inputs: shrink 2^11 split as 2^6 and 2^5.
    assert_eq!(projection_shape(1 << 18), Ok([64, 32]));
    // an even shrink splits evenly
    assert_eq!(projection_shape(1 << 19), Ok([64, 64]));
}

#[test]
fn projection_shape_refuses_small_witnesses() {
    assert_eq!(projection_shape(1 << 8), Err(ShapeError::WitnessTooSmall));
    assert_eq!(projection_shape(1), Err(ShapeError::WitnessTooSmall));
    assert_eq!(projection_shape(1 << 9), Ok([2, 2]));
}
