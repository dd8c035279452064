use pikku::ifma::{reduce_lo_hi, reduce_u128, shoup, Q};
use pikku::modq::{add_mod, eltwise_fma_mod, eltwise_mult_mod, multiply_mod, power_mod, sub_mod};
use pikku::vnni::{chunks_of, combine_chunks, dot_row_i16};

#[test]
fn word_modular_arithmetic() {
    assert_eq!(add_mod(5, 9, 11), 3);
    assert_eq!(sub_mod(5, 9, 11), 7);
    assert_eq!(multiply_mod(u64::MAX, u64::MAX, 1_000_000_007), ((u64::MAX as u128 * u64::MAX as u128) % 1_000_000_007) as u64);
    assert_eq!(power_mod(3, 0, 7), 1);
    assert_eq!(power_mod(3, 6, 7), 1);
    assert_eq!(power_mod(2, 10, 1000), 24);
    assert_eq!(multiply_mod(3, power_mod(3, 125, 127), 127), 1);
}

#[test]
fn elementwise_operations() {
    let a = vec![1u64, 2, 3];
    let b = vec![4u64, 5, 10];
    let mut out = vec![0u64; 3];
    eltwise_mult_mod(&mut out, &a, &b, 7);
    assert_eq!(out, vec![4, 3, 2]);
    eltwise_fma_mod(&mut out, &a, 3, &vec![6, 6, 6], 7);
    assert_eq!(out, vec![2, 5, 1]);
}

#[test]
fn lazy_reduction_to_the_ring_prime() {
    assert_eq!(reduce_u128(0), 0);
    assert_eq!(reduce_u128(Q as u128), 0);
    assert_eq!(reduce_u128((1u128 << 111) + 12345), (((1u128 << 111) + 12345) % Q as u128) as u64);
    assert_eq!(reduce_lo_hi(7, 3), (((3u128 << 52) + 7) % Q as u128) as u64);
    // the Shoup companion of y is floor(y 2^52 / q)
    assert_eq!(shoup(1), ((1u128 << 52) / Q as u128) as u64);
    assert_eq!(shoup(Q - 1), ((((Q - 1) as u128) << 52) / Q as u128) as u64);
}

#[test]
fn chunk_decomposition() {
    let v = 0x000f_1234_5678_9abcu64;
    let c = chunks_of(v);
    let back = c[0] as u64 + ((c[1] as u64) << 13) + ((c[2] as u64) << 26) + ((c[3] as u64) << 39);
    assert_eq!(back, v);
    // negative chunk sums are handled through the bias
    assert_eq!(combine_chunks([-1, 0, 0, 0], 30), Q - 1);
    assert_eq!(combine_chunks([5, 1, 0, 0], 30), 5 + 8192);
}

#[test]
fn signed_row_products() {
    let mut w = [0i16; 128];
    let mut row = [0u64; 128];
    w[0] = -3;
    w[5] = 1024;
    row[0] = 10;
    row[5] = Q - 1;
    let expected = ((-30i128 + 1024 * (Q as i128 - 1)).rem_euclid(Q as i128)) as u64;
    assert_eq!(dot_row_i16(&w, &row), expected);
}
