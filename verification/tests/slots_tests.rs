use pikku::fq2::Fq2;
use pikku::modq::{add_mod, multiply_mod, power_mod, sub_mod};
use pikku::sampler::{sample_attempt, Challenge};
use pikku::slots::{is_prime, multiplicative_order_mod, SlotError, SlotSystem};
use rand::rngs::SmallRng;
use rand::SeedableRng;

const ROW_QS: [u64; 8] = [127, 383, 1151, 1279, 1663, 2687, 5119, 6143];
const ROW_WEIGHTS: [usize; 8] = [3, 4, 4, 4, 4, 5, 5, 5];
const DEGREE: usize = 128;

#[test]
fn slot_system_has_expected_roots() {
    for q in ROW_QS {
        let slots = SlotSystem::new(q).unwrap();
        assert_eq!(slots.powers.len(), 64);
        for powers in &slots.powers {
            let root = powers[1];
            assert_eq!(slots.field.pow(root, 128), slots.field.neg(Fq2::one()));
            assert_eq!(slots.field.pow(root, 256), Fq2::one());
        }
    }
}

#[test]
fn slot_nonunit_matches_polynomial_gcd() {
    for (row, q) in ROW_QS.iter().copied().enumerate() {
        let weight = ROW_WEIGHTS[row];
        let slots = SlotSystem::new(q).unwrap();
        let mut rng = SmallRng::seed_from_u64(0xdecafbad ^ q);
        for _ in 0..128 {
            let left = sample_attempt(&mut rng, weight);
            let right = sample_attempt(&mut rng, weight);
            let by_slots = slots.non_unit_difference(&left, &right);
            let by_gcd = nonunit_by_polynomial_gcd(q, &left, &right);
            assert_eq!(by_slots, by_gcd, "q={}", q);
        }
    }
}

fn inverse(a: u64, q: u64) -> u64 {
    power_mod(a, q - 2, q)
}

fn nonunit_by_polynomial_gcd(q: u64, left: &Challenge, right: &Challenge) -> bool {
    let mut diff = vec![0u64; DEGREE];
    for i in 0..left.weight {
        add_coeff(q, &mut diff, left.positions[i] as usize, left.signs[i]);
    }
    for i in 0..right.weight {
        add_coeff(q, &mut diff, right.positions[i] as usize, -right.signs[i]);
    }
    trim(&mut diff);
    if diff.is_empty() {
        return true;
    }
    let mut cyclo = vec![0u64; DEGREE + 1];
    cyclo[0] = 1;
    cyclo[DEGREE] = 1;
    let gcd = poly_gcd(q, cyclo, diff);
    gcd.len() > 1
}

fn add_coeff(q: u64, coeffs: &mut [u64], index: usize, value: i8) {
    match value {
        -2 => coeffs[index] = sub_mod(sub_mod(coeffs[index], 1, q), 1, q),
        -1 => coeffs[index] = sub_mod(coeffs[index], 1, q),
        0 => {}
        1 => coeffs[index] = add_mod(coeffs[index], 1, q),
        2 => coeffs[index] = add_mod(add_mod(coeffs[index], 1, q), 1, q),
        _ => unreachable!(),
    }
}

fn poly_gcd(q: u64, mut a: Vec<u64>, mut b: Vec<u64>) -> Vec<u64> {
    trim(&mut a);
    trim(&mut b);
    while !b.is_empty() {
        let r = poly_rem(q, &a, &b);
        a = b;
        b = r;
    }
    if let Some(&lead) = a.last() {
        let inv = inverse(lead, q);
        for coeff in &mut a {
            *coeff = multiply_mod(*coeff, inv, q);
        }
    }
    a
}

fn poly_rem(q: u64, a: &[u64], b: &[u64]) -> Vec<u64> {
    assert!(!b.is_empty());
    let mut r = a.to_vec();
    let inv_lead = inverse(*b.last().unwrap(), q);
    while r.len() >= b.len() && !r.is_empty() {
        let shift = r.len() - b.len();
        let factor = multiply_mod(*r.last().unwrap(), inv_lead, q);
        if factor != 0 {
            for (i, &b_coeff) in b.iter().enumerate() {
                let product = multiply_mod(factor, b_coeff, q);
                r[shift + i] = sub_mod(r[shift + i], product, q);
            }
        }
        trim(&mut r);
    }
    r
}

fn trim(poly: &mut Vec<u64>) {
    while poly.last() == Some(&0) {
        poly.pop();
    }
}

#[test]
fn primality_by_trial_division() {
    assert!(!is_prime(0));
    assert!(!is_prime(1));
    assert!(is_prime(2));
    assert!(is_prime(3));
    assert!(!is_prime(4));
    assert!(is_prime(127));
    assert!(!is_prime(129));
    assert!(is_prime(6143));
    assert!(!is_prime(6141));
}

#[test]
fn multiplicative_orders() {
    assert_eq!(multiplicative_order_mod(127 % 256, 256), Some(2));
    assert_eq!(multiplicative_order_mod(1, 256), Some(1));
    assert_eq!(multiplicative_order_mod(3, 7), Some(6));
    assert_eq!(multiplicative_order_mod(2, 4), None);
}

#[test]
fn slot_system_refusals() {
    assert_eq!(SlotSystem::new(129).err(), Some(SlotError::NotPrime));
    // 257 = 1 mod 256: order 1
    assert_eq!(SlotSystem::new(257).err(), Some(SlotError::OrderNotTwo));
    // 2 is prime, 2 mod 256 has no order
    assert_eq!(SlotSystem::new(2).err(), Some(SlotError::OrderNotTwo));
}

#[test]
fn equal_challenges_are_a_non_unit_difference() {
    let slots = SlotSystem::new(127).unwrap();
    let mut rng = SmallRng::seed_from_u64(5);
    let c = sample_attempt(&mut rng, 3);
    assert!(slots.non_unit_difference(&c, &c));
}

#[test]
fn one_minus_x_is_a_unit_difference() {
    // 1 - X vanishes at no root of X^128 + 1, since no root is 1.
    let one = Challenge { positions: [0, 0, 0, 0, 0], signs: [1, 0, 0, 0, 0], weight: 1 };
    let x = Challenge { positions: [1, 0, 0, 0, 0], signs: [1, 0, 0, 0, 0], weight: 1 };
    for q in ROW_QS {
        let slots = SlotSystem::new(q).unwrap();
        assert!(!slots.non_unit_difference(&one, &x));
        assert!(!nonunit_by_polynomial_gcd(q, &one, &x));
    }
}

#[test]
fn certificate_passes_for_the_listed_primes() {
    for q in ROW_QS {
        assert!(!matches!(SlotSystem::new(q), Err(SlotError::CertificateFailed)));
    }
}
