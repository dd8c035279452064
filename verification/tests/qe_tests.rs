use pikku::ifma::Q;
use pikku::qe::QuadraticExtension;
use pikku::qe_vec::{dot_qe, expand_eq_soa, lazy_sum_mod, QeVec};
use pikku::sumcheck::{
    batched_projection_value, check_batched_projection, check_round_count,
    evaluate_round_polynomial, round_layout, round_polynomial, weight_layers, RoundLayout,
    SlotBatcher, SumcheckError,
};

const SHIFT: u64 = 3;

fn qe(c0: u64, c1: u64) -> QuadraticExtension {
    QuadraticExtension { c0, c1 }
}

fn mulq(a: u64, b: u64) -> u64 {
    ((a as u128 * b as u128) % Q as u128) as u64
}

fn addq(a: u64, b: u64) -> u64 {
    ((a as u128 + b as u128) % Q as u128) as u64
}

fn subq(a: u64, b: u64) -> u64 {
    ((a as u128 + Q as u128 - b as u128) % Q as u128) as u64
}

fn ref_mul(x: QuadraticExtension, y: QuadraticExtension, s: u64) -> QuadraticExtension {
    qe(
        addq(mulq(x.c0, y.c0), mulq(s, mulq(x.c1, y.c1))),
        addq(mulq(x.c0, y.c1), mulq(x.c1, y.c0)),
    )
}

struct Lcg(u64);

impl Lcg {
    fn next(&mut self) -> u64 {
        self.0 = self.0.wrapping_mul(6364136223846793005).wrapping_add(1442695040888963407);
        (self.0 >> 11) % Q
    }
    fn element(&mut self) -> QuadraticExtension {
        qe(self.next(), self.next())
    }
}

/// The eq table by its definition, most significant layer first.
fn ref_eq(layers: &[QuadraticExtension], s: u64) -> Vec<QuadraticExtension> {
    let k = layers.len();
    (0..1usize << k)
        .map(|b| {
            let mut acc = qe(1, 0);
            for (i, l) in layers.iter().enumerate() {
                let bit = (b >> (k - 1 - i)) & 1;
                let factor = if bit == 1 { *l } else { qe(subq(1, l.c0), subq(0, l.c1)) };
                acc = ref_mul(acc, factor, s);
            }
            acc
        })
        .collect()
}

#[test]
fn extension_arithmetic() {
    let x = qe(5, 7);
    let y = qe(11, Q - 1);
    assert_eq!(x.add(y), qe(16, 6));
    assert_eq!(x.sub(y), qe(Q - 6, 8));
    // (5 + 7i)(11 - i) = 55 - 7 s + (-5 + 77) i with s = 3
    assert_eq!(x.mul(y, SHIFT), qe(34, 72));
    assert_eq!(x.mul(QuadraticExtension::one(), SHIFT), x);
    assert_eq!(x.mul(QuadraticExtension::zero(), SHIFT), QuadraticExtension::zero());
}

#[test]
fn eq_expansion_matches_u64_tensor() {
    let layers_u64: Vec<u64> = vec![3, 17, 4242, 999_999_999, 5];
    let layers_qe: Vec<QuadraticExtension> = layers_u64.iter().map(|&v| qe(v, 0)).collect();
    let actual = expand_eq_soa(&layers_qe, SHIFT);
    assert_eq!(actual.len(), 1 << layers_u64.len());
    let k = layers_u64.len();
    for b in 0..actual.len() {
        let mut expected = 1u64;
        for (i, &l) in layers_u64.iter().enumerate() {
            let bit = (b >> (k - 1 - i)) & 1;
            expected = mulq(expected, if bit == 1 { l } else { subq(1, l) });
        }
        assert_eq!(actual.get(b), qe(expected, 0));
    }
}

#[test]
fn soa_eq_expansion_and_dot_match_reference() {
    let mut rng = Lcg(2024);
    let layers: Vec<QuadraticExtension> = (0..9).map(|_| rng.element()).collect();
    let other_layers: Vec<QuadraticExtension> = (0..9).map(|_| rng.element()).collect();
    let reference = ref_eq(&layers, SHIFT);
    let soa = expand_eq_soa(&layers, SHIFT);
    for (index, expected) in reference.iter().enumerate() {
        assert_eq!(soa.get(index), *expected);
    }
    let other = expand_eq_soa(&other_layers, SHIFT);
    let other_reference = ref_eq(&other_layers, SHIFT);
    assert_eq!(soa.dot(&other, SHIFT), dot_qe(&reference, &other_reference, SHIFT));
    assert_eq!(soa.to_vec(), reference);
}

#[test]
fn eq_table_entries_sum_to_one() {
    let mut rng = Lcg(77);
    let layers: Vec<QuadraticExtension> = (0..6).map(|_| rng.element()).collect();
    let table = expand_eq_soa(&layers, SHIFT).to_vec();
    let mut sum = QuadraticExtension::zero();
    for v in table {
        sum = sum.add(v);
    }
    assert_eq!(sum, QuadraticExtension::one());
}

#[test]
fn empty_layers_give_the_unit_table() {
    let table = expand_eq_soa(&vec![], SHIFT);
    assert_eq!(table.len(), 1);
    assert_eq!(table.get(0), QuadraticExtension::one());
}

#[test]
fn dot_products() {
    let a = vec![qe(1, 2), qe(3, 4)];
    let b = vec![qe(5, 6), qe(7, 8)];
    // (1 + 2i)(5 + 6i) = 5 + 36 + 16i; (3 + 4i)(7 + 8i) = 21 + 96 + 52i with s = 3
    assert_eq!(dot_qe(&a, &b, SHIFT), qe(41 + 117, 16 + 52));
    let va = QeVec::from_limbs(vec![1, 3], vec![2, 4]);
    let vb = QeVec::from_limbs(vec![5, 7], vec![6, 8]);
    assert_eq!(va.dot(&vb, SHIFT), qe(158, 68));
    // the shorter slice bounds the sum
    assert_eq!(dot_qe(&a, &b[..1].to_vec(), SHIFT), qe(41, 16));
}

#[test]
fn contraction_of_the_top_index() {
    // 2 weights, blocks of 3
    let v = QeVec::from_limbs(vec![1, 2, 3, 4, 5, 6], vec![0, 1, 0, 1, 0, 1]);
    let w = vec![qe(2, 0), qe(0, 1)];
    let out = v.contract_top(&w, SHIFT);
    assert_eq!(out.len(), 3);
    for x in 0..3 {
        let expected = ref_mul(w[0], v.get(x), SHIFT).add(ref_mul(w[1], v.get(3 + x), SHIFT));
        assert_eq!(out.get(x), expected);
    }
    // x = 0: 2 * 1 + i * (4 + i) = (2 + s) + 4i
    assert_eq!(out.get(0), qe(5, 4));
}

#[test]
fn lazy_sums_reduce_once_per_chunk() {
    let values: Vec<u64> = (0..10000u64).map(|i| Q - 1 - i).collect();
    let expected = values.iter().fold(0u128, |acc, &v| acc + v as u128) % Q as u128;
    assert_eq!(lazy_sum_mod(&values) as u128, expected);
    assert_eq!(lazy_sum_mod(&vec![]), 0);
}

#[test]
fn round_polynomial_sums_to_the_claim() {
    let mut rng = Lcg(9);
    for _ in 0..20 {
        let claim = rng.element();
        let sent = [rng.element(), rng.element()];
        let p = round_polynomial(claim, sent, SHIFT);
        assert_eq!(p[0], sent[0]);
        assert_eq!(p[2], sent[1]);
        let at0 = evaluate_round_polynomial(p, QuadraticExtension::zero(), SHIFT);
        let at1 = evaluate_round_polynomial(p, QuadraticExtension::one(), SHIFT);
        assert_eq!(at0.add(at1), claim);
    }
}

#[test]
fn round_polynomial_evaluation() {
    // p(x) = 1 + 2x + 3x^2 at x = 10
    let p = [qe(1, 0), qe(2, 0), qe(3, 0)];
    assert_eq!(evaluate_round_polynomial(p, qe(10, 0), SHIFT), qe(321, 0));
    // at x = i: 1 + 2i + 3 s
    assert_eq!(evaluate_round_polynomial(p, qe(0, 1), SHIFT), qe(10, 2));
}

#[test]
fn round_count_is_checked() {
    assert_eq!(check_round_count(7, 7), Ok(()));
    assert_eq!(check_round_count(6, 7), Err(SumcheckError::WrongRoundCount));
    assert_eq!(check_round_count(8, 7), Err(SumcheckError::WrongRoundCount));
}

#[test]
fn weight_layers_prepend_the_selector() {
    let point = vec![qe(4, 5), qe(6, 7)];
    let fresh1 = weight_layers(1, &point);
    assert_eq!(fresh1, vec![qe(1, 0), qe(4, 5), qe(6, 7)]);
    let fresh0 = weight_layers(0, &point);
    assert_eq!(fresh0, vec![qe(0, 0), qe(4, 5), qe(6, 7)]);
    // the accumulator column selects like fresh input 0
    let acc = weight_layers(2, &point);
    assert_eq!(acc, fresh0);
}

#[test]
fn batched_projection_trace_check() {
    let tensor: Vec<u64> = (1..=256u64).map(|i| Q - i).collect();
    let trace: Vec<u64> = (0..256u64).map(|i| i * i).collect();
    let expected = tensor
        .iter()
        .zip(&trace)
        .fold(0u128, |acc, (&t, &x)| (acc + t as u128 * x as u128) % Q as u128) as u64;
    assert_eq!(batched_projection_value(&tensor, &trace), expected);
    assert!(check_batched_projection(&tensor, &trace, expected));
    assert!(!check_batched_projection(&tensor, &trace, (expected + 1) % Q));
}

#[test]
fn slot_batcher_rows_dot_the_lanes() {
    let mut rng = Lcg(5);
    let mut rows = [[0u64; 128]; 2];
    for k in 0..2 {
        for i in 0..128 {
            rows[k][i] = rng.next();
        }
    }
    let batcher = SlotBatcher::from_rows(rows);
    let mut element = [0u64; 128];
    for v in element.iter_mut() {
        *v = rng.next();
    }
    let got = batcher.apply(&element);
    let mut expected = [0u64; 2];
    for k in 0..2 {
        for i in 0..128 {
            expected[k] = addq(expected[k], mulq(rows[k][i], element[i]));
        }
    }
    assert_eq!(got, qe(expected[0], expected[1]));
    assert_eq!(batcher.apply_all(&vec![element, element]), vec![got, got]);
    assert_eq!(batcher.rows(), rows);
    // a unit vector picks one column of the rows
    let mut unit = [0u64; 128];
    unit[17] = 1;
    assert_eq!(batcher.apply(&unit), qe(rows[0][17], rows[1][17]));
}

#[test]
fn round_layout_of_a_default_fold() {
    // m = 2^20, first coarse ratio 2^7, fine layer of 256 rows
    let layout = round_layout(1 << 20, 128, 256);
    assert_eq!(
        layout,
        RoundLayout {
            output_vars: 8,
            input_vars: 21,
            middle_vars: 14,
            witness_vars: 21,
            prefix_rounds: 22,
            rounds: 43,
            block_vars: 6,
        }
    );
}
