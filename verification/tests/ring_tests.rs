use pikku::ifma::Q;
use pikku::qe_vec::QeVec;
use pikku::qe::QuadraticExtension;
use pikku::qe_vec::expand_eq_soa;
use pikku::ring::{
    batched_claim, batched_projections, commit_pass, contract_pass, dot_rows_pass, evaluate_column,
    fold_commitment, fold_pass, fold_witness, mle_evaluate, ring_add, ring_inner_product, ring_mul,
    FixedMultiplier,
};
use pikku::sumcheck::SlotBatcher;
use pikku::vnni::{contract_i16_parts, dot_rows_i16};

struct Lcg(u64);

impl Lcg {
    fn next(&mut self) -> u64 {
        self.0 = self.0.wrapping_mul(6364136223846793005).wrapping_add(1442695040888963407);
        (self.0 >> 11) % Q
    }
    fn element(&mut self) -> [u64; 128] {
        let mut v = [0u64; 128];
        for x in v.iter_mut() {
            *x = self.next();
        }
        v
    }
    fn small(&mut self) -> [i16; 128] {
        let mut v = [0i16; 128];
        for x in v.iter_mut() {
            *x = (self.next() % 2049) as i16 - 1024;
        }
        v
    }
    fn zeta(&mut self) -> [u64; 64] {
        let mut z = [0u64; 64];
        for x in z.iter_mut() {
            *x = self.next();
        }
        z
    }
}

fn mulq(a: u64, b: u64) -> u64 {
    ((a as u128 * b as u128) % Q as u128) as u64
}

fn addq(a: u64, b: u64) -> u64 {
    ((a as u128 + b as u128) % Q as u128) as u64
}

fn residue(v: i64) -> u64 {
    v.rem_euclid(Q as i64) as u64
}

fn ref_mul(x: &[u64; 128], y: &[u64; 128], zeta: &[u64; 64]) -> [u64; 128] {
    let mut out = [0u64; 128];
    for i in 0..64 {
        let (a, b, c, d) = (x[i], x[64 + i], y[i], y[64 + i]);
        out[i] = addq(mulq(a, c), mulq(zeta[i], mulq(b, d)));
        out[64 + i] = addq(mulq(a, d), mulq(b, c));
    }
    out
}

fn ref_add(x: &[u64; 128], y: &[u64; 128]) -> [u64; 128] {
    let mut out = [0u64; 128];
    for i in 0..128 {
        out[i] = addq(x[i], y[i]);
    }
    out
}

#[test]
fn slot_products() {
    let mut rng = Lcg(1);
    let zeta = rng.zeta();
    let x = rng.element();
    let y = rng.element();
    assert_eq!(ring_mul(&x, &y, &zeta), ref_mul(&x, &y, &zeta));
    assert_eq!(ring_add(&x, &y), ref_add(&x, &y));
    // the unit of every slot
    let mut one = [0u64; 128];
    for i in 0..64 {
        one[i] = 1;
    }
    assert_eq!(ring_mul(&x, &one, &zeta), x);
    // (0 + 1 Y)^2 = zeta in every slot
    let mut y_gen = [0u64; 128];
    for i in 64..128 {
        y_gen[i] = 1;
    }
    let sq = ring_mul(&y_gen, &y_gen, &zeta);
    for i in 0..64 {
        assert_eq!(sq[i], zeta[i]);
        assert_eq!(sq[64 + i], 0);
    }
}

#[test]
fn commitment_matches_ring_reference() {
    let mut rng = Lcg(2);
    let zeta = rng.zeta();
    let (height, rank, width) = (1100usize, 3usize, 2usize);
    let key: Vec<[u64; 128]> = (0..rank * height).map(|_| rng.element()).collect();
    let columns: Vec<Vec<[u64; 128]>> =
        (0..width).map(|_| (0..height).map(|_| rng.element()).collect()).collect();
    let commitment = commit_pass(&key, height, rank, &columns, &zeta);
    assert_eq!(commitment.len(), rank * width);
    for row in 0..rank {
        for col in 0..width {
            let mut expected = [0u64; 128];
            for i in 0..height {
                expected = ref_add(&expected, &ref_mul(&key[row * height + i], &columns[col][i], &zeta));
            }
            assert_eq!(commitment[row * width + col], expected);
        }
    }
}

#[test]
fn fold_pass_matches_ring_fold() {
    let mut rng = Lcg(3);
    let zeta = rng.zeta();
    let m = 40;
    let witness: Vec<Vec<[u64; 128]>> = (0..3).map(|_| (0..m).map(|_| rng.element()).collect()).collect();
    let mut challenges: Vec<[u64; 128]> = (0..3).map(|_| rng.element()).collect();
    let mut one = [0u64; 128];
    for i in 0..64 {
        one[i] = 1;
    }
    challenges[2] = one;
    let folded = fold_witness(&witness, &challenges, &zeta);
    assert_eq!(folded.len(), m);
    for row in 0..m {
        let mut expected = witness[2][row];
        for c in 0..2 {
            expected = ref_add(&expected, &ref_mul(&challenges[c], &witness[c][row], &zeta));
        }
        assert_eq!(folded[row], expected);
    }
    // the same fold through prepared multipliers
    let multipliers: Vec<FixedMultiplier> =
        (0..2).map(|c| FixedMultiplier::new(&challenges[c], &zeta)).collect();
    let again = fold_pass(&witness[2], &witness[..2].to_vec(), &multipliers, &zeta);
    assert_eq!(again, folded);
    // folding the commitment the same way
    let commitment: Vec<[u64; 128]> = (0..2 * 3).map(|_| rng.element()).collect();
    let folded_commitment = fold_commitment(&commitment, 2, &challenges, &zeta);
    for row in 0..2 {
        let mut expected = [0u64; 128];
        for col in 0..3 {
            expected = ref_add(&expected, &ref_mul(&commitment[row * 3 + col], &challenges[col], &zeta));
        }
        assert_eq!(folded_commitment[row], expected);
    }
}

#[test]
fn witness_passes_match_reference() {
    let mut rng = Lcg(4);
    let zeta = rng.zeta();
    let rows = [rng.element(), rng.element()];
    let batcher = SlotBatcher::from_rows(rows);
    let smalls: Vec<[i16; 128]> = (0..1 << 10).map(|_| rng.small()).collect();
    let elements: Vec<[u64; 128]> = smalls
        .iter()
        .map(|s| {
            let mut v = [0u64; 128];
            for i in 0..128 {
                v[i] = residue(s[i] as i64);
            }
            v
        })
        .collect();
    let r = dot_rows_pass(&elements, &rows.to_vec());
    let c = dot_rows_i16(&smalls, &rows.to_vec());
    for (x, element) in elements.iter().enumerate() {
        let expected = batcher.apply(element);
        assert_eq!([r[0][x], r[1][x]], [expected.c0, expected.c1]);
        assert_eq!([c[0][x], c[1][x]], [expected.c0, expected.c1]);
    }
    // contraction against 256 extension weights
    let len = 256;
    let limb0: Vec<u64> = (0..len).map(|_| rng.next()).collect();
    let limb1: Vec<u64> = (0..len).map(|_| rng.next()).collect();
    let weights = QeVec::from_limbs(limb0.clone(), limb1.clone());
    let alpha = rng.element();
    let contracted = contract_pass(&elements, &weights, &alpha, &zeta);
    let parts = contract_i16_parts(&smalls, &weights);
    assert_eq!(contracted.len(), elements.len() / len);
    assert_eq!(parts.len(), elements.len() / len);
    for t in 0..contracted.len() {
        let mut plain = [0u64; 128];
        let mut alpha_part = [0u64; 128];
        for x in 0..len {
            for lane in 0..128 {
                let e = elements[t * len + x][lane];
                plain[lane] = addq(plain[lane], mulq(limb0[x], e));
                alpha_part[lane] = addq(alpha_part[lane], mulq(limb1[x], e));
            }
        }
        assert_eq!(parts[t], [plain, alpha_part]);
        assert_eq!(contracted[t], ref_add(&plain, &ref_mul(&alpha_part, &alpha, &zeta)));
    }
}

#[test]
fn ring_inner_products() {
    let mut rng = Lcg(6);
    let zeta = rng.zeta();
    let a: Vec<[u64; 128]> = (0..5).map(|_| rng.element()).collect();
    let b: Vec<[u64; 128]> = (0..3).map(|_| rng.element()).collect();
    let mut expected = [0u64; 128];
    for i in 0..3 {
        expected = ref_add(&expected, &ref_mul(&a[i], &b[i], &zeta));
    }
    assert_eq!(ring_inner_product(&a, &b, &zeta), expected);
    assert_eq!(batched_claim(&a, &b, &zeta), expected);
    let fine: Vec<[u64; 128]> = (0..4).map(|_| rng.element()).collect();
    let j = vec![a.clone(), b.clone()];
    let out = batched_projections(&fine, &j, &zeta);
    assert_eq!(out[0], ring_inner_product(&a, &fine, &zeta));
    assert_eq!(out[1], ring_inner_product(&b, &fine, &zeta));
}

#[test]
fn column_evaluation_and_mle() {
    let mut rng = Lcg(8);
    let zeta = rng.zeta();
    let alpha = rng.element();
    let shift = 5;
    let layers: Vec<QuadraticExtension> =
        (0..3).map(|_| QuadraticExtension { c0: rng.next(), c1: rng.next() }).collect();
    let values: Vec<[u64; 128]> = (0..8).map(|_| rng.element()).collect();
    let eq = expand_eq_soa(&layers, shift);
    let column = evaluate_column(&values, &eq, &alpha, &zeta);
    assert_eq!(column, contract_pass(&values, &eq, &alpha, &zeta)[0]);
    assert_eq!(mle_evaluate(&values, &layers, shift, &alpha, &zeta), column);
    // at a Boolean point the extension picks one value: layers (1, 0, 1) select index 0b101
    let boolean: Vec<QuadraticExtension> = [1u64, 0, 1]
        .iter()
        .map(|&v| QuadraticExtension { c0: v, c1: 0 })
        .collect();
    assert_eq!(mle_evaluate(&values, &boolean, shift, &alpha, &zeta), values[5]);
}
