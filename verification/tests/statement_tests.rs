use pikku::commitment::CommitmentKey;
use pikku::ifma::Q;
use pikku::qe::QuadraticExtension;
use pikku::ring::{fold_commitment, fold_witness, mle_evaluate};
use pikku::statement::{build_instance, verify_output, EvalClaim, OutputError};

struct Lcg(u64);

impl Lcg {
    fn next(&mut self) -> u64 {
        self.0 = self.0.wrapping_mul(6364136223846793005).wrapping_add(1442695040888963407);
        (self.0 >> 11) % Q
    }
    fn element(&mut self) -> [u64; 128] {
        let mut v = [0u64; 128];
        for x in v.iter_mut() {
            *x = self.next();
        }
        v
    }
    fn zeta(&mut self) -> [u64; 64] {
        let mut z = [0u64; 64];
        for x in z.iter_mut() {
            *x = self.next();
        }
        z
    }
    fn point(&mut self, vars: usize) -> Vec<QuadraticExtension> {
        (0..vars).map(|_| QuadraticExtension { c0: self.next(), c1: self.next() }).collect()
    }
}

struct Setup {
    zeta: [u64; 64],
    alpha: [u64; 128],
    key: CommitmentKey,
    witness: Vec<Vec<[u64; 128]>>,
}

fn setup(seed: u64) -> Setup {
    let mut rng = Lcg(seed);
    let zeta = rng.zeta();
    let alpha = rng.element();
    let (height, rank) = (8usize, 3usize);
    let rows: Vec<[u64; 128]> = (0..height * rank).map(|_| rng.element()).collect();
    let key = CommitmentKey::from_rows(rows, height, rank);
    let witness: Vec<Vec<[u64; 128]>> =
        (0..3).map(|_| (0..height).map(|_| rng.element()).collect()).collect();
    Setup { zeta, alpha, key, witness }
}

#[test]
fn instance_commits_columns_and_claims_evaluations() {
    let s = setup(21);
    let mut rng = Lcg(22);
    let points: Vec<Vec<QuadraticExtension>> = (0..3).map(|_| rng.point(3)).collect();
    let inst = build_instance(&s.key, &s.witness, &points, 7, &s.alpha, &s.zeta);
    assert_eq!(inst.height, 3);
    assert_eq!(inst.width, 3);
    assert_eq!(inst.commitment, s.key.commit(&s.witness, &s.zeta));
    assert_eq!(inst.claims.len(), 3);
    for col in 0..3 {
        assert_eq!(inst.claims[col].point, points[col]);
        assert_eq!(
            inst.claims[col].value,
            mle_evaluate(&s.witness[col], &points[col], 7, &s.alpha, &s.zeta)
        );
    }
    // a column's own commitment is its column of the instance's commitment
    let second = s.key.commit_column(&s.witness[1], &s.zeta);
    for row in 0..3 {
        assert_eq!(inst.commitment[row * 3 + 1], second[row]);
    }
}

fn honest_output(s: &Setup) -> (Vec<[u64; 128]>, Vec<[u64; 128]>, EvalClaim) {
    let mut rng = Lcg(23);
    let mut challenges: Vec<[u64; 128]> = (0..3).map(|_| rng.element()).collect();
    let mut unit = [0u64; 128];
    for lane in unit.iter_mut().take(64) {
        *lane = 1;
    }
    challenges[2] = unit;
    let folded = fold_witness(&s.witness, &challenges, &s.zeta);
    let commitment = s.key.commit(&s.witness, &s.zeta);
    let folded_commitment = fold_commitment(&commitment, 3, &challenges, &s.zeta);
    let point = rng.point(3);
    let value = mle_evaluate(&folded, &point, 7, &s.alpha, &s.zeta);
    (folded, folded_commitment, EvalClaim { point, value })
}

#[test]
fn honest_fold_output_is_accepted() {
    let s = setup(31);
    let (folded, folded_commitment, claim) = honest_output(&s);
    assert_eq!(
        verify_output(&s.key, &folded, &folded_commitment, &claim, true, 7, &s.alpha, &s.zeta),
        Ok(())
    );
    // a prefix of the commitment rows is checked row by row as well
    let prefix = folded_commitment[..2].to_vec();
    assert_eq!(verify_output(&s.key, &folded, &prefix, &claim, true, 7, &s.alpha, &s.zeta), Ok(()));
}

#[test]
fn tampered_folded_commitment_is_refused() {
    let s = setup(32);
    let (folded, mut folded_commitment, claim) = honest_output(&s);
    folded_commitment[2][100] = (folded_commitment[2][100] + 1) % Q;
    // the commitment is checked before the norm and the claim
    assert_eq!(
        verify_output(&s.key, &folded, &folded_commitment, &claim, false, 7, &s.alpha, &s.zeta),
        Err(OutputError::CommitmentMismatch)
    );
}

#[test]
fn oversized_folded_witness_is_refused() {
    let s = setup(33);
    let (folded, folded_commitment, mut claim) = honest_output(&s);
    claim.value[0] = (claim.value[0] + 1) % Q;
    // the norm is checked before the claim
    assert_eq!(
        verify_output(&s.key, &folded, &folded_commitment, &claim, false, 7, &s.alpha, &s.zeta),
        Err(OutputError::NormExceeded)
    );
}

#[test]
fn tampered_folded_claim_is_refused() {
    let s = setup(34);
    let (folded, folded_commitment, mut claim) = honest_output(&s);
    claim.value[127] = (claim.value[127] + 1) % Q;
    assert_eq!(
        verify_output(&s.key, &folded, &folded_commitment, &claim, true, 7, &s.alpha, &s.zeta),
        Err(OutputError::ClaimMismatch)
    );
    // a claim at another point is refused as well
    let (_, _, honest) = honest_output(&s);
    let mut moved = EvalClaim { point: honest.point.clone(), value: honest.value };
    moved.point[0].c0 = (moved.point[0].c0 + 1) % Q;
    assert_eq!(
        verify_output(&s.key, &folded, &folded_commitment, &moved, true, 7, &s.alpha, &s.zeta),
        Err(OutputError::ClaimMismatch)
    );
}
