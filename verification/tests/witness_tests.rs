use pikku::commitment::CommitmentKey;
use pikku::config::WITNESS_COEFF_BOUND;
use pikku::ifma::Q;
use pikku::ring::{commit_pass, fold_commitment, fold_witness, ring_add, ring_mul};
use pikku::witness::{sample_uniform_short_vector, sample_witness};

fn centered(c: u64) -> i64 {
    if c > Q / 2 {
        -((Q - c) as i64)
    } else {
        c as i64
    }
}

#[test]
fn short_vectors_stay_in_bounds() {
    let v = sample_uniform_short_vector(16, 3);
    assert_eq!(v.len(), 16);
    let mut seen = [false; 7];
    for element in &v {
        for &c in element.iter() {
            let x = centered(c);
            assert!((-3..=3).contains(&x));
            seen[(x + 3) as usize] = true;
        }
    }
    // 2048 draws from seven values hit every value
    assert!(seen.iter().all(|&s| s));
    assert!(sample_uniform_short_vector(4, 0).iter().all(|e| e.iter().all(|&c| c == 0)));
}

#[test]
fn witness_has_every_fold_input() {
    let w = sample_witness(5);
    assert_eq!(w.len(), 15);
    for element in &w {
        for &c in element.iter() {
            assert!(centered(c).unsigned_abs() <= WITNESS_COEFF_BOUND);
        }
    }
}

struct Lcg(u64);

impl Lcg {
    fn next(&mut self) -> u64 {
        self.0 = self.0.wrapping_mul(6364136223846793005).wrapping_add(1442695040888963407);
        (self.0 >> 11) % Q
    }
    fn element(&mut self) -> [u64; 128] {
        let mut v = [0u64; 128];
        for x in v.iter_mut() {
            *x = self.next();
        }
        v
    }
}

#[test]
fn commitment_key_commits_columns() {
    let mut rng = Lcg(12);
    let mut zeta = [0u64; 64];
    for z in zeta.iter_mut() {
        *z = rng.next();
    }
    let (height, rank) = (10usize, 3usize);
    let rows: Vec<[u64; 128]> = (0..height * rank).map(|_| rng.element()).collect();
    let key = CommitmentKey::from_rows(rows.clone(), height, rank);
    let columns: Vec<Vec<[u64; 128]>> =
        (0..2).map(|_| (0..height).map(|_| rng.element()).collect()).collect();
    let all = key.commit(&columns, &zeta);
    assert_eq!(all, commit_pass(&rows, height, rank, &columns, &zeta));
    for col in 0..2 {
        let one = key.commit_column(&columns[col], &zeta);
        assert_eq!(one.len(), rank);
        for row in 0..rank {
            let mut expected = [0u64; 128];
            for i in 0..height {
                expected = ring_add(&expected, &ring_mul(&rows[row * height + i], &columns[col][i], &zeta));
            }
            assert_eq!(one[row], expected);
            assert_eq!(all[row * 2 + col], expected);
        }
    }
}

#[test]
fn committing_commutes_with_folding() {
    let mut rng = Lcg(13);
    let mut zeta = [0u64; 64];
    for z in zeta.iter_mut() {
        *z = rng.next();
    }
    let (height, rank) = (12usize, 4usize);
    let rows: Vec<[u64; 128]> = (0..height * rank).map(|_| rng.element()).collect();
    let key = CommitmentKey::from_rows(rows, height, rank);
    let witness: Vec<Vec<[u64; 128]>> =
        (0..3).map(|_| (0..height).map(|_| rng.element()).collect()).collect();
    let mut challenges: Vec<[u64; 128]> = (0..3).map(|_| rng.element()).collect();
    let mut unit = [0u64; 128];
    for lane in unit.iter_mut().take(64) {
        *lane = 1;
    }
    challenges[2] = unit;
    let folded = fold_witness(&witness, &challenges, &zeta);
    let commitment = key.commit(&witness, &zeta);
    let folded_commitment = fold_commitment(&commitment, rank, &challenges, &zeta);
    assert_eq!(key.commit_column(&folded, &zeta), folded_commitment);
}
