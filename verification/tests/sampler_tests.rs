use pikku::sampler::{challenge_from_draws, require_avx512, sample_attempt, Challenge, CpuFeatureError};
use rand::rngs::SmallRng;
use rand::SeedableRng;

#[test]
fn sampled_challenges_have_the_requested_shape() {
    let mut rng = SmallRng::seed_from_u64(7);
    for weight in 0..=5 {
        for _ in 0..256 {
            let c = sample_attempt(&mut rng, weight);
            assert_eq!(c.weight, weight);
            for i in 0..weight {
                assert!(c.positions[i] < 128);
                assert!(c.signs[i] == 1 || c.signs[i] == -1);
            }
            for i in 1..weight {
                assert!(c.positions[i - 1] < c.positions[i]);
            }
            for i in weight..5 {
                assert_eq!(c.positions[i], 0);
                assert_eq!(c.signs[i], 0);
            }
        }
    }
}

#[test]
fn sampling_is_reproducible_from_the_seed() {
    let mut a = SmallRng::seed_from_u64(42);
    let mut b = SmallRng::seed_from_u64(42);
    for _ in 0..64 {
        assert_eq!(sample_attempt(&mut a, 4), sample_attempt(&mut b, 4));
    }
}

#[test]
fn challenge_from_known_draws() {
    // shuffle: slot 0 <-> 5, slot 1 <-> 1, slot 2 <-> 100; positions 5, 1, 100
    let targets = vec![5usize, 1, 100];
    let bits = vec![true, false, true];
    let c = challenge_from_draws(3, &targets, &bits);
    assert_eq!(
        c,
        Challenge { positions: [1, 5, 100, 0, 0], signs: [-1, 1, 1, 0, 0], weight: 3 }
    );
    // a target that swaps back an earlier slot
    let targets = vec![3usize, 3];
    let bits = vec![false, false];
    let c = challenge_from_draws(2, &targets, &bits);
    // after step 0: [3, 1, 2, 0, ..]; step 1 swaps slots 1 and 3: [3, 0, 2, 1, ..]
    assert_eq!(
        c,
        Challenge { positions: [0, 3, 0, 0, 0], signs: [-1, -1, 0, 0, 0], weight: 2 }
    );
}

#[test]
fn empty_challenge_from_no_draws() {
    let c = challenge_from_draws(0, &vec![], &vec![]);
    assert_eq!(c, Challenge { positions: [0; 5], signs: [0; 5], weight: 0 });
}

#[test]
fn cpu_feature_requirements() {
    assert_eq!(require_avx512(true, true), Ok(()));
    assert_eq!(require_avx512(false, true), Err(CpuFeatureError::MissingAvx512f));
    assert_eq!(require_avx512(false, false), Err(CpuFeatureError::MissingAvx512f));
    assert_eq!(require_avx512(true, false), Err(CpuFeatureError::MissingAvx2));
}

#[test]
fn challenge_equality_compares_every_field() {
    let a = Challenge { positions: [1, 2, 3, 0, 0], signs: [1, -1, 1, 0, 0], weight: 3 };
    let mut b = a;
    assert_eq!(a, b);
    b.signs[2] = -1;
    assert_ne!(a, b);
    let mut c = a;
    c.weight = 2;
    assert_ne!(a, c);
    let mut d = a;
    d.positions[4] = 9;
    assert_ne!(a, d);
}
