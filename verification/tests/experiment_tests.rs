use pikku::experiment::{
    classify_against_anchor, decode_max, encode_max, histogram_index, insert_anchor_candidate,
    AnchorCandidate, AnchorOutcome, Counts, DirectCounts, TOP_ANCHORS,
};
use pikku::fq2::Fq2;
use pikku::sampler::{sample_attempt, Challenge};
use pikku::slots::SlotSystem;
use rand::rngs::SmallRng;
use rand::SeedableRng;

fn challenge(p: u8) -> Challenge {
    Challenge { positions: [p, 0, 0, 0, 0], signs: [1, 0, 0, 0, 0], weight: 1 }
}

fn candidate(p: u8, score: u64) -> AnchorCandidate {
    AnchorCandidate { challenge: challenge(p), score_count: score }
}

fn scores(best: &[AnchorCandidate]) -> Vec<u64> {
    best.iter().map(|c| c.score_count).collect()
}

#[test]
fn anchors_stay_ranked_by_score() {
    let mut best = Vec::new();
    insert_anchor_candidate(&mut best, candidate(1, 5));
    insert_anchor_candidate(&mut best, candidate(2, 9));
    insert_anchor_candidate(&mut best, candidate(3, 7));
    insert_anchor_candidate(&mut best, candidate(4, 7));
    assert_eq!(scores(&best), vec![9, 7, 7, 5]);
    // equal scores keep the earlier candidate first
    assert_eq!(best[1].challenge, challenge(3));
    assert_eq!(best[2].challenge, challenge(4));
}

#[test]
fn duplicate_anchor_is_ignored() {
    let mut best = Vec::new();
    insert_anchor_candidate(&mut best, candidate(1, 5));
    insert_anchor_candidate(&mut best, candidate(1, 50));
    assert_eq!(scores(&best), vec![5]);
}

#[test]
fn anchor_list_is_capped() {
    let mut best = Vec::new();
    for i in 0..40u64 {
        insert_anchor_candidate(&mut best, candidate(i as u8, i));
    }
    assert_eq!(best.len(), TOP_ANCHORS);
    let expected: Vec<u64> = (24..40u64).rev().collect();
    assert_eq!(scores(&best), expected);
    // a low score does not enter a full list
    insert_anchor_candidate(&mut best, candidate(100, 3));
    assert_eq!(scores(&best), expected);
}

#[test]
fn encoded_maximum_round_trips() {
    let e = encode_max(513, 42);
    assert_eq!(e, (513u64 << 32) | 42);
    assert_eq!(decode_max(e), (513, 42));
    assert_eq!(decode_max(encode_max(u16::MAX, 63)), (u16::MAX, 63));
    // a larger count always encodes larger
    assert!(encode_max(3, 0) > encode_max(2, 63));
}

#[test]
fn histogram_cells() {
    assert_eq!(histogram_index(0, Fq2 { a: 0, b: 0 }, 127), 0);
    assert_eq!(histogram_index(0, Fq2 { a: 2, b: 5 }, 127), 2 * 127 + 5);
    assert_eq!(histogram_index(3, Fq2 { a: 2, b: 5 }, 127), 3 * 127 * 127 + 2 * 127 + 5);
}

#[test]
fn counts_add_and_record() {
    let c = Counts::zero().add(Counts { samples: 3, sampler_attempts: 7 });
    assert_eq!((c.samples, c.sampler_attempts), (3, 7));
    let d = DirectCounts::zero()
        .record(AnchorOutcome::Equal, 2)
        .record(AnchorOutcome::NonUnit, 1)
        .record(AnchorOutcome::Unit, 4);
    assert_eq!((d.samples, d.equal, d.non_units, d.sampler_attempts), (3, 1, 1, 7));
    let e = d.add(d);
    assert_eq!((e.samples, e.equal, e.non_units, e.sampler_attempts), (6, 2, 2, 14));
}

#[test]
fn classification_against_an_anchor() {
    let slots = SlotSystem::new(127).unwrap();
    let mut rng = SmallRng::seed_from_u64(11);
    let anchor = sample_attempt(&mut rng, 3);
    let mut anchor_slots = [Fq2::zero(); 64];
    slots.evaluate_slots_into(&anchor, &mut anchor_slots);
    assert_eq!(classify_against_anchor(&slots, &anchor, &anchor, &anchor_slots), AnchorOutcome::Equal);
    for _ in 0..64 {
        let c = sample_attempt(&mut rng, 3);
        let outcome = classify_against_anchor(&slots, &c, &anchor, &anchor_slots);
        if c == anchor {
            assert_eq!(outcome, AnchorOutcome::Equal);
        } else if slots.non_unit_difference(&c, &anchor) {
            assert_eq!(outcome, AnchorOutcome::NonUnit);
        } else {
            assert_eq!(outcome, AnchorOutcome::Unit);
        }
    }
}
