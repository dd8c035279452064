//! The bookkeeping of the strong-sampling experiment: sample counts, the
//! ranking of anchor challenges by their histogram score, the comparison of
//! fresh challenges with an anchor, and the packed (count, slot) maximum.
use crate::fq2::Fq2;
use crate::sampler::{challenge_in_range, Challenge};
use crate::slots::{
    lemma_certified_premises, slot_rows, slot_rows_correct, slot_sum, slots_certified, slots_wf, interpolation_matrix,
    SlotSystem,
};
use crate::units::{challenge_difference, is_unit_mod, lemma_distinct_slots_give_unit, lemma_equal_slot_is_not_unit};
use vstd::prelude::*;

verus! {

/// Number of anchors kept by the ranking.
pub const TOP_ANCHORS: usize = 16;

/// Samples drawn and sampler attempts spent.
#[derive(Clone, Copy, Debug)]
pub struct Counts {
    pub samples: u64,
    pub sampler_attempts: u64,
}

impl Counts {
    /// No samples.
    pub fn zero() -> (r: Counts)
        ensures
            r.samples == 0 && r.sampler_attempts == 0,
    {
        Counts { samples: 0, sampler_attempts: 0 }
    }

    /// Field-wise sum.
    pub fn add(self, other: Counts) -> (r: Counts)
        requires
            self.samples + other.samples <= u64::MAX,
            self.sampler_attempts + other.sampler_attempts <= u64::MAX,
        ensures
            r.samples == self.samples + other.samples,
            r.sampler_attempts == self.sampler_attempts + other.sampler_attempts,
    {
        Counts {
            samples: self.samples + other.samples,
            sampler_attempts: self.sampler_attempts + other.sampler_attempts,
        }
    }
}

/// Per-anchor counts of the direct comparison.
#[derive(Clone, Copy, Debug)]
pub struct DirectCounts {
    pub samples: u64,
    pub non_units: u64,
    pub equal: u64,
    pub sampler_attempts: u64,
}

/// How a fresh challenge compares with an anchor.
#[derive(Clone, Copy, Debug, PartialEq, Eq)]
pub enum AnchorOutcome {
    /// The challenge is the anchor itself.
    Equal,
    /// The difference vanishes at some slot, so it is not a unit.
    NonUnit,
    /// The difference vanishes at no slot.
    Unit,
}

impl DirectCounts {
    /// No samples.
    pub fn zero() -> (r: DirectCounts)
        ensures
            r.samples == 0 && r.non_units == 0 && r.equal == 0 && r.sampler_attempts == 0,
    {
        DirectCounts { samples: 0, non_units: 0, equal: 0, sampler_attempts: 0 }
    }

    /// Field-wise sum.
    pub fn add(self, other: DirectCounts) -> (r: DirectCounts)
        requires
            self.samples + other.samples <= u64::MAX,
            self.non_units + other.non_units <= u64::MAX,
            self.equal + other.equal <= u64::MAX,
            self.sampler_attempts + other.sampler_attempts <= u64::MAX,
        ensures
            r.samples == self.samples + other.samples,
            r.non_units == self.non_units + other.non_units,
            r.equal == self.equal + other.equal,
            r.sampler_attempts == self.sampler_attempts + other.sampler_attempts,
    {
        DirectCounts {
            samples: self.samples + other.samples,
            non_units: self.non_units + other.non_units,
            equal: self.equal + other.equal,
            sampler_attempts: self.sampler_attempts + other.sampler_attempts,
        }
    }

    /// Counts one compared sample that took `attempts` sampler attempts.
    pub fn record(self, outcome: AnchorOutcome, attempts: u64) -> (r: DirectCounts)
        requires
            self.samples < u64::MAX,
            self.sampler_attempts + attempts <= u64::MAX,
            self.equal < u64::MAX,
            self.non_units < u64::MAX,
        ensures
            r.samples == self.samples + 1,
            r.sampler_attempts == self.sampler_attempts + attempts,
            r.equal == self.equal + if outcome == AnchorOutcome::Equal { 1int } else { 0int },
            r.non_units == self.non_units + if outcome == AnchorOutcome::NonUnit { 1int } else { 0int },
    {
        let mut r = self;
        r.samples = r.samples + 1;
        r.sampler_attempts = r.sampler_attempts + attempts;
        match outcome {
            AnchorOutcome::Equal => {
                r.equal = r.equal + 1;
            },
            AnchorOutcome::NonUnit => {
                r.non_units = r.non_units + 1;
            },
            AnchorOutcome::Unit => {},
        }
        r
    }
}

/// Compares a fresh challenge with an anchor whose slot values are
/// `anchor_slots`.
pub fn classify_against_anchor(
    slots: &SlotSystem,
    challenge: &Challenge,
    anchor: &Challenge,
    anchor_slots: &[Fq2; 64],
) -> (r: AnchorOutcome)
    requires
        slots_wf(slots),
        slots.powers.len() == 64,
        challenge_in_range(*challenge),
    ensures
        (r == AnchorOutcome::Equal) <==> *challenge == *anchor,
        (r == AnchorOutcome::NonUnit) <==> *challenge != *anchor && exists|k: int|
            0 <= k < 64 && #[trigger] slot_sum(
                slots.field,
                slots.powers[k]@,
                *challenge,
                challenge.weight as int,
            ) == anchor_slots[k],
        r == AnchorOutcome::NonUnit && slot_rows_correct(slots) && challenge_in_range(*anchor) && (forall|k: int|
            0 <= k < 64 ==> #[trigger] anchor_slots[k] == slot_sum(
                slots.field,
                slots.powers[k]@,
                *anchor,
                anchor.weight as int,
            )) ==> !is_unit_mod(slots.field.q as int, challenge_difference(*challenge, *anchor)),
        slots_certified(slots) && challenge_in_range(*anchor) && (forall|k: int|
            0 <= k < 64 ==> #[trigger] anchor_slots[k] == slot_sum(
                slots.field,
                slots.powers[k]@,
                *anchor,
                anchor.weight as int,
            )) ==> ((r == AnchorOutcome::NonUnit) <==> *challenge != *anchor && !is_unit_mod(
            slots.field.q as int,
            challenge_difference(*challenge, *anchor),
        )),
{
    if *challenge == *anchor {
        AnchorOutcome::Equal
    } else if slots.has_matching_slot(challenge, anchor_slots) {
        proof {
            if slot_rows_correct(slots) && challenge_in_range(*anchor) && (forall|k: int|
                0 <= k < 64 ==> #[trigger] anchor_slots[k] == slot_sum(
                    slots.field,
                    slots.powers[k]@,
                    *anchor,
                    anchor.weight as int,
                )) {
                let k = choose|k: int|
                    0 <= k < 64 && #[trigger] slot_sum(
                        slots.field,
                        slots.powers[k]@,
                        *challenge,
                        challenge.weight as int,
                    ) == anchor_slots[k];
                lemma_equal_slot_is_not_unit(slots.field, slots.powers[k]@, *challenge, *anchor);
            }
        }
        AnchorOutcome::NonUnit
    } else {
        proof {
            if slots_certified(slots) && challenge_in_range(*anchor) && (forall|k: int|
                0 <= k < 64 ==> #[trigger] anchor_slots[k] == slot_sum(
                    slots.field,
                    slots.powers[k]@,
                    *anchor,
                    anchor.weight as int,
                )) {
                let rows = slot_rows(slots.powers@);
                lemma_certified_premises(slots);
                assert forall|k: int| 0 <= k < 64 implies #[trigger] slot_sum(
                    slots.field,
                    rows[k],
                    *challenge,
                    challenge.weight as int,
                ) != slot_sum(slots.field, rows[k], *anchor, anchor.weight as int) by {
                    assert(rows[k] == slots.powers[k]@);
                    assert(anchor_slots[k] == slot_sum(slots.field, slots.powers[k]@, *anchor, anchor.weight as int));
                }
                lemma_distinct_slots_give_unit(slots.field, rows, interpolation_matrix(slots.field, rows), *challenge, *anchor);
            }
        }
        AnchorOutcome::Unit
    }
}

/// The dense histogram cell of value `value` at slot `slot`:
/// `slot * q^2 + a * q + b`.
pub fn histogram_index(slot: usize, value: Fq2, q: u64) -> (r: usize)
    requires
        slot as int * (q as int * q as int) + value.a as int * q as int + value.b as int
            <= usize::MAX,
    ensures
        r as int == slot as int * (q as int * q as int) + value.a as int * q as int + value.b as int,
{
    let cell = value.dense_index(q);
    if slot == 0 {
        cell
    } else {
        assert(q as int <= usize::MAX && q as int * q as int <= usize::MAX && slot as int * (q as int
            * q as int) <= usize::MAX) by (nonlinear_arith)
            requires
                slot as int * (q as int * q as int) + value.a as int * q as int + value.b as int
                    <= usize::MAX,
                slot >= 1,
                value.a >= 0,
                value.b >= 0,
                q >= 0,
        ;
        let qs = q as usize;
        let bins = qs * qs;
        slot * bins + cell
    }
}

/// A challenge with its histogram score.
#[derive(Clone, Copy, Debug)]
pub struct AnchorCandidate {
    pub challenge: Challenge,
    pub score_count: u64,
}

/// The first position whose score is below `score`, or the length.
pub open spec fn first_lower(best: Seq<AnchorCandidate>, score: u64) -> int
    decreases best.len(),
{
    if best.len() == 0 {
        0
    } else if score > best[0].score_count {
        0
    } else {
        1 + first_lower(best.drop_first(), score)
    }
}

/// Some candidate of `best` holds `c`.
pub open spec fn holds_challenge(best: Seq<AnchorCandidate>, c: Challenge) -> bool {
    exists|i: int| 0 <= i < best.len() && #[trigger] best[i].challenge == c
}

/// The ranking after offering `cand`: a challenge already ranked is not
/// added again; otherwise `cand` goes before the first lower score, and the
/// ranking is cut to `TOP_ANCHORS`.
pub open spec fn spec_insert_anchor(best: Seq<AnchorCandidate>, cand: AnchorCandidate) -> Seq<
    AnchorCandidate,
> {
    if holds_challenge(best, cand.challenge) {
        best
    } else {
        let p = first_lower(best, cand.score_count);
        if p < TOP_ANCHORS {
            let grown = best.insert(p, cand);
            if grown.len() > TOP_ANCHORS {
                grown.subrange(0, TOP_ANCHORS as int)
            } else {
                grown
            }
        } else if best.len() < TOP_ANCHORS {
            best.push(cand)
        } else {
            best
        }
    }
}

proof fn lemma_first_lower(best: Seq<AnchorCandidate>, score: u64)
    ensures
        0 <= first_lower(best, score) <= best.len(),
        forall|i: int| 0 <= i < first_lower(best, score) ==> score <= #[trigger] best[i].score_count,
        first_lower(best, score) < best.len() ==> score > best[first_lower(best, score)].score_count,
    decreases best.len(),
{
    if best.len() > 0 && score <= best[0].score_count {
        lemma_first_lower(best.drop_first(), score);
        assert forall|i: int| 0 <= i < first_lower(best, score) implies score
            <= #[trigger] best[i].score_count by {
            if i > 0 {
                assert(best[i] == best.drop_first()[i - 1]);
            }
        }
    }
}

/// Offers `candidate` to a ranking of at most `TOP_ANCHORS` anchors.
pub fn insert_anchor_candidate(best: &mut Vec<AnchorCandidate>, candidate: AnchorCandidate)
    ensures
        final(best)@ == spec_insert_anchor(old(best)@, candidate),
        holds_challenge(old(best)@, candidate.challenge) ==> final(best)@ == old(best)@,
        is_ranking(old(best)@) ==> is_ranking(final(best)@),
        is_ranking(old(best)@) && !holds_challenge(old(best)@, candidate.challenge) ==> {
            let b = old(best)@;
            let r = final(best)@;
            &&& r.len() == if b.len() < TOP_ANCHORS {
                b.len() + 1int
            } else {
                TOP_ANCHORS as int
            }
            &&& forall|i: int|
                0 <= i < b.len() && i < TOP_ANCHORS && #[trigger] b[i].score_count >= candidate.score_count
                    ==> r[i] == b[i]
            &&& forall|i: int|
                0 <= i < b.len() && i + 1 < TOP_ANCHORS && #[trigger] b[i].score_count < candidate.score_count
                    ==> r[i + 1] == b[i]
            &&& forall|i: int|
                0 <= i < r.len() && (i == b.len() || b[i].score_count < candidate.score_count) && (i == 0
                    || b[i - 1].score_count >= candidate.score_count) ==> #[trigger] r[i] == candidate
        },
{
    proof {
        if is_ranking(best@) {
            lemma_insert_anchor_keeps_ranking(best@, candidate);
            if !holds_challenge(best@, candidate.challenge) {
                lemma_insert_anchor_places_candidate(best@, candidate);
            }
        }
    }
    let mut i: usize = 0;
    while i < best.len()
        invariant
            i <= best.len(),
            forall|j: int| 0 <= j < i ==> #[trigger] best@[j].challenge != candidate.challenge,
        decreases best.len() - i,
    {
        if best[i].challenge == candidate.challenge {
            assert(holds_challenge(best@, candidate.challenge));
            return;
        }
        i = i + 1;
    }
    proof {
        lemma_first_lower(best@, candidate.score_count);
    }
    let mut position: usize = 0;
    while position < best.len() && !(candidate.score_count > best[position].score_count)
        invariant
            position <= best.len(),
            position <= first_lower(best@, candidate.score_count),
            forall|j: int| 0 <= j < first_lower(best@, candidate.score_count) ==> candidate.score_count
                <= #[trigger] best@[j].score_count,
            first_lower(best@, candidate.score_count) < best@.len() ==> candidate.score_count
                > best@[first_lower(best@, candidate.score_count)].score_count,
            0 <= first_lower(best@, candidate.score_count) <= best@.len(),
        decreases best.len() - position,
    {
        position = position + 1;
    }
    assert(position == first_lower(best@, candidate.score_count));
    if position < TOP_ANCHORS {
        best.insert(position, candidate);
        best.truncate(TOP_ANCHORS);
    } else if best.len() < TOP_ANCHORS {
        best.push(candidate);
    }
}

/// A ranking: at most `TOP_ANCHORS` entries, scores non-increasing, no
/// challenge twice.
pub open spec fn is_ranking(best: Seq<AnchorCandidate>) -> bool {
    &&& best.len() <= TOP_ANCHORS
    &&& forall|i: int, j: int|
        0 <= i < j < best.len() ==> #[trigger] best[i].score_count >= #[trigger] best[j].score_count
    &&& forall|i: int, j: int|
        0 <= i < j < best.len() ==> #[trigger] best[i].challenge != #[trigger] best[j].challenge
}

/// Offering a candidate to a ranking yields a ranking, and a challenge that
/// was not ranked yet is ranked afterwards whenever it beats the last score
/// or the ranking had room.
pub proof fn lemma_insert_anchor_keeps_ranking(best: Seq<AnchorCandidate>, cand: AnchorCandidate)
    requires
        is_ranking(best),
    ensures
        is_ranking(spec_insert_anchor(best, cand)),
        !holds_challenge(best, cand.challenge) && (best.len() < TOP_ANCHORS || cand.score_count
            > best[best.len() - 1].score_count) ==> holds_challenge(
            spec_insert_anchor(best, cand),
            cand.challenge,
        ),
{
    lemma_first_lower(best, cand.score_count);
    if !holds_challenge(best, cand.challenge) {
        let p = first_lower(best, cand.score_count);
        if p < TOP_ANCHORS {
            let grown = best.insert(p, cand);
            assert forall|i: int, j: int| 0 <= i < j < grown.len() implies #[trigger] grown[i].score_count
                >= #[trigger] grown[j].score_count by {
                if i < p && j == p {
                } else if i == p && j > p {
                    assert(grown[j] == best[j - 1]);
                }
            }
            assert forall|i: int, j: int| 0 <= i < j < grown.len() implies #[trigger] grown[i].challenge
                != #[trigger] grown[j].challenge by {
                if j == p {
                    assert(grown[i] == best[i]);
                } else if i == p {
                    assert(grown[j] == best[j - 1]);
                }
            }
            let result = spec_insert_anchor(best, cand);
            if grown.len() > TOP_ANCHORS {
                assert(result == grown.subrange(0, TOP_ANCHORS as int));
            }
            assert(result[p] == cand);
        } else if best.len() < TOP_ANCHORS {
            let pushed = best.push(cand);
            assert(p == best.len());
            assert(pushed[best.len() as int] == cand);
        } else {
            if best.len() > 0 {
                assert(p == best.len());
            }
        }
    }
}

/// Where an offered candidate goes in a ranking that does not hold its
/// challenge: the ranking grows by one up to `TOP_ANCHORS`; every anchor
/// scoring at least the candidate keeps its place, every anchor scoring
/// less moves down one place (the last one of a full ranking drops out),
/// and the candidate fills the place between the two groups.
pub proof fn lemma_insert_anchor_places_candidate(best: Seq<AnchorCandidate>, cand: AnchorCandidate)
    requires
        is_ranking(best),
        !holds_challenge(best, cand.challenge),
    ensures
        ({
            let r = spec_insert_anchor(best, cand);
            &&& r.len() == if best.len() < TOP_ANCHORS {
                best.len() + 1int
            } else {
                TOP_ANCHORS as int
            }
            &&& forall|i: int|
                0 <= i < best.len() && i < TOP_ANCHORS && #[trigger] best[i].score_count >= cand.score_count
                    ==> r[i] == best[i]
            &&& forall|i: int|
                0 <= i < best.len() && i + 1 < TOP_ANCHORS && #[trigger] best[i].score_count < cand.score_count
                    ==> r[i + 1] == best[i]
            &&& forall|i: int|
                0 <= i < r.len() && (i == best.len() || best[i].score_count < cand.score_count) && (i == 0
                    || best[i - 1].score_count >= cand.score_count) ==> #[trigger] r[i] == cand
        }),
{
    lemma_first_lower(best, cand.score_count);
    let p = first_lower(best, cand.score_count);
    let r = spec_insert_anchor(best, cand);
    // in a ranking, the anchors scoring at least the candidate are exactly
    // those before p
    assert forall|i: int| 0 <= i < best.len() implies (#[trigger] best[i].score_count >= cand.score_count)
        == (i < p) by {
        if i > p {
            assert(best[p].score_count >= best[i].score_count);
        }
    }
    if p < TOP_ANCHORS {
        let grown = best.insert(p, cand);
        assert(grown.len() == best.len() + 1);
        assert forall|i: int| 0 <= i < grown.len() implies #[trigger] grown[i] == (if i < p {
            best[i]
        } else if i == p {
            cand
        } else {
            best[i - 1]
        }) by {}
        if grown.len() > TOP_ANCHORS {
            assert(r == grown.subrange(0, TOP_ANCHORS as int));
        } else {
            assert(r == grown);
        }
        assert forall|i: int|
            0 <= i < r.len() && (i == best.len() || best[i].score_count < cand.score_count) && (i == 0
                || best[i - 1].score_count >= cand.score_count) implies #[trigger] r[i] == cand by {
            if i < p {
                assert(best[i].score_count >= cand.score_count);
            } else if i > p {
                assert(best[i - 1].score_count < cand.score_count);
            }
        }
    } else {
        assert(p == best.len());
        assert(r == best);
    }
}

/// Packs a count and a slot into one word, count in the high half, so that
/// the maximum packed word is the maximum count (ties to the larger slot).
pub fn encode_max(count: u16, slot: usize) -> (r: u64)
    requires
        slot < 0x1_0000_0000,
    ensures
        r as int == count as int * 0x1_0000_0000 + slot as int,
{
    let c = count as u64;
    let s = slot as u64;
    assert((c << 32u64) | s == c * 0x1_0000_0000 + s) by (bit_vector)
        requires
            c < 0x1_0000,
            s < 0x1_0000_0000,
    ;
    (c << 32u64) | s
}

/// Unpacks the count and the slot of a packed maximum.
pub fn decode_max(encoded: u64) -> (r: (u16, usize))
    ensures
        r.0 as int == (encoded as int / 0x1_0000_0000) % 0x1_0000,
        r.1 as int == encoded as int % 0x1_0000_0000,
{
    assert(((encoded >> 32u64) as u16) as int == (encoded / 0x1_0000_0000) % 0x1_0000) by (bit_vector);
    assert(encoded & 0xffff_ffffu64 == encoded % 0x1_0000_0000) by (bit_vector);
    let low = encoded & 0xffff_ffffu64;
    assert(low < 0x1_0000_0000u64);
    ((encoded >> 32u64) as u16, low as usize)
}

/// Decoding a packed maximum gives back its count and slot.
pub proof fn lemma_decode_encode(count: u16, slot: usize)
    requires
        slot < 0x1_0000_0000,
    ensures
        ((count as int * 0x1_0000_0000 + slot as int) / 0x1_0000_0000) % 0x1_0000 == count as int,
        (count as int * 0x1_0000_0000 + slot as int) % 0x1_0000_0000 == slot as int,
{
    vstd::arithmetic::div_mod::lemma_fundamental_div_mod(
        count as int * 0x1_0000_0000 + slot as int,
        0x1_0000_0000,
    );
    vstd::arithmetic::div_mod::lemma_div_multiples_vanish_fancy(
        count as int,
        slot as int,
        0x1_0000_0000,
    );
    vstd::arithmetic::div_mod::lemma_mod_multiples_vanish(count as int, slot as int, 0x1_0000_0000);
    vstd::arithmetic::div_mod::lemma_small_mod(slot as nat, 0x1_0000_0000);
    vstd::arithmetic::div_mod::lemma_small_mod(count as nat, 0x1_0000);
}

} // verus!
