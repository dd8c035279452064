//! Fixed-weight ternary challenges for `Z[X]/(X^128 + 1)`: a challenge is
//! a short list of (position, sign) pairs, at most `MAX_WEIGHT` of them.
use rand::rngs::SmallRng;
use rand::Rng;
use vstd::prelude::*;

verus! {

/// Degree of the challenge ring.
pub const SAMPLER_DEGREE: usize = 128;

/// Number of slot pairs `{root, conjugate}` of the challenge ring.
pub const SAMPLER_HALF_DEGREE: usize = 64;

/// The largest challenge weight.
pub const MAX_WEIGHT: usize = 5;

/// A sparse challenge `sum_i signs[i] X^positions[i]`; the entries at and
/// after `weight` are unused.
#[derive(Clone, Copy, Debug, Eq)]
pub struct Challenge {
    pub positions: [u8; 5],
    pub signs: [i8; 5],
    pub weight: usize,
}

impl PartialEq for Challenge {
    fn eq(&self, other: &Self) -> (r: bool) {
        let mut same = self.weight == other.weight;
        let mut i: usize = 0;
        while i < 5
            invariant
                i <= 5,
                same == (self.weight == other.weight && forall|j: int|
                    0 <= j < i ==> self.positions[j] == other.positions[j] && self.signs[j]
                        == other.signs[j]),
            decreases 5 - i,
        {
            same = same && self.positions[i] == other.positions[i] && self.signs[i] == other.signs[i];
            i = i + 1;
        }
        proof {
            if same {
                assert(self.positions =~= other.positions);
                assert(self.signs =~= other.signs);
            }
        }
        proof {
            if !same && self.weight == other.weight {
                let j = choose|j: int|
                    0 <= j < 5 && !(self.positions[j] == other.positions[j] && self.signs[j]
                        == other.signs[j]);
                assert(self.positions@[j] != other.positions@[j] || self.signs@[j]
                    != other.signs@[j]);
            }
        }
        same
    }
}

impl vstd::std_specs::cmp::PartialEqSpecImpl for Challenge {
    open spec fn obeys_eq_spec() -> bool {
        true
    }

    open spec fn eq_spec(&self, other: &Challenge) -> bool {
        *self == *other
    }
}

/// A challenge whose used positions lie in the ring and whose used
/// coefficients are in `[-2, 2]`.
pub open spec fn challenge_in_range(c: Challenge) -> bool {
    &&& c.weight <= MAX_WEIGHT
    &&& forall|i: int| 0 <= i < c.weight ==> #[trigger] c.positions[i] < SAMPLER_DEGREE
    &&& forall|i: int| 0 <= i < c.weight ==> -2 <= #[trigger] c.signs[i] <= 2
}

/// Which required CPU feature is missing.
#[derive(Clone, Copy, Debug, PartialEq, Eq)]
pub enum CpuFeatureError {
    /// AVX-512F is not available.
    MissingAvx512f,
    /// AVX2 is not available.
    MissingAvx2,
}

/// The experiment needs AVX-512F and AVX2; AVX-512F is checked first.
pub fn require_avx512(has_avx512f: bool, has_avx2: bool) -> (r: Result<(), CpuFeatureError>)
    ensures
        r is Ok <==> has_avx512f && has_avx2,
        !has_avx512f ==> r == Err::<(), CpuFeatureError>(CpuFeatureError::MissingAvx512f),
        has_avx512f && !has_avx2 ==> r == Err::<(), CpuFeatureError>(CpuFeatureError::MissingAvx2),
{
    if !has_avx512f {
        Err(CpuFeatureError::MissingAvx512f)
    } else if !has_avx2 {
        Err(CpuFeatureError::MissingAvx2)
    } else {
        Ok(())
    }
}

/// The pseudo-random generator of the experiment.
#[verifier::external_type_specification]
#[verifier::external_body]
pub struct ExSmallRng(SmallRng);

/// `Rng::random_range(lo..hi)` on the generator: a value in `[lo, hi)`;
/// which one depends on the generator's state and is not stated.
#[verifier::external_body]
fn random_index(rng: &mut SmallRng, lo: usize, hi: usize) -> (r: usize)
    requires
        lo < hi,
    ensures
        lo <= r < hi,
{
    rng.random_range(lo..hi)
}

/// `Rng::random::<bool>()` on the generator: a bit; which one depends on
/// the generator's state and is not stated.
#[verifier::external_body]
fn random_bit(rng: &mut SmallRng) -> bool {
    rng.random::<bool>()
}

/// The identity permutation of the ring positions.
pub open spec fn identity_perm() -> Seq<u8> {
    Seq::new(128, |i: int| i as u8)
}

/// The positions after the first `n` steps of the partial Fisher-Yates
/// shuffle that swaps slot `i` with slot `targets[i]`.
pub open spec fn shuffled(targets: Seq<usize>, n: int) -> Seq<u8>
    decreases n,
{
    if n <= 0 {
        identity_perm()
    } else {
        let p = shuffled(targets, n - 1);
        let t = targets[n - 1] as int;
        p.update(n - 1, p[t]).update(t, p[n - 1])
    }
}

/// The sign that a drawn bit stands for.
pub open spec fn sign_of(bit: bool) -> int {
    if bit {
        1
    } else {
        -1
    }
}

/// Shuffle targets that the sampler can draw: step `i` swaps with a slot in
/// `[i, 128)`.
pub open spec fn targets_in_range(targets: Seq<usize>, weight: int) -> bool {
    targets.len() == weight && forall|i: int| 0 <= i < weight ==> i <= #[trigger] targets[i] < 128
}

/// The challenge that the draws `targets` and `bits` give: the first
/// `weight` shuffled positions with their signs, sorted by position.
#[verifier::opaque]
pub open spec fn is_challenge_of_draws(c: Challenge, weight: int, targets: Seq<usize>, bits: Seq<bool>) -> bool {
    let perm = shuffled(targets, weight);
    &&& c.weight == weight
    &&& forall|i: int| weight <= i < 5 ==> c.positions[i] == 0 && c.signs[i] == 0
    &&& forall|i: int, j: int| 0 <= i < j < weight ==> c.positions[i] < c.positions[j]
    &&& forall|i: int|
        0 <= i < weight ==> exists|j: int|
            0 <= j < weight && #[trigger] c.positions[i] == perm[j] && c.signs[i] == sign_of(
                bits[j],
            )
    &&& forall|j: int|
        0 <= j < weight ==> exists|i: int|
            0 <= i < weight && c.positions[i] == #[trigger] perm[j] && c.signs[i] == sign_of(
                bits[j],
            )
}

proof fn lemma_shuffled_is_permutation(targets: Seq<usize>, n: int)
    requires
        0 <= n <= targets.len(),
        n <= 128,
        forall|i: int| 0 <= i < n ==> i <= #[trigger] targets[i] < 128,
    ensures
        shuffled(targets, n).len() == 128,
        forall|i: int| 0 <= i < 128 ==> #[trigger] shuffled(targets, n)[i] < 128,
        forall|i: int, j: int|
            0 <= i < j < 128 ==> #[trigger] shuffled(targets, n)[i] != #[trigger] shuffled(
                targets,
                n,
            )[j],
    decreases n,
{
    if n > 0 {
        lemma_shuffled_is_permutation(targets, n - 1);
        let p = shuffled(targets, n - 1);
        let t = targets[n - 1] as int;
        let r = shuffled(targets, n);
        assert forall|i: int, j: int| 0 <= i < j < 128 implies #[trigger] r[i] != #[trigger] r[j] by {
            let src_i = if i == t { n - 1 } else if i == n - 1 { t } else { i };
            let src_j = if j == t { n - 1 } else if j == n - 1 { t } else { j };
            assert(r[i] == p[src_i]);
            assert(r[j] == p[src_j]);
            assert(src_i != src_j);
        }
    }
}

/// Builds the challenge that the draws give, by the sampler's own steps:
/// the partial shuffle, the signs, then an insertion sort by position.
pub fn challenge_from_draws(weight: usize, targets: &Vec<usize>, bits: &Vec<bool>) -> (c: Challenge)
    requires
        weight <= MAX_WEIGHT,
        targets_in_range(targets@, weight as int),
        bits.len() == weight,
    ensures
        is_challenge_of_draws(c, weight as int, targets@, bits@),
{
    let mut perm: Vec<u8> = Vec::new();
    let mut k: usize = 0;
    while k < 128
        invariant
            k <= 128,
            perm@.len() == k,
            forall|i: int| 0 <= i < k ==> #[trigger] perm@[i] == i as u8,
        decreases 128 - k,
    {
        perm.push(k as u8);
        k = k + 1;
    }
    assert(perm@ =~= identity_perm());
    let mut i: usize = 0;
    while i < weight
        invariant
            weight <= MAX_WEIGHT,
            targets_in_range(targets@, weight as int),
            i <= weight,
            perm@ == shuffled(targets@, i as int),
            perm@.len() == 128,
        decreases weight - i,
    {
        let t = targets[i];
        let a = perm[i];
        let b = perm[t];
        perm.set(i, b);
        perm.set(t, a);
        i = i + 1;
    }
    proof {
        lemma_shuffled_is_permutation(targets@, weight as int);
    }
    let ghost orig = perm@;
    let mut positions: Vec<u8> = Vec::new();
    let mut signs: Vec<i8> = Vec::new();
    let mut z: usize = 0;
    while z < 5
        invariant
            z <= 5,
            positions.len() == z,
            signs.len() == z,
            forall|t: int| 0 <= t < z ==> #[trigger] positions@[t] == 0,
            forall|t: int| 0 <= t < z ==> #[trigger] signs@[t] == 0,
        decreases 5 - z,
    {
        positions.push(0);
        signs.push(0);
        z = z + 1;
    }
    let mut fi: usize = 0;
    while fi < weight
        invariant
            weight <= MAX_WEIGHT,
            bits.len() == weight,
            fi <= weight,
            perm@ == orig,
            orig.len() == 128,
            positions.len() == 5,
            signs.len() == 5,
            forall|t: int| 0 <= t < fi ==> #[trigger] positions@[t] == orig[t],
            forall|t: int| 0 <= t < fi ==> #[trigger] signs@[t] == sign_of(bits@[t]),
            forall|t: int| weight <= t < 5 ==> #[trigger] positions@[t] == 0,
            forall|t: int| weight <= t < 5 ==> #[trigger] signs@[t] == 0,
        decreases weight - fi,
    {
        let ghost old_positions = positions;
        let ghost old_signs = signs;
        let sign: i8 = if bits[fi] {
            1
        } else {
            -1
        };
        positions.set(fi, perm[fi]);
        signs.set(fi, sign);
        proof {
            assert forall|t: int| 0 <= t < fi + 1 implies #[trigger] positions@[t] == orig[t] by {
                if t < fi {
                    assert(positions@[t] == old_positions@[t]);
                }
            }
            assert forall|t: int| 0 <= t < fi + 1 implies #[trigger] signs@[t] == sign_of(bits@[t]) by {
                if t < fi {
                    assert(signs@[t] == old_signs@[t]);
                }
            }
            assert forall|t: int| weight <= t < 5 implies #[trigger] positions@[t] == 0 by {
                assert(positions@[t] == old_positions@[t]);
            }
            assert forall|t: int| weight <= t < 5 implies #[trigger] signs@[t] == 0 by {
                assert(signs@[t] == old_signs@[t]);
            }
        }
        fi = fi + 1;
    }
    // insertion sort of the used pairs by position; `idx` tracks where each
    // slot's pair came from and `inv` is its inverse
    let ghost mut idx: Seq<int> = Seq::new(weight as nat, |t: int| t);
    let ghost mut inv: Seq<int> = Seq::new(weight as nat, |t: int| t);
    let mut si: usize = 1;
    while si < weight
        invariant
            weight <= MAX_WEIGHT,
            bits.len() == weight,
            1 <= si || weight == 0,
            si <= weight || weight == 0,
            orig.len() == 128,
            positions.len() == 5,
            signs.len() == 5,
            forall|a: int, b: int| 0 <= a < b < 128 ==> #[trigger] orig[a] != #[trigger] orig[b],
            idx.len() == weight,
            inv.len() == weight,
            forall|t: int| 0 <= t < weight ==> 0 <= #[trigger] idx[t] < weight,
            forall|t: int| 0 <= t < weight ==> 0 <= #[trigger] inv[t] < weight,
            forall|t: int| 0 <= t < weight ==> #[trigger] idx[inv[t]] == t,
            forall|t: int| 0 <= t < weight ==> #[trigger] inv[idx[t]] == t,
            forall|t: int| 0 <= t < weight ==> #[trigger] positions@[t] == orig[idx[t]],
            forall|t: int| 0 <= t < weight ==> #[trigger] signs@[t] == sign_of(bits@[idx[t]]),
            forall|t: int| weight <= t < 5 ==> #[trigger] positions@[t] == 0,
            forall|t: int| weight <= t < 5 ==> #[trigger] signs@[t] == 0,
            forall|a: int, b: int| 0 <= a < b < si ==> #[trigger] positions@[a] <= #[trigger] positions@[b],
        decreases weight - si,
    {
        let mut j: usize = si;
        while j > 0 && positions[j - 1] > positions[j]
            invariant
                weight <= MAX_WEIGHT,
                bits.len() == weight,
                1 <= si < weight,
                j <= si,
                orig.len() == 128,
                positions.len() == 5,
                signs.len() == 5,
                idx.len() == weight,
                inv.len() == weight,
                forall|t: int| 0 <= t < weight ==> 0 <= #[trigger] idx[t] < weight,
                forall|t: int| 0 <= t < weight ==> 0 <= #[trigger] inv[t] < weight,
                forall|t: int| 0 <= t < weight ==> #[trigger] idx[inv[t]] == t,
                forall|t: int| 0 <= t < weight ==> #[trigger] inv[idx[t]] == t,
                forall|t: int| 0 <= t < weight ==> #[trigger] positions@[t] == orig[idx[t]],
                forall|t: int| 0 <= t < weight ==> #[trigger] signs@[t] == sign_of(bits@[idx[t]]),
                forall|t: int| weight <= t < 5 ==> #[trigger] positions@[t] == 0,
                forall|t: int| weight <= t < 5 ==> #[trigger] signs@[t] == 0,
                forall|a: int, b: int| 0 <= a < b < j ==> #[trigger] positions@[a] <= #[trigger] positions@[b],
                forall|a: int, b: int|
                    j <= a < b <= si ==> #[trigger] positions@[a] <= #[trigger] positions@[b],
                forall|a: int, b: int|
                    0 <= a < j && j < b <= si ==> #[trigger] positions@[a] <= #[trigger] positions@[b],
            decreases j,
        {
            let pa = positions[j - 1];
            let pb = positions[j];
            positions.set(j - 1, pb);
            positions.set(j, pa);
            let sa = signs[j - 1];
            let sb = signs[j];
            signs.set(j - 1, sb);
            signs.set(j, sa);
            proof {
                let x = idx[j - 1];
                let y = idx[j as int];
                let old_idx = idx;
                let old_inv = inv;
                assert(x != y) by {
                    assert(inv[idx[j - 1]] == j - 1);
                    assert(inv[idx[j as int]] == j);
                }
                idx = idx.update(j - 1, y).update(j as int, x);
                inv = inv.update(x, j as int).update(y, j - 1);
                assert forall|t: int| 0 <= t < weight implies #[trigger] inv[idx[t]] == t by {
                    if t != j - 1 && t != j {
                        assert(idx[t] == old_idx[t]);
                        assert(old_inv[old_idx[t]] == t);
                        assert(old_idx[t] != x);
                        assert(old_idx[t] != y);
                    }
                }
                assert forall|t: int| 0 <= t < weight implies #[trigger] idx[inv[t]] == t by {
                    if t != x && t != y {
                        assert(inv[t] == old_inv[t]);
                        assert(old_idx[old_inv[t]] == t);
                        assert(old_inv[t] != j - 1);
                        assert(old_inv[t] != j);
                    }
                }
                assert forall|t: int| 0 <= t < weight implies #[trigger] positions@[t] == orig[idx[t]] by {
                    if t != j - 1 && t != j {
                        assert(idx[t] == old_idx[t]);
                    }
                }
                assert forall|t: int| 0 <= t < weight implies #[trigger] signs@[t] == sign_of(
                    bits@[idx[t]],
                ) by {
                    if t != j - 1 && t != j {
                        assert(idx[t] == old_idx[t]);
                    }
                }
            }
            j = j - 1;
        }
        si = si + 1;
    }
    let c = Challenge {
        positions: [positions[0], positions[1], positions[2], positions[3], positions[4]],
        signs: [signs[0], signs[1], signs[2], signs[3], signs[4]],
        weight,
    };
    proof {
        assert forall|a: int, b: int| 0 <= a < b < weight implies c.positions[a] < c.positions[b] by {
            assert(idx[a] != idx[b]) by {
                if idx[a] == idx[b] {
                    assert(inv[idx[a]] == a);
                    assert(inv[idx[b]] == b);
                }
            }
            if weight > 1 {
                assert(positions@[a] <= positions@[b]);
            }
        }
        assert forall|t: int| 0 <= t < weight implies exists|j: int|
            0 <= j < weight && #[trigger] c.positions[t] == orig[j] && c.signs[t] == sign_of(
                bits@[j],
            ) by {
            assert(c.positions[t] == positions@[t]);
            assert(c.signs[t] == signs@[t]);
            assert(c.positions[t] == orig[idx[t]]);
        }
        assert forall|jj: int| 0 <= jj < weight implies exists|t: int|
            0 <= t < weight && c.positions[t] == #[trigger] orig[jj] && c.signs[t] == sign_of(
                bits@[jj],
            ) by {
            let t = inv[jj];
            assert(c.positions[t] == positions@[t]);
            assert(c.signs[t] == signs@[t]);
            assert(c.positions[t] == orig[idx[t]]);
        }
        reveal(is_challenge_of_draws);
    }
    c
}

/// Draws one challenge of the given weight and reports the draws it was
/// built from: `targets[i]` is the slot that `random_index` returned at
/// shuffle step `i`, and `bits[i]` the bit that `random_bit` returned for
/// shuffled slot `i`. The challenge is the one those very draws give: its
/// positions are the first `weight` shuffled slots, and the sign at each is
/// `+1` or `-1` as the bit drawn for that slot is set or clear.
pub fn sample_attempt_traced(rng: &mut SmallRng, weight: usize) -> (r: (Challenge, Ghost<Seq<usize>>, Ghost<Seq<bool>>))
    requires
        weight <= MAX_WEIGHT,
    ensures
        targets_in_range(r.1@, weight as int),
        r.2@.len() == weight,
        is_challenge_of_draws(r.0, weight as int, r.1@, r.2@),
{
    let ghost mut drawn_targets: Seq<usize> = Seq::empty();
    let ghost mut drawn_bits: Seq<bool> = Seq::empty();
    let mut targets: Vec<usize> = Vec::new();
    let mut i: usize = 0;
    while i < weight
        invariant
            weight <= MAX_WEIGHT,
            i <= weight,
            targets@.len() == i,
            targets@ == drawn_targets,
            forall|t: int| 0 <= t < i ==> t <= #[trigger] targets@[t] < 128,
        decreases weight - i,
    {
        let j = random_index(rng, i, 128);
        targets.push(j);
        proof {
            drawn_targets = drawn_targets.push(j);
        }
        i = i + 1;
    }
    let mut bits: Vec<bool> = Vec::new();
    let mut i: usize = 0;
    while i < weight
        invariant
            i <= weight,
            bits@.len() == i,
            bits@ == drawn_bits,
        decreases weight - i,
    {
        let bit = random_bit(rng);
        bits.push(bit);
        proof {
            drawn_bits = drawn_bits.push(bit);
        }
        i = i + 1;
    }
    let c = challenge_from_draws(weight, &targets, &bits);
    (c, Ghost(drawn_targets), Ghost(drawn_bits))
}

/// Entry `i` of a challenge of the draws holds the shuffled slot of some
/// step `j`, with the sign of the bit drawn at that step.
pub proof fn lemma_draw_entry(c: Challenge, weight: int, targets: Seq<usize>, bits: Seq<bool>, i: int) -> (j: int)
    requires
        is_challenge_of_draws(c, weight, targets, bits),
        0 <= i < weight,
    ensures
        0 <= j < weight,
        c.positions[i] == shuffled(targets, weight)[j],
        c.signs[i] == sign_of(bits[j]),
{
    reveal(is_challenge_of_draws);
    let perm = shuffled(targets, weight);
    choose|j: int| 0 <= j < weight && #[trigger] c.positions[i] == perm[j] && c.signs[i] == sign_of(bits[j])
}

/// The shuffled slot of step `j` is held by some entry `i` of a challenge
/// of the draws, with the sign of the bit drawn at step `j`.
pub proof fn lemma_draw_slot(c: Challenge, weight: int, targets: Seq<usize>, bits: Seq<bool>, j: int) -> (i: int)
    requires
        is_challenge_of_draws(c, weight, targets, bits),
        0 <= j < weight,
    ensures
        0 <= i < weight,
        c.positions[i] == shuffled(targets, weight)[j],
        c.signs[i] == sign_of(bits[j]),
{
    reveal(is_challenge_of_draws);
    let perm = shuffled(targets, weight);
    choose|i: int| 0 <= i < weight && c.positions[i] == #[trigger] perm[j] && c.signs[i] == sign_of(bits[j])
}

/// The layout of a challenge of the draws: weight `weight`, the unused
/// entries zero, the positions strictly increasing.
pub proof fn lemma_draw_layout(c: Challenge, weight: int, targets: Seq<usize>, bits: Seq<bool>)
    requires
        is_challenge_of_draws(c, weight, targets, bits),
    ensures
        c.weight == weight,
        forall|i: int| weight <= i < 5 ==> c.positions[i] == 0 && c.signs[i] == 0,
        forall|i: int, j: int| 0 <= i < j < weight ==> c.positions[i] < c.positions[j],
{
    reveal(is_challenge_of_draws);
}

/// The sign of a challenge at the position of shuffled slot `j` is the
/// sign of the bit drawn for that slot: exactly one entry of the challenge
/// holds that position, and its sign is `+1` for a set bit and `-1` for a
/// clear one.
pub proof fn lemma_sign_follows_bit(c: Challenge, weight: int, targets: Seq<usize>, bits: Seq<bool>, j: int)
    requires
        0 <= weight <= 5,
        targets_in_range(targets, weight),
        bits.len() == weight,
        is_challenge_of_draws(c, weight, targets, bits),
        0 <= j < weight,
    ensures
        exists|i: int| 0 <= i < weight && c.positions[i] == shuffled(targets, weight)[j],
        forall|i: int|
            0 <= i < weight && #[trigger] c.positions[i] == shuffled(targets, weight)[j] ==> c.signs[i] == (
            if bits[j] {
                1int
            } else {
                -1int
            }),
{
    lemma_shuffled_is_permutation(targets, weight);
    let perm = shuffled(targets, weight);
    let i0 = lemma_draw_slot(c, weight, targets, bits, j);
    assert forall|i: int| 0 <= i < weight && #[trigger] c.positions[i] == perm[j] implies c.signs[i] == (if bits[j] {
        1int
    } else {
        -1int
    }) by {
        let jj = lemma_draw_entry(c, weight, targets, bits, i);
        if jj < j {
            assert(perm[jj] != perm[j]);
        } else if j < jj {
            assert(perm[j] != perm[jj]);
        }
    }
}

/// `x` occurs in `s`.
spec fn occurs(s: Seq<int>, x: int) -> bool {
    exists|k: int| 0 <= k < s.len() && s[k] == x
}

/// Two strictly increasing lists of one length that hold the same values
/// agree up to `n`.
proof fn lemma_sorted_same_values(a: Seq<int>, b: Seq<int>, n: int)
    requires
        a.len() == b.len(),
        0 <= n <= a.len(),
        forall|i: int, j: int| 0 <= i < j < a.len() ==> #[trigger] a[i] < #[trigger] a[j],
        forall|i: int, j: int| 0 <= i < j < b.len() ==> #[trigger] b[i] < #[trigger] b[j],
        forall|i: int| 0 <= i < a.len() ==> occurs(b, #[trigger] a[i]),
        forall|i: int| 0 <= i < b.len() ==> occurs(a, #[trigger] b[i]),
    ensures
        forall|i: int| 0 <= i < n ==> #[trigger] a[i] == b[i],
    decreases n,
{
    if n > 0 {
        lemma_sorted_same_values(a, b, n - 1);
        let i = n - 1;
        assert(occurs(b, a[i]));
        assert(occurs(a, b[i]));
        let k = choose|k: int| 0 <= k < b.len() && b[k] == a[i];
        let k2 = choose|k: int| 0 <= k < a.len() && a[k] == b[i];
        if k < i {
            assert(a[k] == b[k]);
            assert(a[k] < a[i]);
        }
        if k2 < i {
            assert(a[k2] == b[k2]);
            assert(b[k2] < b[i]);
        }
        if k > i {
            assert(b[i] < b[k]);
        }
        if k2 > i {
            assert(a[i] < a[k2]);
        }
    }
}

/// The first `w` positions of a challenge as integers.
spec fn position_list(c: Challenge, w: int) -> Seq<int> {
    Seq::new(w as nat, |i: int| c.positions[i] as int)
}

/// The draws determine the challenge: two challenges that the same shuffle
/// targets and sign bits give are the same challenge, position by position
/// and sign by sign.
pub proof fn lemma_challenge_of_draws_unique(
    c1: Challenge,
    c2: Challenge,
    weight: int,
    targets: Seq<usize>,
    bits: Seq<bool>,
)
    requires
        0 <= weight <= 5,
        targets_in_range(targets, weight),
        bits.len() == weight,
        is_challenge_of_draws(c1, weight, targets, bits),
        is_challenge_of_draws(c2, weight, targets, bits),
    ensures
        c1.weight == c2.weight,
        forall|i: int| 0 <= i < 5 ==> c1.positions[i] == c2.positions[i],
        forall|i: int| 0 <= i < 5 ==> c1.signs[i] == c2.signs[i],
{
    lemma_shuffled_is_permutation(targets, weight);
    lemma_draw_layout(c1, weight, targets, bits);
    lemma_draw_layout(c2, weight, targets, bits);
    let perm = shuffled(targets, weight);
    let a = position_list(c1, weight);
    let b = position_list(c2, weight);
    assert forall|i: int| 0 <= i < weight implies occurs(b, #[trigger] a[i]) by {
        let j = lemma_draw_entry(c1, weight, targets, bits, i);
        let k = lemma_draw_slot(c2, weight, targets, bits, j);
        assert(b[k] == a[i]);
    }
    assert forall|i: int| 0 <= i < weight implies occurs(a, #[trigger] b[i]) by {
        let j = lemma_draw_entry(c2, weight, targets, bits, i);
        let k = lemma_draw_slot(c1, weight, targets, bits, j);
        assert(a[k] == b[i]);
    }
    assert forall|i: int, j: int| 0 <= i < j < weight implies #[trigger] a[i] < #[trigger] a[j] by {
        assert(c1.positions[i] < c1.positions[j]);
    }
    assert forall|i: int, j: int| 0 <= i < j < weight implies #[trigger] b[i] < #[trigger] b[j] by {
        assert(c2.positions[i] < c2.positions[j]);
    }
    lemma_sorted_same_values(a, b, weight);
    assert forall|i: int| 0 <= i < 5 implies c1.positions[i] == c2.positions[i] && c1.signs[i] == c2.signs[i] by {
        if i < weight {
            assert(a[i] == b[i]);
            let j1 = lemma_draw_entry(c1, weight, targets, bits, i);
            let j2 = lemma_draw_entry(c2, weight, targets, bits, i);
            if j1 < j2 {
                assert(perm[j1] != perm[j2]);
            } else if j2 < j1 {
                assert(perm[j2] != perm[j1]);
            }
        }
    }
}

/// Draws one challenge of the given weight: a partial Fisher-Yates shuffle
/// of the positions, a random sign for each, sorted by position.
pub fn sample_attempt(rng: &mut SmallRng, weight: usize) -> (c: Challenge)
    requires
        weight <= MAX_WEIGHT,
    ensures
        exists|targets: Seq<usize>, bits: Seq<bool>|
            targets_in_range(targets, weight as int) && bits.len() == weight
                && #[trigger] is_challenge_of_draws(c, weight as int, targets, bits),
        c.weight == weight,
        challenge_in_range(c),
        forall|i: int| 0 <= i < weight ==> #[trigger] c.signs[i] == 1 || c.signs[i] == -1,
        forall|i: int, j: int| 0 <= i < j < weight ==> c.positions[i] < c.positions[j],
{
    let (c, Ghost(targets), Ghost(bits)) = sample_attempt_traced(rng, weight);
    proof {
        lemma_shuffled_is_permutation(targets, weight as int);
        lemma_draw_layout(c, weight as int, targets, bits);
        let perm = shuffled(targets, weight as int);
        assert forall|i: int| 0 <= i < weight implies #[trigger] c.positions[i] < 128 by {
            let j = lemma_draw_entry(c, weight as int, targets, bits, i);
            assert(perm[j] < 128);
        }
        assert forall|i: int| 0 <= i < weight implies -2 <= #[trigger] c.signs[i] <= 2 && (
        c.signs[i] == 1 || c.signs[i] == -1) by {
            let j = lemma_draw_entry(c, weight as int, targets, bits, i);
        }
    }
    c
}

} // verus!
