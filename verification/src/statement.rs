//! The statement a fold works on: the commitment to the witness columns and
//! one evaluation claim per folded column, and the check of a folded output
//! against its folded commitment and claim.
use crate::commitment::{key_wf, CommitmentKey};
use crate::config::FOLD_INPUTS;
use crate::fold::lemma_commitment_of_fold;
use crate::ifma::{q, Q};
use crate::qe::{lemma_qe_mul_zero_one, qe_one, qe_sub, qe_valid, qe_zero, QuadraticExtension};
use crate::qe_vec::{eq_entry, qe_vec_wf, QeVec};
use crate::ring::{
    eq_limb, fold_commitment_lane, lanes_valid, mle_evaluate, ring_dot_lane, ring_product_lane, weighted_element,
    weighted_lane,
};
use vstd::arithmetic::div_mod::*;
use vstd::arithmetic::power2::{lemma_pow2_pos, lemma_pow2_unfold, pow2};
use vstd::prelude::*;

verus! {

/// Lane `lane` of the multilinear extension of `values` at the extension
/// point with the given layers, as `mle_evaluate` computes it.
pub open spec fn mle_lane(
    values: Seq<[u64; 128]>,
    layers: Seq<QuadraticExtension>,
    s: u64,
    alpha: [u64; 128],
    zeta: Seq<u64>,
    lane: int,
) -> int {
    (weighted_lane(eq_limb(s, layers, 0), values, 0, lane, values.len() as int) + ring_product_lane(
        zeta,
        weighted_element(eq_limb(s, layers, 1), values, 0, values.len() as int),
        alpha@,
        lane,
    )) % q()
}

/// Lane `lane` of row `row` of the commitment to `column` under `key`.
pub open spec fn commitment_lane(key: &CommitmentKey, zeta: Seq<u64>, column: Seq<[u64; 128]>, row: int, lane: int) -> int {
    ring_dot_lane(zeta, key.rows@, column, row * key.height, lane, key.height as int) % q()
}

/// A claimed evaluation of a column's multilinear extension.
pub struct EvalClaim {
    pub point: Vec<QuadraticExtension>,
    pub value: [u64; 128],
}

/// The commitment (`height` rows of `width` columns, row-major) and the
/// claims of a fold's inputs.
pub struct Instance {
    pub commitment: Vec<[u64; 128]>,
    pub height: usize,
    pub width: usize,
    pub claims: Vec<EvalClaim>,
}

/// A copy of a point.
fn copy_point(point: &Vec<QuadraticExtension>) -> (r: Vec<QuadraticExtension>)
    ensures
        r@ == point@,
{
    let mut r: Vec<QuadraticExtension> = Vec::new();
    let mut i: usize = 0;
    while i < point.len()
        invariant
            i <= point.len(),
            r@ == point@.subrange(0, i as int),
        decreases point.len() - i,
    {
        r.push(point[i]);
        i = i + 1;
    }
    r
}

/// The instance of a witness: its columns committed under `key`, and for
/// each of the first `FOLD_INPUTS` columns the claim of its value at the
/// given point.
pub fn build_instance(
    key: &CommitmentKey,
    witness: &Vec<Vec<[u64; 128]>>,
    points: &Vec<Vec<QuadraticExtension>>,
    s: u64,
    alpha: &[u64; 128],
    zeta: &[u64; 64],
) -> (inst: Instance)
    requires
        key_wf(key),
        FOLD_INPUTS <= witness.len(),
        points.len() == FOLD_INPUTS,
        forall|c: int| 0 <= c < witness.len() ==> (#[trigger] witness@[c]).len() == key.height,
        forall|c: int, i: int|
            0 <= c < witness.len() && 0 <= i < witness@[c].len() ==> lanes_valid(#[trigger] witness@[c]@[i]),
        forall|c: int| 0 <= c < FOLD_INPUTS ==> pow2((#[trigger] points@[c]).len() as nat) == key.height,
        forall|c: int, i: int|
            0 <= c < FOLD_INPUTS && 0 <= i < points@[c].len() ==> qe_valid(#[trigger] points@[c]@[i]),
        lanes_valid(*alpha),
    ensures
        inst.height == key.rank,
        inst.width == witness.len(),
        inst.commitment.len() == key.rank * witness.len(),
        forall|row: int, col: int, lane: int|
            0 <= row < key.rank && 0 <= col < witness.len() && 0 <= lane < 128
                ==> #[trigger] inst.commitment@[row * witness.len() + col][lane] as int == commitment_lane(
                key,
                zeta@,
                witness@[col]@,
                row,
                lane,
            ),
        inst.claims.len() == FOLD_INPUTS,
        forall|c: int| 0 <= c < FOLD_INPUTS ==> (#[trigger] inst.claims@[c]).point@ == points@[c]@,
        forall|c: int, lane: int|
            0 <= c < FOLD_INPUTS && 0 <= lane < 128 ==> #[trigger] inst.claims@[c].value[lane] as int == mle_lane(
                witness@[c]@,
                points@[c]@,
                s,
                *alpha,
                zeta@,
                lane,
            ),
{
    let commitment = key.commit(witness, zeta);
    let mut claims: Vec<EvalClaim> = Vec::new();
    let mut c: usize = 0;
    while c < FOLD_INPUTS
        invariant
            key_wf(key),
            FOLD_INPUTS <= witness.len(),
            points.len() == FOLD_INPUTS,
            forall|cc: int| 0 <= cc < witness.len() ==> (#[trigger] witness@[cc]).len() == key.height,
            forall|cc: int, i: int|
                0 <= cc < witness.len() && 0 <= i < witness@[cc].len() ==> lanes_valid(#[trigger] witness@[cc]@[i]),
            forall|cc: int| 0 <= cc < FOLD_INPUTS ==> pow2((#[trigger] points@[cc]).len() as nat) == key.height,
            forall|cc: int, i: int|
                0 <= cc < FOLD_INPUTS && 0 <= i < points@[cc].len() ==> qe_valid(#[trigger] points@[cc]@[i]),
            lanes_valid(*alpha),
            c <= FOLD_INPUTS,
            claims.len() == c,
            forall|cc: int| 0 <= cc < c ==> (#[trigger] claims@[cc]).point@ == points@[cc]@,
            forall|cc: int, lane: int|
                0 <= cc < c && 0 <= lane < 128 ==> #[trigger] claims@[cc].value[lane] as int == mle_lane(
                    witness@[cc]@,
                    points@[cc]@,
                    s,
                    *alpha,
                    zeta@,
                    lane,
                ),
        decreases FOLD_INPUTS - c,
    {
        let column = &witness[c];
        let point = &points[c];
        assert(forall|i: int| 0 <= i < column.len() ==> lanes_valid(#[trigger] column@[i]));
        assert(forall|i: int| 0 <= i < point.len() ==> qe_valid(#[trigger] point@[i]));
        let value = mle_evaluate(column, point, s, alpha, zeta);
        let ghost before = claims@;
        claims.push(EvalClaim { point: copy_point(point), value });
        proof {
            assert forall|cc: int, lane: int|
                0 <= cc < c + 1 && 0 <= lane < 128 implies #[trigger] claims@[cc].value[lane] as int == mle_lane(
                witness@[cc]@,
                points@[cc]@,
                s,
                *alpha,
                zeta@,
                lane,
            ) by {
                if cc < c {
                    assert(claims@[cc] == before[cc]);
                }
            }
        }
        c = c + 1;
    }
    Instance { commitment, height: key.rank, width: witness.len(), claims }
}

/// Why a folded output is refused.
#[derive(Clone, Copy, Debug, PartialEq, Eq, Structural)]
pub enum OutputError {
    /// A row of the recomputed commitment differs from the folded commitment.
    CommitmentMismatch,
    /// The folded witness's norm exceeds the bound.
    NormExceeded,
    /// The folded witness does not evaluate to the folded claim.
    ClaimMismatch,
}

/// Each row of `commitment` is the commitment of `column` under `key`.
pub open spec fn commitment_matches(
    key: &CommitmentKey,
    zeta: Seq<u64>,
    column: Seq<[u64; 128]>,
    commitment: Seq<[u64; 128]>,
) -> bool {
    forall|row: int, lane: int|
        0 <= row < commitment.len() && 0 <= lane < 128 ==> #[trigger] commitment[row][lane] as int
            == commitment_lane(key, zeta, column, row, lane)
}

/// The value claimed is the column's evaluation at the claimed point.
pub open spec fn claim_holds(column: Seq<[u64; 128]>, claim: &EvalClaim, s: u64, alpha: [u64; 128], zeta: Seq<u64>) -> bool {
    forall|lane: int|
        0 <= lane < 128 ==> #[trigger] claim.value[lane] as int == mle_lane(column, claim.point@, s, alpha, zeta, lane)
}

/// Two ring elements are equal lane by lane.
fn lanes_equal(a: &[u64; 128], b: &[u64; 128]) -> (r: bool)
    ensures
        r <==> forall|lane: int| 0 <= lane < 128 ==> #[trigger] a[lane] == b[lane],
{
    let mut lane: usize = 0;
    while lane < 128
        invariant
            lane <= 128,
            forall|l: int| 0 <= l < lane ==> #[trigger] a[l] == b[l],
        decreases 128 - lane,
    {
        if a[lane] != b[lane] {
            return false;
        }
        lane = lane + 1;
    }
    true
}

/// The check of a folded witness column: its commitment under `key` must
/// reproduce every row of the folded commitment, its norm must be within
/// the bound (`norm_within_bound`, the outcome of the norm comparison), and
/// its evaluation at the folded claim's point must be the claimed value;
/// the first failing check is reported.
pub fn verify_output(
    key: &CommitmentKey,
    witness: &Vec<[u64; 128]>,
    commitment: &Vec<[u64; 128]>,
    claim: &EvalClaim,
    norm_within_bound: bool,
    s: u64,
    alpha: &[u64; 128],
    zeta: &[u64; 64],
) -> (r: Result<(), OutputError>)
    requires
        key_wf(key),
        witness.len() == key.height,
        forall|i: int| 0 <= i < witness.len() ==> lanes_valid(#[trigger] witness@[i]),
        commitment.len() <= key.rank,
        witness.len() == pow2(claim.point.len() as nat),
        forall|i: int| 0 <= i < claim.point.len() ==> qe_valid(#[trigger] claim.point@[i]),
        lanes_valid(*alpha),
    ensures
        r == if !commitment_matches(key, zeta@, witness@, commitment@) {
            Err(OutputError::CommitmentMismatch)
        } else if !norm_within_bound {
            Err(OutputError::NormExceeded)
        } else if !claim_holds(witness@, claim, s, *alpha, zeta@) {
            Err(OutputError::ClaimMismatch)
        } else {
            Ok(())
        },
{
    let recomputed = key.commit_column(witness, zeta);
    let mut row: usize = 0;
    while row < commitment.len()
        invariant
            row <= commitment.len(),
            commitment.len() <= key.rank,
            recomputed.len() == key.rank,
            forall|rr: int, lane: int|
                0 <= rr < key.rank && 0 <= lane < 128 ==> #[trigger] recomputed@[rr][lane] as int
                    == commitment_lane(key, zeta@, witness@, rr, lane),
            forall|rr: int, lane: int|
                0 <= rr < row && 0 <= lane < 128 ==> #[trigger] commitment@[rr][lane] as int
                    == commitment_lane(key, zeta@, witness@, rr, lane),
        decreases commitment.len() - row,
    {
        if !lanes_equal(&recomputed[row], &commitment[row]) {
            proof {
                let lane = choose|lane: int| 0 <= lane < 128 && recomputed@[row as int][lane] != commitment@[row as int][lane];
                assert(commitment@[row as int][lane] as int != commitment_lane(key, zeta@, witness@, row as int, lane));
            }
            return Err(OutputError::CommitmentMismatch);
        }
        proof {
            assert forall|rr: int, lane: int|
                0 <= rr < row + 1 && 0 <= lane < 128 implies #[trigger] commitment@[rr][lane] as int
                == commitment_lane(key, zeta@, witness@, rr, lane) by {
                if rr == row {
                    assert(recomputed@[rr][lane] == commitment@[rr][lane]);
                }
            }
        }
        row = row + 1;
    }
    if !norm_within_bound {
        return Err(OutputError::NormExceeded);
    }
    let value = mle_evaluate(witness, &claim.point, s, alpha, zeta);
    if !lanes_equal(&value, &claim.value) {
        proof {
            let lane = choose|lane: int| 0 <= lane < 128 && value[lane] != claim.value[lane];
            assert(claim.value[lane] as int != mle_lane(witness@, claim.point@, s, *alpha, zeta@, lane));
        }
        return Err(OutputError::ClaimMismatch);
    }
    assert(commitment_matches(key, zeta@, witness@, commitment@));
    assert(claim_holds(witness@, claim, s, *alpha, zeta@)) by {
        assert forall|lane: int| 0 <= lane < 128 implies #[trigger] claim.value[lane] as int == mle_lane(
            witness@,
            claim.point@,
            s,
            *alpha,
            zeta@,
            lane,
        ) by {
            assert(value[lane] == claim.value[lane]);
        }
    }
    Ok(())
}

/// An honest fold passes the commitment check of `verify_output`: for a
/// witness of three columns (two fresh ones and the accumulator) committed
/// under `key`, challenges with the unit on the accumulator, the folded
/// column `acc[i] + c0 w0[i] + c1 w1[i]` and the folded commitment
/// `sum_col commitment[row, col] challenges[col]` (all reduced mod `q`),
/// every row of the folded commitment is the commitment to the folded
/// column.
pub proof fn lemma_folded_commitment_matches(
    key: &CommitmentKey,
    zeta: Seq<u64>,
    witness: Seq<Seq<[u64; 128]>>,
    challenges: Seq<[u64; 128]>,
    commitment: Seq<[u64; 128]>,
    folded: Seq<[u64; 128]>,
    folded_commitment: Seq<[u64; 128]>,
)
    requires
        witness.len() == FOLD_INPUTS,
        challenges.len() == FOLD_INPUTS,
        forall|m: int| 0 <= m < 128 ==> #[trigger] challenges[2][m] == if m < 64 {
            1u64
        } else {
            0u64
        },
        forall|i: int, m: int|
            0 <= i < key.height && 0 <= m < 128 ==> #[trigger] folded[i][m] as int == (witness[2][i][m]
                + ring_product_lane(zeta, challenges[0]@, witness[0][i]@, m) + ring_product_lane(
                zeta,
                challenges[1]@,
                witness[1][i]@,
                m,
            )) % q(),
        forall|row: int, col: int, m: int|
            0 <= row < key.rank && 0 <= col < FOLD_INPUTS && 0 <= m < 128
                ==> #[trigger] commitment[row * FOLD_INPUTS + col][m] as int == commitment_lane(
                key,
                zeta,
                witness[col],
                row,
                m,
            ),
        folded_commitment.len() <= key.rank,
        forall|row: int, m: int|
            0 <= row < folded_commitment.len() && 0 <= m < 128 ==> #[trigger] folded_commitment[row][m] as int
                == fold_commitment_lane(zeta, commitment, challenges, row, m, FOLD_INPUTS as int) % q(),
    ensures
        commitment_matches(key, zeta, folded, folded_commitment),
{
    assert forall|row: int, lane: int| 0 <= row < folded_commitment.len() && 0 <= lane < 128 implies #[trigger] folded_commitment[row][lane] as int
        == commitment_lane(key, zeta, folded, row, lane) by {
        assert forall|m: int| 0 <= m < 128 implies #[trigger] commitment[row * FOLD_INPUTS + 0][m] as int
            == ring_dot_lane(zeta, key.rows@, witness[0], row * key.height, m, key.height as int) % q() by {
            assert(commitment[row * FOLD_INPUTS + 0][m] as int == commitment_lane(key, zeta, witness[0], row, m));
        }
        assert forall|m: int| 0 <= m < 128 implies #[trigger] commitment[row * FOLD_INPUTS + 1][m] as int
            == ring_dot_lane(zeta, key.rows@, witness[1], row * key.height, m, key.height as int) % q() by {
            assert(commitment[row * FOLD_INPUTS + 1][m] as int == commitment_lane(key, zeta, witness[1], row, m));
        }
        assert forall|m: int| 0 <= m < 128 implies #[trigger] commitment[row * FOLD_INPUTS + 2][m] as int
            == ring_dot_lane(zeta, key.rows@, witness[2], row * key.height, m, key.height as int) % q() by {
            assert(commitment[row * FOLD_INPUTS + 2][m] as int == commitment_lane(key, zeta, witness[2], row, m));
        }
        lemma_commitment_of_fold(
            zeta,
            key.rows@,
            witness[0],
            witness[1],
            witness[2],
            challenges,
            folded,
            commitment,
            key.height as int,
            row,
            lane,
        );
    }
}

/// Every layer of the point is 0 or 1.
pub open spec fn is_boolean_point(layers: Seq<QuadraticExtension>) -> bool {
    forall|j: int| 0 <= j < layers.len() ==> #[trigger] layers[j] == qe_zero() || layers[j] == qe_one()
}

/// The index a Boolean point names, its first layer the top bit.
pub open spec fn boolean_index(layers: Seq<QuadraticExtension>) -> int
    decreases layers.len(),
{
    if layers.len() == 0 {
        0
    } else {
        (if layers[0] == qe_one() {
            pow2((layers.len() - 1) as nat) as int
        } else {
            0
        }) + boolean_index(layers.drop_first())
    }
}

/// At a Boolean point the eq weights are one at the point's index and zero
/// elsewhere.
proof fn lemma_eq_entry_boolean(s: u64, layers: Seq<QuadraticExtension>, b: int)
    requires
        is_boolean_point(layers),
        0 <= b < pow2(layers.len() as nat),
    ensures
        0 <= boolean_index(layers) < pow2(layers.len() as nat),
        eq_entry(s, layers, b) == if b == boolean_index(layers) {
            qe_one()
        } else {
            qe_zero()
        },
    decreases layers.len(),
{
    if layers.len() == 0 {
        assert(pow2(0) == 1) by {
            vstd::arithmetic::power2::lemma2_to64();
        }
    } else {
        let k = layers.len();
        let half = pow2((k - 1) as nat) as int;
        lemma_pow2_unfold(k as nat);
        lemma_pow2_pos((k - 1) as nat);
        let rest = layers.drop_first();
        assert(is_boolean_point(rest)) by {
            assert forall|j: int| 0 <= j < rest.len() implies #[trigger] rest[j] == qe_zero() || rest[j] == qe_one() by {
                assert(rest[j] == layers[j + 1]);
            }
        }
        let r = if b >= half {
            b - half
        } else {
            b
        };
        assert(b % half == r) by {
            if b >= half {
                lemma_mod_add_multiples_vanish(b - half, half);
                lemma_small_mod((b - half) as nat, half as nat);
            } else {
                lemma_small_mod(b as nat, half as nat);
            }
        }
        lemma_eq_entry_boolean(s, rest, r);
        let e = eq_entry(s, rest, r);
        lemma_small_mod(0, Q as nat);
        lemma_small_mod(1, Q as nat);
        assert(qe_valid(e));
        lemma_qe_mul_zero_one(s, e);
        assert(qe_sub(qe_one(), qe_one()) == qe_zero());
        assert(qe_sub(qe_one(), qe_zero()) == qe_one());
        assert(qe_zero() != qe_one());
    }
}

/// `weighted_lane` of a one-hot weight vector picks the selected value.
proof fn lemma_one_hot_weighted(w: Seq<u64>, values: Seq<[u64; 128]>, index: int, lane: int, k: int)
    requires
        0 <= k <= w.len(),
        forall|i: int| 0 <= i < w.len() ==> #[trigger] w[i] == if i == index {
            1u64
        } else {
            0u64
        },
    ensures
        weighted_lane(w, values, 0, lane, k) == if 0 <= index < k {
            values[index][lane] as int
        } else {
            0
        },
    decreases k,
{
    if k > 0 {
        lemma_one_hot_weighted(w, values, index, lane, k - 1);
        let x = values[k - 1][lane] as int;
        assert(w[k - 1] * x == if k - 1 == index {
            x
        } else {
            0
        }) by (nonlinear_arith)
            requires
                w[k - 1] == if k - 1 == index {
                    1u64
                } else {
                    0u64
                },
        ;
    }
}

/// At a Boolean point the multilinear extension of a table is the table's
/// entry at the point's index: `mle_evaluate` interpolates its values.
pub proof fn lemma_mle_at_boolean_point(
    values: Seq<[u64; 128]>,
    layers: Seq<QuadraticExtension>,
    s: u64,
    alpha: [u64; 128],
    zeta: Seq<u64>,
    lane: int,
)
    requires
        values.len() == pow2(layers.len() as nat),
        is_boolean_point(layers),
        forall|i: int| 0 <= i < values.len() ==> lanes_valid(#[trigger] values[i]),
        0 <= lane < 128,
    ensures
        0 <= boolean_index(layers) < values.len(),
        mle_lane(values, layers, s, alpha, zeta, lane) == values[boolean_index(layers)][lane] as int,
{
    let n = values.len() as int;
    let index = boolean_index(layers);
    lemma_pow2_pos(layers.len() as nat);
    lemma_eq_entry_boolean(s, layers, 0);
    let w0 = eq_limb(s, layers, 0);
    let w1 = eq_limb(s, layers, 1);
    assert forall|i: int| 0 <= i < w0.len() implies #[trigger] w0[i] == if i == index {
        1u64
    } else {
        0u64
    } by {
        lemma_eq_entry_boolean(s, layers, i);
    }
    assert forall|i: int| 0 <= i < w1.len() implies #[trigger] w1[i] == if i == n {
        1u64
    } else {
        0u64
    } by {
        lemma_eq_entry_boolean(s, layers, i);
    }
    lemma_one_hot_weighted(w0, values, index, lane, n);
    let zeros = weighted_element(w1, values, 0, n);
    assert forall|l: int| 0 <= l < 128 implies #[trigger] zeros[l] == 0 by {
        lemma_one_hot_weighted(w1, values, n, l, n);
    }
    let x = zeros;
    let y = alpha@;
    if lane < 64 {
        assert(ring_product_lane(zeta, x, y, lane) == 0) by (nonlinear_arith)
            requires
                x[lane] == 0,
                x[lane + 64] == 0,
                ring_product_lane(zeta, x, y, lane) == x[lane] * y[lane] + zeta[lane] * (x[lane + 64] * y[lane
                    + 64]),
        ;
    } else {
        assert(ring_product_lane(zeta, x, y, lane) == 0) by (nonlinear_arith)
            requires
                x[lane - 64] == 0,
                x[lane] == 0,
                ring_product_lane(zeta, x, y, lane) == x[lane - 64] * y[lane] + x[lane] * y[lane - 64],
        ;
    }
    assert(values[index][lane] < Q);
    lemma_small_mod(values[index][lane] as nat, Q as nat);
}

/// Lane `lane` of a column's evaluation against an eq table given by its two
/// limbs, as `evaluate_column` computes it.
pub open spec fn column_lane(
    values: Seq<[u64; 128]>,
    limb0: Seq<u64>,
    limb1: Seq<u64>,
    alpha: [u64; 128],
    zeta: Seq<u64>,
    lane: int,
) -> int {
    (weighted_lane(limb0, values, 0, lane, values.len() as int) + ring_product_lane(
        zeta,
        weighted_element(limb1, values, 0, values.len() as int),
        alpha@,
        lane,
    )) % q()
}

/// A weighted sum over a block of `n` elements at `base` is the weighted
/// sum over that block taken as a column of its own.
proof fn lemma_weighted_block(w: Seq<u64>, elements: Seq<[u64; 128]>, base: int, lane: int, n: int)
    requires
        0 <= base,
        0 <= n,
        base + n <= elements.len(),
    ensures
        weighted_lane(w, elements, base, lane, n) == weighted_lane(
            w,
            elements.subrange(base, base + n),
            0,
            lane,
            n,
        ),
    decreases n,
{
    if n > 0 {
        lemma_weighted_block(w, elements, base, lane, n - 1);
        lemma_weighted_prefix(w, elements.subrange(base, base + n), lane, n - 1);
        assert(elements.subrange(base, base + n - 1) =~= elements.subrange(base, base + n).subrange(0, n - 1));
    }
}

/// Only the first `n` elements enter a weighted sum over `n` terms.
proof fn lemma_weighted_prefix(w: Seq<u64>, elements: Seq<[u64; 128]>, lane: int, n: int)
    requires
        0 <= n <= elements.len(),
    ensures
        weighted_lane(w, elements, 0, lane, n) == weighted_lane(w, elements.subrange(0, n), 0, lane, n),
    decreases n,
{
    if n > 0 {
        lemma_weighted_prefix(w, elements, lane, n - 1);
        lemma_weighted_prefix(w, elements.subrange(0, n), lane, n - 1);
        assert(elements.subrange(0, n).subrange(0, n - 1) =~= elements.subrange(0, n - 1));
    }
}

/// Block `t` of `contract_pass` is `evaluate_column` of that block: the
/// lane that `contract_pass` gives for block `t` of `elements`, with
/// blocks of `len` elements, is the lane that `evaluate_column` gives for
/// the elements `t * len .. (t + 1) * len`.
pub proof fn lemma_contract_block_is_column(
    elements: Seq<[u64; 128]>,
    limb0: Seq<u64>,
    limb1: Seq<u64>,
    alpha: [u64; 128],
    zeta: Seq<u64>,
    t: int,
    len: int,
    lane: int,
)
    requires
        0 <= t,
        0 < len,
        (t + 1) * len <= elements.len(),
    ensures
        (weighted_lane(limb0, elements, t * len, lane, len) + ring_product_lane(
            zeta,
            weighted_element(limb1, elements, t * len, len),
            alpha@,
            lane,
        )) % q() == column_lane(elements.subrange(t * len, t * len + len), limb0, limb1, alpha, zeta, lane),
{
    assert((t + 1) * len == t * len + len) by (nonlinear_arith);
    assert(0 <= t * len) by (nonlinear_arith)
        requires
            0 <= t,
            0 < len,
    ;
    let block = elements.subrange(t * len, t * len + len);
    lemma_weighted_block(limb0, elements, t * len, lane, len);
    assert forall|l: int| 0 <= l < 128 implies #[trigger] weighted_lane(limb1, elements, t * len, l, len)
        == weighted_lane(limb1, block, 0, l, len) by {
        lemma_weighted_block(limb1, elements, t * len, l, len);
    }
    assert(weighted_element(limb1, elements, t * len, len) =~= weighted_element(limb1, block, 0, len));
}

/// Evaluating a column against the eq table of a point is the multilinear
/// extension at that point: for a table whose entries are the eq weights of
/// the layers (as `expand_eq_soa` returns it), `evaluate_column` gives
/// `mle_evaluate`'s value, and so each claim of `build_instance` is the
/// evaluation of its column against the eq table of its point.
pub proof fn lemma_column_evaluation_is_mle(
    values: Seq<[u64; 128]>,
    eq: QeVec,
    layers: Seq<QuadraticExtension>,
    s: u64,
    alpha: [u64; 128],
    zeta: Seq<u64>,
    lane: int,
)
    requires
        qe_vec_wf(&eq),
        eq.limb0.len() == pow2(layers.len() as nat),
        forall|b: int| 0 <= b < eq.limb0.len() ==> #[trigger] eq@[b] == eq_entry(s, layers, b),
    ensures
        column_lane(values, eq.limb0@, eq.limb1@, alpha, zeta, lane) == mle_lane(values, layers, s, alpha, zeta, lane),
{
    assert(eq.limb0@ =~= eq_limb(s, layers, 0)) by {
        assert forall|b: int| 0 <= b < eq.limb0.len() implies eq.limb0@[b] == eq_limb(s, layers, 0)[b] by {
            assert(eq@[b] == eq_entry(s, layers, b));
        }
    }
    assert(eq.limb1@ =~= eq_limb(s, layers, 1)) by {
        assert forall|b: int| 0 <= b < eq.limb1.len() implies eq.limb1@[b] == eq_limb(s, layers, 1)[b] by {
            assert(eq@[b] == eq_entry(s, layers, b));
        }
    }
}

} // verus!
