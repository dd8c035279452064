//! The verifier's side of the sumcheck rounds and the claims it checks: a
//! round sends `p(0)` and the quadratic coefficient of the round polynomial
//! `p`, the linear coefficient follows from the running claim `p(0) + p(1)`,
//! and the next claim is `p(r)` at the round challenge `r`.
use crate::config::{log2_floor, log2_usize, ACCUMULATOR_COL, FRESH_INPUTS, FRESH_SELECTOR_VARS};
use crate::ifma::{q, Q};
use crate::modq::multiply_mod;
use crate::qe::{
    lemma_qe_add_pairs, lemma_qe_mul_zero_one, lemma_qe_pair, lemma_qe_sub_pairs,
    lemma_qe_valid_is_pair, qe_add, qe_mul, qe_one, qe_pair, qe_sub, qe_valid, qe_zero,
    QuadraticExtension,
};
use crate::qe_vec::prod_sum;
use vstd::arithmetic::div_mod::*;
use vstd::prelude::*;

verus! {

/// Why a sumcheck transcript is refused.
#[derive(Clone, Copy, Debug, PartialEq, Eq, Structural)]
pub enum SumcheckError {
    /// The proof has another number of round polynomials than the rounds.
    WrongRoundCount,
}

/// The proof carries one round polynomial per round.
pub fn check_round_count(received: usize, rounds: usize) -> (r: Result<(), SumcheckError>)
    ensures
        r is Ok <==> received == rounds,
        r is Err ==> r == Err::<(), SumcheckError>(SumcheckError::WrongRoundCount),
{
    if received != rounds {
        Err(SumcheckError::WrongRoundCount)
    } else {
        Ok(())
    }
}

/// `c[0] + c[1] x + c[2] x^2`.
pub open spec fn poly_at(s: u64, c: [QuadraticExtension; 3], x: QuadraticExtension) -> QuadraticExtension {
    qe_add(qe_add(c[0], qe_mul(s, c[1], x)), qe_mul(s, c[2], qe_mul(s, x, x)))
}

/// The round polynomial of a round: `[p(0), claim - 2 p(0) - c2, c2]` for
/// the sent pair `[p(0), c2]`, so that `p(0) + p(1)` is the running claim.
pub fn round_polynomial(claim: QuadraticExtension, sent: [QuadraticExtension; 2], s: u64) -> (r: [QuadraticExtension; 3])
    requires
        qe_valid(claim),
        qe_valid(sent[0]),
        qe_valid(sent[1]),
    ensures
        r[0] == sent[0],
        r[1] == qe_sub(qe_sub(qe_sub(claim, sent[0]), sent[0]), sent[1]),
        r[2] == sent[1],
        qe_add(poly_at(s, r, qe_zero()), poly_at(s, r, qe_one())) == claim,
{
    let c0 = sent[0];
    let c2 = sent[1];
    let c1 = claim.sub(c0).sub(c0).sub(c2);
    let r = [c0, c1, c2];
    proof {
        lemma_qe_mul_zero_one(s, c1);
        lemma_qe_mul_zero_one(s, c2);
        lemma_qe_mul_zero_one(s, qe_zero());
        lemma_qe_mul_zero_one(s, qe_one());
        lemma_small_mod(0, Q as nat);
        lemma_small_mod(1, Q as nat);
        let k0 = claim.c0 as int;
        let k1 = claim.c1 as int;
        let a0 = c0.c0 as int;
        let a1 = c0.c1 as int;
        let b0 = c2.c0 as int;
        let b1 = c2.c1 as int;
        lemma_qe_valid_is_pair(claim);
        lemma_qe_valid_is_pair(c0);
        lemma_qe_valid_is_pair(c2);
        lemma_qe_sub_pairs(k0, k1, a0, a1);
        lemma_qe_sub_pairs(k0 - a0, k1 - a1, a0, a1);
        lemma_qe_sub_pairs(k0 - a0 - a0, k1 - a1 - a1, b0, b1);
        let d0 = k0 - a0 - a0 - b0;
        let d1 = k1 - a1 - a1 - b1;
        assert(c1 == qe_pair(d0, d1));
        // p(0) = c0
        lemma_qe_add_pairs(a0, a1, 0, 0);
        assert(poly_at(s, r, qe_zero()) == c0);
        // p(1) = c0 + c1 + c2
        lemma_qe_add_pairs(a0, a1, d0, d1);
        lemma_qe_add_pairs(a0 + d0, a1 + d1, b0, b1);
        assert(poly_at(s, r, qe_one()) == qe_pair(a0 + d0 + b0, a1 + d1 + b1));
        lemma_qe_add_pairs(a0, a1, a0 + d0 + b0, a1 + d1 + b1);
    }
    r
}

/// `p(x)` for a round polynomial `p`.
pub fn evaluate_round_polynomial(c: [QuadraticExtension; 3], x: QuadraticExtension, s: u64) -> (r: QuadraticExtension)
    requires
        qe_valid(c[0]),
        qe_valid(c[1]),
        qe_valid(c[2]),
        qe_valid(x),
    ensures
        r == poly_at(s, c, x),
        qe_valid(r),
{
    let linear = c[1].mul(x, s);
    let square = x.mul(x, s);
    let quadratic = c[2].mul(square, s);
    c[0].add(linear).add(quadratic)
}

/// Selector layer `i` of witness column `col`: bit `FRESH_SELECTOR_VARS - 1 - i`
/// of the selector as `0` or `1`; the accumulator has selector 0.
pub open spec fn selector_layer(col: usize, i: int) -> QuadraticExtension {
    let selector = if col == ACCUMULATOR_COL {
        0
    } else {
        col as int
    };
    if (selector / (vstd::arithmetic::power2::pow2((FRESH_SELECTOR_VARS - 1 - i) as nat) as int)) % 2
        == 1 {
        qe_one()
    } else {
        qe_zero()
    }
}

/// The eq layers of a claim on witness column `col`: the selector bits of
/// the column, most significant first (the accumulator selects fresh input
/// 0), followed by the claim's point.
pub fn weight_layers(col: usize, point: &Vec<QuadraticExtension>) -> (r: Vec<QuadraticExtension>)
    ensures
        r.len() == FRESH_SELECTOR_VARS + point.len(),
        forall|i: int| 0 <= i < FRESH_SELECTOR_VARS ==> #[trigger] r@[i] == selector_layer(col, i),
        forall|i: int| 0 <= i < point.len() ==> #[trigger] r@[FRESH_SELECTOR_VARS + i] == point@[i],
{
    let selector: usize = if col == ACCUMULATOR_COL {
        0
    } else {
        col
    };
    let mut layers: Vec<QuadraticExtension> = Vec::new();
    // one selector variable: its only bit is the low bit of the selector
    let bit = selector % 2;
    proof {
        vstd::arithmetic::power2::lemma2_to64();
    }
    if bit == 1 {
        layers.push(QuadraticExtension::one());
    } else {
        layers.push(QuadraticExtension::zero());
    }
    let mut i: usize = 0;
    while i < point.len()
        invariant
            i <= point.len(),
            layers.len() == 1 + i,
            layers@[0] == (if bit == 1 {
                qe_one()
            } else {
                qe_zero()
            }),
            forall|j: int| 0 <= j < i ==> #[trigger] layers@[1 + j] == point@[j],
        decreases point.len() - i,
    {
        layers.push(point[i]);
        i = i + 1;
    }
    proof {
        assert(vstd::arithmetic::power2::pow2(0) == 1) by {
            vstd::arithmetic::power2::lemma2_to64();
        }
        let e = (FRESH_SELECTOR_VARS - 1 - 0int) as nat;
        assert(e == 0);
        assert(vstd::arithmetic::power2::pow2(e) as int == 1);
        let sel = if col == ACCUMULATOR_COL {
            0
        } else {
            col as int
        };
        assert(sel == selector as int);
        assert(sel / 1 == sel);
        assert(layers@[0] == selector_layer(col, 0));
    }
    layers
}

/// `sum_i tensor[i] trace[i] mod q`: the value that a batched projection
/// must have as its constant coefficient.
pub fn batched_projection_value(tensor: &Vec<u64>, trace: &Vec<u64>) -> (r: u64)
    requires
        tensor.len() >= trace.len(),
        trace.len() < 0x4000,
    ensures
        r as int == prod_sum(tensor@, trace@, trace.len() as int) % q(),
        r < Q,
{
    let n = trace.len();
    let mut sum: u64 = 0;
    let mut i: usize = 0;
    while i < n
        invariant
            n == trace.len(),
            tensor.len() >= n,
            n < 0x4000,
            i <= n,
            sum <= i * Q,
            sum as int % q() == prod_sum(tensor@, trace@, i as int) % q(),
        decreases n - i,
    {
        let p = multiply_mod(tensor[i], trace[i], Q);
        proof {
            lemma_add_mod_noop(sum as int, p as int, q());
            lemma_add_mod_noop(
                prod_sum(tensor@, trace@, i as int),
                tensor@[i as int] * trace@[i as int],
                q(),
            );
            lemma_mod_twice(tensor@[i as int] * trace@[i as int], q());
        }
        sum = sum + p;
        i = i + 1;
    }
    proof {
        lemma_mod_bound(sum as int, q());
    }
    sum % Q
}

/// The trace check of one batching point: the constant coefficient of the
/// batched projection equals `sum_i tensor[i] trace[i] mod q`.
pub fn check_batched_projection(tensor: &Vec<u64>, trace: &Vec<u64>, constant_term: u64) -> (r: bool)
    requires
        tensor.len() >= trace.len(),
        trace.len() < 0x4000,
    ensures
        r <==> constant_term as int == prod_sum(tensor@, trace@, trace.len() as int) % q(),
{
    let expected = batched_projection_value(tensor, trace);
    constant_term == expected
}

/// Slot batching as a `2 x 128` matrix over `F_q`: row `k` holds coordinate
/// `k` of the batched image of each unit vector, so batching an element is
/// two inner products with its lanes.
pub struct SlotBatcher {
    pub rows: [[u64; 128]; 2],
}

/// `sum_{lane < n} row[lane] v[lane] mod q`, one reduced product at a time.
fn row_dot(row: &[u64; 128], v: &[u64; 128]) -> (r: u64)
    ensures
        r as int == prod_sum(row@, v@, 128) % q(),
        r < Q,
{
    let mut sum: u64 = 0;
    let mut i: usize = 0;
    while i < 128
        invariant
            i <= 128,
            sum <= i * Q,
            sum as int % q() == prod_sum(row@, v@, i as int) % q(),
        decreases 128 - i,
    {
        let p = multiply_mod(row[i], v[i], Q);
        proof {
            lemma_add_mod_noop(sum as int, p as int, q());
            lemma_add_mod_noop(prod_sum(row@, v@, i as int), row@[i as int] * v@[i as int], q());
            lemma_mod_twice(row@[i as int] * v@[i as int], q());
        }
        sum = sum + p;
        i = i + 1;
    }
    proof {
        lemma_mod_bound(sum as int, q());
    }
    sum % Q
}

impl SlotBatcher {
    /// The batcher with the given image rows.
    pub fn from_rows(rows: [[u64; 128]; 2]) -> (r: SlotBatcher)
        ensures
            r.rows == rows,
    {
        SlotBatcher { rows }
    }

    /// The image rows.
    pub fn rows(&self) -> (r: [[u64; 128]; 2])
        ensures
            r == self.rows,
    {
        self.rows
    }

    /// The batched value of an element given by its 128 lanes.
    pub fn apply(&self, element: &[u64; 128]) -> (r: QuadraticExtension)
        ensures
            r.c0 as int == prod_sum(self.rows[0]@, element@, 128) % q(),
            r.c1 as int == prod_sum(self.rows[1]@, element@, 128) % q(),
            qe_valid(r),
    {
        let c0 = row_dot(&self.rows[0], element);
        let c1 = row_dot(&self.rows[1], element);
        QuadraticExtension { c0, c1 }
    }

    /// `apply` on every element.
    pub fn apply_all(&self, elements: &Vec<[u64; 128]>) -> (r: Vec<QuadraticExtension>)
        ensures
            r.len() == elements.len(),
            forall|i: int|
                0 <= i < elements.len() ==> (#[trigger] r@[i]).c0 as int == prod_sum(
                    self.rows[0]@,
                    elements@[i]@,
                    128,
                ) % q() && r@[i].c1 as int == prod_sum(self.rows[1]@, elements@[i]@, 128) % q(),
    {
        let mut out: Vec<QuadraticExtension> = Vec::new();
        let mut i: usize = 0;
        while i < elements.len()
            invariant
                i <= elements.len(),
                out.len() == i,
                forall|j: int|
                    0 <= j < i ==> (#[trigger] out@[j]).c0 as int == prod_sum(
                        self.rows[0]@,
                        elements@[j]@,
                        128,
                    ) % q() && out@[j].c1 as int == prod_sum(self.rows[1]@, elements@[j]@, 128)
                        % q(),
            decreases elements.len() - i,
        {
            let v = self.apply(&elements[i]);
            out.push(v);
            i = i + 1;
        }
        out
    }
}

/// How the sumcheck rounds of a fold split: the output and middle variables
/// of the projection chain (the prefix rounds) and the witness variables
/// (selector plus row index).
#[derive(Clone, Copy, Debug, PartialEq, Eq, Structural)]
pub struct RoundLayout {
    pub output_vars: usize,
    pub input_vars: usize,
    pub middle_vars: usize,
    pub witness_vars: usize,
    pub prefix_rounds: usize,
    pub rounds: usize,
    pub block_vars: usize,
}

/// The round layout of a fold of `m` rows whose first coarse layer has
/// ratio `coarse_ratio` and whose fine layer has `output_height` rows.
pub fn round_layout(m: usize, coarse_ratio: usize, output_height: usize) -> (r: RoundLayout)
    requires
        m > 0,
        FRESH_INPUTS * m <= usize::MAX,
        coarse_ratio > 0,
        output_height > 0,
        log2_floor(output_height as nat) + log2_floor(coarse_ratio as nat) <= log2_floor(
            (FRESH_INPUTS * m) as nat,
        ),
    ensures
        r.output_vars == log2_floor(output_height as nat),
        r.input_vars == log2_floor((FRESH_INPUTS * m) as nat),
        r.middle_vars == r.input_vars - log2_floor(coarse_ratio as nat),
        r.witness_vars == FRESH_SELECTOR_VARS + log2_floor(m as nat),
        r.prefix_rounds == r.output_vars + r.middle_vars,
        r.rounds == r.prefix_rounds + r.witness_vars,
        r.block_vars == r.middle_vars - r.output_vars,
{
    let output_vars = log2_usize(output_height) as usize;
    let input_vars = log2_usize(FRESH_INPUTS * m) as usize;
    let middle_vars = input_vars - log2_usize(coarse_ratio) as usize;
    let witness_vars = FRESH_SELECTOR_VARS + log2_usize(m) as usize;
    let prefix_rounds = output_vars + middle_vars;
    let rounds = prefix_rounds + witness_vars;
    RoundLayout {
        output_vars,
        input_vars,
        middle_vars,
        witness_vars,
        prefix_rounds,
        rounds,
        block_vars: middle_vars - output_vars,
    }
}

} // verus!
