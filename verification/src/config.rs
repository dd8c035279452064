//! Parameters of one fold: ring degree, folding arity, witness bounds,
//! commitment ranks and the shape of the layered random projection.
use vstd::arithmetic::power2::pow2;
use vstd::prelude::*;

verus! {

/// Degree of the cyclotomic ring `Z_q[X]/(X^128 + 1)`.
pub const DEGREE: usize = 128;

/// Half of the ring degree: the number of incomplete-NTT slots.
pub const HALF_DEGREE: usize = 64;

/// The default witness height exponent, `m = 2^20`.
pub const DEFAULT_LOG_M: usize = 20;

/// Number of fresh inputs folded in one step.
pub const FRESH_INPUTS: usize = 2;

/// Number of accumulators folded in one step.
pub const ACCUMULATORS: usize = 1;

/// Number of witness columns that take part in a fold.
pub const FOLD_INPUTS: usize = 3;

/// Column index of the accumulator (it follows the fresh inputs).
pub const ACCUMULATOR_COL: usize = 2;

/// Number of variables that select among the fresh inputs, `log2(FRESH_INPUTS)`.
pub const FRESH_SELECTOR_VARS: usize = 1;

/// Infinity-norm bound of the fresh witness coefficients, `2^10`.
pub const WITNESS_COEFF_BOUND: u64 = 1024;

/// Hamming weight of a fold challenge.
pub const FOLD_CHALLENGE_WEIGHT: usize = 23;

/// Number of layers of the random projection (two coarse, one fine).
pub const PROJECTION_LAYERS: usize = 3;

/// Number of rows of every projection layer, `2 * DEGREE`.
pub const PROJECTION_ROWS: usize = 256;

/// Number of trace-batching points.
pub const PROJECTION_BATCH_POINTS: usize = 2;

/// Number of ring elements in the projection trace, `PROJECTION_ROWS / DEGREE`.
pub const TRACE_RING_LEN: usize = 2;

/// `log2(PROJECTION_ROWS)`.
pub const PROJECTION_ROWS_LOG: usize = 8;

/// The floor of the base-2 logarithm (0 for 0 and 1).
pub open spec fn log2_floor(n: nat) -> nat
    decreases n,
{
    if n < 2 {
        0
    } else {
        1 + log2_floor(n / 2)
    }
}

/// Bounds `n` between two powers of two around its logarithm.
pub proof fn lemma_log2_bounds(n: nat)
    requires
        n >= 1,
    ensures
        pow2(log2_floor(n)) <= n < pow2(log2_floor(n) + 1),
    decreases n,
{
    vstd::arithmetic::power2::lemma2_to64();
    if n >= 2 {
        lemma_log2_bounds(n / 2);
        vstd::arithmetic::power2::lemma_pow2_unfold(log2_floor(n));
        vstd::arithmetic::power2::lemma_pow2_unfold(log2_floor(n) + 1);
    }
}

/// The logarithm of an exact power of two.
pub proof fn lemma_log2_of_pow2(k: nat)
    ensures
        log2_floor(pow2(k)) == k,
    decreases k,
{
    vstd::arithmetic::power2::lemma2_to64();
    if k > 0 {
        vstd::arithmetic::power2::lemma_pow2_unfold(k);
        vstd::arithmetic::power2::lemma_pow2_pos((k - 1) as nat);
        lemma_log2_of_pow2((k - 1) as nat);
    }
}

/// `floor(log2(n))` for a positive `n`.
pub fn log2_usize(n: usize) -> (r: u32)
    requires
        n > 0,
    ensures
        r as nat == log2_floor(n as nat),
        r < 64,
{
    let mut x = n;
    let mut r: u32 = 0;
    proof {
        vstd::arithmetic::power2::lemma2_to64();
        vstd::arithmetic::power2::lemma2_to64_rest();
        lemma_log2_bounds(n as nat);
        if log2_floor(n as nat) >= 64 {
            vstd::arithmetic::power2::lemma_pow2_strictly_increases(64, log2_floor(n as nat));
        }
    }
    while x >= 2
        invariant
            x >= 1,
            x <= n,
            r as nat + log2_floor(x as nat) == log2_floor(n as nat),
            r as nat + log2_floor(x as nat) < 64,
        decreases x,
    {
        x = x / 2;
        r = r + 1;
    }
    proof {
        lemma_log2_bounds(n as nat);
        if log2_floor(n as nat) >= 64 {
            vstd::arithmetic::power2::lemma_pow2_strictly_increases(64, log2_floor(n as nat));
        }
    }
    r
}

/// The commitment rank that the parameter estimates give for a witness of
/// height `2^log_m`, for 32 sequential folding rounds.
pub open spec fn spec_commitment_rank(log_m: nat) -> nat {
    if log_m <= 20 {
        12
    } else {
        13
    }
}

/// Commitment rank for a witness of `m` ring elements per column.
pub fn commitment_rank(m: usize) -> (r: usize)
    requires
        m > 0,
    ensures
        r as nat == spec_commitment_rank(log2_floor(m as nat)),
{
    let log_m = log2_usize(m);
    if log_m <= 20 {
        12
    } else {
        13
    }
}

/// Why no projection chain fits a witness.
#[derive(Debug, Clone, Copy, PartialEq, Eq)]
pub enum ShapeError {
    /// The witness has fewer than `PROJECTION_ROWS * 2^(PROJECTION_LAYERS - 1)`
    /// ring elements: some coarse layer would not shrink.
    WitnessTooSmall,
}

/// The coarse shrink ratios: the total shrink exponent
/// `log2(FRESH_INPUTS * m) - log2(PROJECTION_ROWS)` split as evenly as
/// possible over the coarse layers, earlier layers taking the remainder.
pub open spec fn spec_projection_ratio(input_log: nat, layer: nat) -> nat {
    let shrink = (input_log - PROJECTION_ROWS_LOG) as nat;
    let coarse = (PROJECTION_LAYERS - 1) as nat;
    pow2(shrink / coarse + if layer < shrink % coarse { 1nat } else { 0nat })
}

/// Shape of the projection chain for `m` ring elements per fresh column: the
/// fan-in of each coarse layer.
pub fn projection_shape(m: usize) -> (r: Result<[usize; 2], ShapeError>)
    requires
        m > 0,
        FRESH_INPUTS * m <= usize::MAX,
    ensures
        log2_floor((FRESH_INPUTS * m) as nat) < PROJECTION_ROWS_LOG + PROJECTION_LAYERS - 1
            <==> r is Err,
        r matches Ok(ratios) ==> ratios[0] as nat == spec_projection_ratio(
            log2_floor((FRESH_INPUTS * m) as nat),
            0,
        ) && ratios[1] as nat == spec_projection_ratio(log2_floor((FRESH_INPUTS * m) as nat), 1),
        r matches Err(e) ==> e == ShapeError::WitnessTooSmall,
{
    let input_log = log2_usize(FRESH_INPUTS * m) as usize;
    if input_log < PROJECTION_ROWS_LOG + PROJECTION_LAYERS - 1 {
        return Err(ShapeError::WitnessTooSmall);
    }
    let shrink_log = input_log - PROJECTION_ROWS_LOG;
    let coarse_layers = PROJECTION_LAYERS - 1;
    let quotient = shrink_log / coarse_layers;
    let remainder = shrink_log % coarse_layers;
    let mut ratios = [0usize; 2];
    let mut layer: usize = 0;
    while layer < 2
        invariant
            layer <= 2,
            input_log < 64,
            input_log >= PROJECTION_ROWS_LOG + PROJECTION_LAYERS - 1,
            shrink_log == input_log - PROJECTION_ROWS_LOG,
            quotient == shrink_log / 2,
            remainder == shrink_log % 2,
            forall|i: int|
                0 <= i < layer ==> ratios[i] as nat == spec_projection_ratio(input_log as nat, i as nat),
        decreases 2 - layer,
    {
        let extra: usize = if layer < remainder { 1 } else { 0 };
        let exp = quotient + extra;
        proof {
            vstd::arithmetic::power2::lemma_pow2_strictly_increases(exp as nat, 64);
            vstd::bits::lemma_u64_pow2_no_overflow(exp as nat);
            vstd::bits::lemma_u64_shl_is_mul(1, exp as u64);
            vstd::arithmetic::power2::lemma2_to64();
            vstd::arithmetic::power2::lemma2_to64_rest();
        }
        let ratio: u64 = 1u64 << (exp as u64);
        ratios[layer] = ratio as usize;
        layer = layer + 1;
    }
    Ok(ratios)
}

/// The coarse layers together shrink the input exactly down to the
/// projection rows, and they are balanced: the first layer's fan-in is the
/// second's or twice it. For an input of `2^input_log` elements,
/// `ratio_0 * ratio_1 * PROJECTION_ROWS = 2^input_log`.
pub proof fn lemma_projection_ratios_cover_shrink(input_log: nat)
    requires
        input_log >= PROJECTION_ROWS_LOG + PROJECTION_LAYERS - 1,
    ensures
        spec_projection_ratio(input_log, 0) * spec_projection_ratio(input_log, 1) * pow2(
            PROJECTION_ROWS_LOG as nat,
        ) == pow2(input_log),
        spec_projection_ratio(input_log, 1) <= spec_projection_ratio(input_log, 0) <= 2
            * spec_projection_ratio(input_log, 1),
{
    let shrink = (input_log - PROJECTION_ROWS_LOG) as nat;
    let half = shrink / 2;
    let extra: nat = if 0 < shrink % 2 {
        1
    } else {
        0
    };
    assert(shrink == 2 * half + extra);
    vstd::arithmetic::power2::lemma_pow2_adds(half + extra, half);
    vstd::arithmetic::power2::lemma_pow2_adds(shrink, PROJECTION_ROWS_LOG as nat);
    vstd::arithmetic::power2::lemma_pow2_adds(half, 1);
    vstd::arithmetic::power2::lemma_pow2_pos(half);
    assert(pow2(1) == 2) by {
        vstd::arithmetic::power2::lemma2_to64();
    }
}

} // verus!
