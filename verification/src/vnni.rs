//! Products of short signed coefficients with residues mod `q`: every
//! residue is split into four 13-bit chunks, the `i16` coefficients are
//! multiplied by the chunks, and the four chunk sums are recombined mod `q`
//! with a bias that keeps every intermediate non-negative.
use crate::config::DEGREE;
use crate::ifma::{q, reduce_u128, Q};
use crate::qe_vec::{prod_sum, qe_vec_valid, QeVec};
use vstd::arithmetic::div_mod::*;
use vstd::prelude::*;

verus! {

/// `2^13`, the radix of the chunk decomposition.
pub open spec fn radix() -> int {
    8192
}

/// The `j`-th 13-bit chunk of `value`.
pub open spec fn chunk(value: u64, j: int) -> int {
    (value as int / pow_radix(j)) % radix()
}

/// `2^(13 j)` for `j` in `0..4`.
pub open spec fn pow_radix(j: int) -> int {
    if j <= 0 {
        1
    } else if j == 1 {
        8192
    } else if j == 2 {
        67108864
    } else {
        549755813888
    }
}

/// The value that four chunk sums stand for: `sum_j s[j] * 2^(13 j)`.
pub open spec fn chunk_value(s: [i64; 4]) -> int {
    s[0] as int + s[1] as int * 8192 + s[2] as int * 67108864 + s[3] as int * 549755813888
}

/// The four 13-bit chunks of a residue, low chunk first.
pub fn chunks_of(value: u64) -> (c: [i16; 4])
    ensures
        forall|j: int| 0 <= j < 4 ==> #[trigger] c[j] as int == chunk(value, j),
{
    let c0 = value & 8191;
    let c1 = (value >> 13u64) & 8191;
    let c2 = (value >> 26u64) & 8191;
    let c3 = (value >> 39u64) & 8191;
    assert(value & 8191 == value % 8192) by (bit_vector);
    assert((value >> 13u64) & 8191 == (value / 8192) % 8192) by (bit_vector);
    assert((value >> 26u64) & 8191 == (value / 67108864) % 8192) by (bit_vector);
    assert((value >> 39u64) & 8191 == (value / 549755813888) % 8192) by (bit_vector);
    [c0 as i16, c1 as i16, c2 as i16, c3 as i16]
}

/// A residue below `2^52` is recovered from its four chunks.
pub proof fn lemma_chunks_recompose(value: u64)
    requires
        value < 0x10_0000_0000_0000,
    ensures
        chunk(value, 0) + chunk(value, 1) * 8192 + chunk(value, 2) * 67108864 + chunk(value, 3)
            * 549755813888 == value,
{
    let v = value as int;
    lemma_fundamental_div_mod(v, 8192);
    lemma_fundamental_div_mod(v / 8192, 8192);
    lemma_fundamental_div_mod(v / 67108864, 8192);
    lemma_div_denominator(v, 8192, 8192);
    lemma_div_denominator(v, 67108864, 8192);
    lemma_div_denominator(v, 8192, 67108864);
    lemma_div_is_ordered(v, 0x10_0000_0000_0000, 549755813888);
    assert(0x10_0000_0000_0000int / 549755813888 == 8192);
    lemma_small_mod((v / 549755813888) as nat, 8192);
}

/// Recombines four chunk sums mod `q`. Each sum is shifted up by
/// `2^bias` before the reduction and the shift is taken off afterwards, so
/// negative chunk sums are handled exactly.
pub fn combine_chunks(s: [i64; 4], bias: u32) -> (r: u64)
    requires
        bias < 62,
        forall|j: int|
            0 <= j < 4 ==> 0 <= #[trigger] s[j] as int + vstd::arithmetic::power2::pow2(bias as nat) <= i64::MAX,
    ensures
        r as int == chunk_value(s) % q(),
{
    proof {
        vstd::bits::lemma_u64_pow2_no_overflow(bias as nat);
        vstd::bits::lemma_u64_shl_is_mul(1, bias as u64);
        vstd::arithmetic::power2::lemma2_to64();
        vstd::arithmetic::power2::lemma_pow2_strictly_increases(bias as nat, 62);
        vstd::arithmetic::power2::lemma2_to64_rest();
    }
    let shift: u64 = 1u64 << (bias as u64);
    assert(shift < 0x4000_0000_0000_0000u64);
    let shift_i: i64 = shift as i64;
    let t0: u128 = (s[0] + shift_i) as u128;
    let t1: u128 = (s[1] + shift_i) as u128;
    let t2: u128 = (s[2] + shift_i) as u128;
    let t3: u128 = (s[3] + shift_i) as u128;
    let n: u128 = t0 + t1 * 8192 + t2 * 67108864 + t3 * 549755813888;
    let b: u128 = (shift as u128) * 549822930945u128;
    let nr = reduce_u128(n);
    let br = reduce_u128(b);
    proof {
        let sv = chunk_value(s);
        assert(n as int == sv + b as int);
        lemma_mod_bound(n as int, q());
        lemma_mod_bound(b as int, q());
        lemma_sub_mod_noop(n as int, b as int, q());
        if nr < br {
            lemma_mod_add_multiples_vanish(nr as int - br as int, q());
            lemma_small_mod((nr + Q - br) as nat, Q as nat);
        } else {
            lemma_small_mod((nr - br) as nat, Q as nat);
        }
    }
    if nr >= br {
        nr - br
    } else {
        nr + Q - br
    }
}

/// `sum_{lane < n} w[lane] * row[lane]` over the integers.
pub open spec fn dot_prefix(w: Seq<i16>, row: Seq<u64>, n: int) -> int
    decreases n,
{
    if n <= 0 {
        0
    } else {
        dot_prefix(w, row, n - 1) + w[n - 1] as int * row[n - 1] as int
    }
}

/// `sum_{lane < n} w[lane] * chunk_j(row[lane])` over the integers.
pub open spec fn chunk_dot_prefix(w: Seq<i16>, row: Seq<u64>, j: int, n: int) -> int
    decreases n,
{
    if n <= 0 {
        0
    } else {
        chunk_dot_prefix(w, row, j, n - 1) + w[n - 1] as int * chunk(row[n - 1], j)
    }
}

proof fn lemma_chunk_dot_bound(w: Seq<i16>, row: Seq<u64>, j: int, n: int)
    requires
        0 <= n <= w.len(),
        forall|i: int| 0 <= i < w.len() ==> -1024 <= #[trigger] w[i] <= 1024,
    ensures
        -8387584 * n <= chunk_dot_prefix(w, row, j, n) <= 8387584 * n,
    decreases n,
{
    if n > 0 {
        lemma_chunk_dot_bound(w, row, j, n - 1);
        let c = chunk(row[n - 1], j);
        lemma_mod_bound(row[n - 1] as int / pow_radix(j), radix());
        assert(0 <= c < 8192);
        let x = w[n - 1] as int;
        assert(chunk_dot_prefix(w, row, j, n) == chunk_dot_prefix(w, row, j, n - 1) + x * c);
        let prev = chunk_dot_prefix(w, row, j, n - 1);
        assert(-8387584 * n <= prev + x * c <= 8387584 * n) by (nonlinear_arith)
            requires
                -8387584 * (n - 1) <= prev <= 8387584 * (n - 1),
                -1024 <= x <= 1024,
                0 <= c < 8192,
        ;
        assert(-1024 * 8191 <= x * c <= 1024 * 8191) by (nonlinear_arith)
            requires
                -1024 <= x <= 1024,
                0 <= c < 8192,
        ;
    }
}

proof fn lemma_dot_splits_into_chunks(w: Seq<i16>, row: Seq<u64>, n: int)
    requires
        0 <= n <= w.len(),
        n <= row.len(),
        forall|i: int| 0 <= i < row.len() ==> #[trigger] row[i] < 0x10_0000_0000_0000u64,
    ensures
        dot_prefix(w, row, n) == chunk_dot_prefix(w, row, 0, n) + chunk_dot_prefix(w, row, 1, n)
            * 8192 + chunk_dot_prefix(w, row, 2, n) * 67108864 + chunk_dot_prefix(w, row, 3, n)
            * 549755813888,
    decreases n,
{
    if n > 0 {
        lemma_dot_splits_into_chunks(w, row, n - 1);
        let v = row[n - 1];
        lemma_chunks_recompose(v);
        let x = w[n - 1] as int;
        assert(x * v as int == x * chunk(v, 0) + x * chunk(v, 1) * 8192 + x * chunk(v, 2)
            * 67108864 + x * chunk(v, 3) * 549755813888) by (nonlinear_arith)
            requires
                chunk(v, 0) + chunk(v, 1) * 8192 + chunk(v, 2) * 67108864 + chunk(v, 3)
                    * 549755813888 == v,
        ;
    }
}

/// `sum_lane element[lane] * row[lane] mod q` for one signed coefficient
/// vector and one residue row, through the chunk decomposition.
pub fn dot_row_i16(element: &[i16; 128], row: &[u64; 128]) -> (r: u64)
    requires
        forall|i: int| 0 <= i < 128 ==> -1024 <= #[trigger] element[i] <= 1024,
        forall|i: int| 0 <= i < 128 ==> #[trigger] row[i] < 0x10_0000_0000_0000u64,
    ensures
        r as int == dot_prefix(element@, row@, 128) % q(),
{
    let mut sums: [i64; 4] = [0; 4];
    let mut j: usize = 0;
    while j < 4
        invariant
            j <= 4,
            forall|i: int| 0 <= i < 128 ==> -1024 <= #[trigger] element@[i] <= 1024,
            forall|t: int| 0 <= t < j ==> sums[t] as int == chunk_dot_prefix(element@, row@, t, 128),
        decreases 4 - j,
    {
        let mut acc: i64 = 0;
        let mut lane: usize = 0;
        while lane < DEGREE
            invariant
                lane <= 128,
                j < 4,
                forall|i: int| 0 <= i < 128 ==> -1024 <= #[trigger] element@[i] <= 1024,
                acc as int == chunk_dot_prefix(element@, row@, j as int, lane as int),
            decreases 128 - lane,
        {
            proof {
                lemma_chunk_dot_bound(element@, row@, j as int, lane as int);
            }
            let c = chunks_of(row[lane]);
            proof {
                lemma_mod_bound(row@[lane as int] as int / pow_radix(j as int), radix());
                let x = element@[lane as int] as int;
                let cc = c[j as int] as int;
                assert(cc == chunk(row@[lane as int], j as int));
                let a = acc as int;
                let l = lane as int;
                assert(-0x100_0000_0000 <= a + x * cc <= 0x100_0000_0000 && -8387584 <= x * cc
                    <= 8387584) by (nonlinear_arith)
                    requires
                        -1024 <= x <= 1024,
                        0 <= cc < 8192,
                        -8387584 * l <= a <= 8387584 * l,
                        0 <= l <= 128,
                ;
            }
            acc = acc + (element[lane] as i64) * (c[j] as i64);
            lane = lane + 1;
        }
        sums[j] = acc;
        j = j + 1;
    }
    proof {
        vstd::arithmetic::power2::lemma2_to64();
        vstd::arithmetic::power2::lemma_pow2_strictly_increases(30, 63);
        lemma_chunk_dot_bound(element@, row@, 0, 128);
        lemma_chunk_dot_bound(element@, row@, 1, 128);
        lemma_chunk_dot_bound(element@, row@, 2, 128);
        lemma_chunk_dot_bound(element@, row@, 3, 128);
        lemma_dot_splits_into_chunks(element@, row@, 128);
        assert(vstd::arithmetic::power2::pow2(30) == 0x4000_0000) by {
            vstd::arithmetic::power2::lemma2_to64();
        }
    }
    combine_chunks(sums, 30)
}

/// Every row dotted with every coefficient vector: `out[k][e]` is
/// `sum_lane elements[e][lane] * rows[k][lane] mod q`.
pub fn dot_rows_i16(elements: &Vec<[i16; 128]>, rows: &Vec<[u64; 128]>) -> (out: Vec<Vec<u64>>)
    requires
        forall|e: int, i: int|
            0 <= e < elements.len() && 0 <= i < 128 ==> -1024 <= #[trigger] elements[e][i] <= 1024,
        forall|k: int, i: int|
            0 <= k < rows.len() && 0 <= i < 128 ==> #[trigger] rows[k][i] < 0x10_0000_0000_0000u64,
    ensures
        out.len() == rows.len(),
        forall|k: int| 0 <= k < rows.len() ==> #[trigger] out[k].len() == elements.len(),
        forall|k: int, e: int|
            0 <= k < rows.len() && 0 <= e < elements.len() ==> #[trigger] out[k][e] as int
                == dot_prefix(elements[e]@, rows[k]@, 128) % q(),
{
    let mut out: Vec<Vec<u64>> = Vec::new();
    let mut k: usize = 0;
    while k < rows.len()
        invariant
            k <= rows.len(),
            out.len() == k,
            forall|ee: int, i: int|
                0 <= ee < elements.len() && 0 <= i < 128 ==> -1024 <= #[trigger] elements[ee][i]
                    <= 1024,
            forall|kk: int, i: int|
                0 <= kk < rows.len() && 0 <= i < 128 ==> #[trigger] rows[kk][i]
                    < 0x10_0000_0000_0000u64,
            forall|kk: int| 0 <= kk < k ==> #[trigger] out[kk].len() == elements.len(),
            forall|kk: int, e: int|
                0 <= kk < k && 0 <= e < elements.len() ==> #[trigger] out[kk][e] as int
                    == dot_prefix(elements[e]@, rows[kk]@, 128) % q(),
        decreases rows.len() - k,
    {
        let mut column: Vec<u64> = Vec::new();
        let mut e: usize = 0;
        while e < elements.len()
            invariant
                e <= elements.len(),
                k < rows.len(),
                column.len() == e,
                forall|ee: int, i: int|
                    0 <= ee < elements.len() && 0 <= i < 128 ==> -1024 <= #[trigger] elements[ee][i]
                        <= 1024,
                forall|kk: int, i: int|
                    0 <= kk < rows.len() && 0 <= i < 128 ==> #[trigger] rows[kk][i]
                        < 0x10_0000_0000_0000u64,
                forall|ee: int|
                    0 <= ee < e ==> #[trigger] column[ee] as int == dot_prefix(
                        elements[ee]@,
                        rows[k as int]@,
                        128,
                    ) % q(),
            decreases elements.len() - e,
        {
            proof {
                assert forall|i: int| 0 <= i < 128 implies -1024 <= #[trigger] elements[e as int][i]
                    <= 1024 by {
                    assert(-1024 <= elements[e as int][i] <= 1024);
                }
                assert forall|i: int| 0 <= i < 128 implies #[trigger] rows[k as int][i]
                    < 0x10_0000_0000_0000u64 by {
                    assert(rows[k as int][i] < 0x10_0000_0000_0000u64);
                }
            }
            let value = dot_row_i16(&elements[e], &rows[k]);
            column.push(value);
            e = e + 1;
        }
        out.push(column);
        k = k + 1;
    }
    out
}

/// Lane `lane` of the `n` coefficient vectors from `base` on.
pub open spec fn lane_column(elements: Seq<[i16; 128]>, base: int, lane: int, n: int) -> Seq<i16> {
    Seq::new(n as nat, |x: int| elements[base + x][lane])
}

/// `sum_{x < n} elements[base + x][lane] w[x] mod q` through the chunk
/// decomposition of the weights, with chunk sums biased by `2^60`.
fn lane_dot_i16(elements: &Vec<[i16; 128]>, base: usize, lane: usize, w: &Vec<u64>, n: usize) -> (r: u64)
    requires
        lane < 128,
        base + n <= elements.len(),
        n <= w.len(),
        n <= 0x10_0000_0000,
        forall|e: int, i: int|
            0 <= e < elements.len() && 0 <= i < 128 ==> -1024 <= #[trigger] elements@[e][i] <= 1024,
        forall|i: int| 0 <= i < w.len() ==> #[trigger] w@[i] < Q,
    ensures
        r as int == dot_prefix(lane_column(elements@, base as int, lane as int, n as int), w@, n as int)
            % q(),
{
    let ghost col = lane_column(elements@, base as int, lane as int, n as int);
    proof {
        assert forall|i: int| 0 <= i < col.len() implies -1024 <= #[trigger] col[i] <= 1024 by {
            assert(col[i] == elements@[base + i][lane as int]);
        }
    }
    let mut sums: [i64; 4] = [0; 4];
    let mut j: usize = 0;
    while j < 4
        invariant
            j <= 4,
            lane < 128,
            base + n <= elements.len(),
            n <= w.len(),
            n <= 0x10_0000_0000,
            col == lane_column(elements@, base as int, lane as int, n as int),
            forall|i: int| 0 <= i < col.len() ==> -1024 <= #[trigger] col[i] <= 1024,
            forall|i: int| 0 <= i < w.len() ==> #[trigger] w@[i] < Q,
            forall|t: int| 0 <= t < j ==> sums[t] as int == chunk_dot_prefix(col, w@, t, n as int),
        decreases 4 - j,
    {
        let mut acc: i64 = 0;
        let mut x: usize = 0;
        while x < n
            invariant
                x <= n,
                j < 4,
                lane < 128,
                base + n <= elements.len(),
                n <= w.len(),
                n <= 0x10_0000_0000,
                col == lane_column(elements@, base as int, lane as int, n as int),
                forall|i: int| 0 <= i < col.len() ==> -1024 <= #[trigger] col[i] <= 1024,
                forall|i: int| 0 <= i < w.len() ==> #[trigger] w@[i] < Q,
                acc as int == chunk_dot_prefix(col, w@, j as int, x as int),
            decreases n - x,
        {
            proof {
                lemma_chunk_dot_bound(col, w@, j as int, x as int);
            }
            let c = chunks_of(w[x]);
            let e = elements[base + x][lane];
            proof {
                assert(col[x as int] == e);
                lemma_mod_bound(w@[x as int] as int / pow_radix(j as int), radix());
                let xe = e as int;
                let cc = c[j as int] as int;
                assert(cc == chunk(w@[x as int], j as int));
                let a = acc as int;
                let l = x as int;
                assert(-0x1000_0000_0000_0000 <= a + xe * cc <= 0x1000_0000_0000_0000 && -8387584
                    <= xe * cc <= 8387584) by (nonlinear_arith)
                    requires
                        -1024 <= xe <= 1024,
                        0 <= cc < 8192,
                        -8387584 * l <= a <= 8387584 * l,
                        0 <= l <= 0x10_0000_0000,
                ;
            }
            acc = acc + (e as i64) * (c[j] as i64);
            x = x + 1;
        }
        sums[j] = acc;
        j = j + 1;
    }
    proof {
        vstd::arithmetic::power2::lemma2_to64();
        vstd::arithmetic::power2::lemma2_to64_rest();
        lemma_chunk_dot_bound(col, w@, 0, n as int);
        lemma_chunk_dot_bound(col, w@, 1, n as int);
        lemma_chunk_dot_bound(col, w@, 2, n as int);
        lemma_chunk_dot_bound(col, w@, 3, n as int);
        assert forall|i: int| 0 <= i < w.len() implies #[trigger] w@[i] < 0x10_0000_0000_0000u64 by {}
        lemma_dot_splits_into_chunks(col, w@, n as int);
        let nn = n as int;
        assert(8387584 * nn <= 0x800_0000_0000_0000) by (nonlinear_arith)
            requires
                0 <= nn <= 0x10_0000_0000,
        ;
    }
    combine_chunks(sums, 60)
}

/// The coefficient-domain contraction of short coefficient vectors against
/// extension weights, limb by limb: `out[t][limb][lane] = sum_x
/// weights_limb[x] elements[t * len + x][lane] mod q`, `len = weights.len()`.
pub fn contract_i16_parts(elements: &Vec<[i16; 128]>, weights: &QeVec) -> (out: Vec<[[u64; 128]; 2]>)
    requires
        qe_vec_valid(weights),
        weights.limb0.len() > 0,
        elements.len() % weights.limb0.len() == 0,
        weights.limb0.len() % 256 == 0,
        weights.limb0.len() <= 0x10_0000_0000,
        forall|e: int, i: int|
            0 <= e < elements.len() && 0 <= i < 128 ==> -1024 <= #[trigger] elements@[e][i] <= 1024,
    ensures
        out.len() == elements.len() / weights.limb0.len(),
        forall|t: int, lane: int|
            0 <= t < out.len() && 0 <= lane < 128 ==> #[trigger] out@[t][0][lane] as int == dot_prefix(
                lane_column(elements@, t * weights.limb0.len(), lane, weights.limb0.len() as int),
                weights.limb0@,
                weights.limb0.len() as int,
            ) % q(),
        forall|t: int, lane: int|
            0 <= t < out.len() && 0 <= lane < 128 ==> #[trigger] out@[t][1][lane] as int == dot_prefix(
                lane_column(elements@, t * weights.limb0.len(), lane, weights.limb0.len() as int),
                weights.limb1@,
                weights.limb0.len() as int,
            ) % q(),
{
    let len = weights.len();
    let blocks = elements.len() / len;
    proof {
        lemma_fundamental_div_mod(elements.len() as int, len as int);
    }
    let mut out: Vec<[[u64; 128]; 2]> = Vec::new();
    let mut t: usize = 0;
    while t < blocks
        invariant
            qe_vec_valid(weights),
            len == weights.limb0.len(),
            len > 0,
            len <= 0x10_0000_0000,
            blocks == elements.len() / len,
            len * blocks == elements.len(),
            forall|e: int, i: int|
                0 <= e < elements.len() && 0 <= i < 128 ==> -1024 <= #[trigger] elements@[e][i] <= 1024,
            t <= blocks,
            out.len() == t,
            forall|tt: int, lane: int|
                0 <= tt < t && 0 <= lane < 128 ==> #[trigger] out@[tt][0][lane] as int == dot_prefix(
                    lane_column(elements@, tt * len, lane, len as int),
                    weights.limb0@,
                    len as int,
                ) % q(),
            forall|tt: int, lane: int|
                0 <= tt < t && 0 <= lane < 128 ==> #[trigger] out@[tt][1][lane] as int == dot_prefix(
                    lane_column(elements@, tt * len, lane, len as int),
                    weights.limb1@,
                    len as int,
                ) % q(),
        decreases blocks - t,
    {
        assert((t + 1) * len <= blocks * len) by (nonlinear_arith)
            requires
                t < blocks,
        ;
        assert(t * len + len == (t + 1) * len) by (nonlinear_arith);
        assert(len * blocks == blocks * len) by (nonlinear_arith);
        let base = t * len;
        let mut plain = [0u64; 128];
        let mut alpha_part = [0u64; 128];
        let mut lane: usize = 0;
        while lane < 128
            invariant
                qe_vec_valid(weights),
                len == weights.limb0.len(),
                len <= 0x10_0000_0000,
                base + len <= elements.len(),
                forall|e: int, i: int|
                    0 <= e < elements.len() && 0 <= i < 128 ==> -1024 <= #[trigger] elements@[e][i]
                        <= 1024,
                lane <= 128,
                forall|l: int|
                    0 <= l < lane ==> #[trigger] plain[l] as int == dot_prefix(
                        lane_column(elements@, base as int, l, len as int),
                        weights.limb0@,
                        len as int,
                    ) % q(),
                forall|l: int|
                    0 <= l < lane ==> #[trigger] alpha_part[l] as int == dot_prefix(
                        lane_column(elements@, base as int, l, len as int),
                        weights.limb1@,
                        len as int,
                    ) % q(),
            decreases 128 - lane,
        {
            plain[lane] = lane_dot_i16(elements, base, lane, &weights.limb0, len);
            alpha_part[lane] = lane_dot_i16(elements, base, lane, &weights.limb1, len);
            lane = lane + 1;
        }
        out.push([plain, alpha_part]);
        t = t + 1;
    }
    out
}

/// A pass over short signed coefficients agrees, mod `q`, with the same pass
/// over their residues: `sum w[i] row[i] = sum row[i] e[i]` mod `q` when each
/// `e[i]` is the residue of `w[i]`.
pub proof fn lemma_short_dot_matches_residue_dot(w: Seq<i16>, e: Seq<u64>, row: Seq<u64>, n: int)
    requires
        0 <= n <= w.len(),
        n <= e.len(),
        n <= row.len(),
        forall|i: int| 0 <= i < n ==> #[trigger] e[i] as int == (w[i] as int) % q(),
    ensures
        dot_prefix(w, row, n) % q() == prod_sum(row, e, n) % q(),
    decreases n,
{
    if n > 0 {
        lemma_short_dot_matches_residue_dot(w, e, row, n - 1);
        let a = w[n - 1] as int;
        let r = row[n - 1] as int;
        lemma_mul_mod_noop_left(a, r, q());
        lemma_mul_mod_noop_right(r, a, q());
        assert(a * r == r * a) by (nonlinear_arith);
        assert((a * r) % q() == (r * (e[n - 1] as int)) % q()) by {
            lemma_mul_mod_noop_right(r, e[n - 1] as int, q());
            lemma_mod_twice(a, q());
        }
        lemma_add_mod_noop(dot_prefix(w, row, n - 1), a * r, q());
        lemma_add_mod_noop(prod_sum(row, e, n - 1), r * (e[n - 1] as int), q());
    }
}

} // verus!
