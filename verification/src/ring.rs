//! Ring elements of `Z_q[X]/(X^128 + 1)` in incomplete-NTT form: 64 slots,
//! slot `i` the pair `(v[i], v[64 + i])` read as `v[i] + v[64 + i] Y` in
//! `F_q[Y]/(Y^2 - zeta_i)`. Products are taken slot by slot; the passes here
//! accumulate products unreduced in 128-bit lanes and reduce them in bulk.
use crate::config::{ACCUMULATOR_COL, FOLD_INPUTS, FRESH_INPUTS};
use crate::ifma::{q, reduce_u128, Q};
use crate::modq::{add_mod, multiply_mod};
use crate::qe_vec::{eq_entry, expand_eq_soa, prod_sum, qe_vec_valid, QeVec};
use crate::qe::{qe_valid, QuadraticExtension};
use vstd::arithmetic::power2::pow2;
use vstd::arithmetic::div_mod::*;
use vstd::prelude::*;

verus! {

/// Every lane is a residue modulo `q`.
pub open spec fn lanes_valid(v: [u64; 128]) -> bool {
    forall|i: int| 0 <= i < 128 ==> #[trigger] v[i] < Q
}

/// Lane `lane` of the slot-wise product `x y` before reduction: the even
/// lane of slot `i` is `a c + zeta_i b d`, the odd lane `a d + b c`, for
/// `x = (a, b)` and `y = (c, d)` in slot `i`.
pub open spec fn ring_product_lane(zeta: Seq<u64>, x: Seq<u64>, y: Seq<u64>, lane: int) -> int {
    if lane < 64 {
        x[lane] * y[lane] + zeta[lane] * (x[lane + 64] * y[lane + 64])
    } else {
        x[lane - 64] * y[lane] + x[lane] * y[lane - 64]
    }
}

/// What one lane of a product adds to a lazy accumulator: the even lane
/// uses `zeta_i d` already reduced.
pub open spec fn lazy_product_lane(zeta: Seq<u64>, x: Seq<u64>, y: Seq<u64>, lane: int) -> int {
    if lane < 64 {
        x[lane] * y[lane] + x[lane + 64] * ((zeta[lane] * y[lane + 64]) % q())
    } else {
        x[lane - 64] * y[lane] + x[lane] * y[lane - 64]
    }
}

/// The lazy lane term is congruent to the product lane and below `2^101`.
proof fn lemma_lazy_product_lane(zeta: Seq<u64>, x: Seq<u64>, y: Seq<u64>, lane: int)
    requires
        0 <= lane < 128,
        x.len() == 128,
        y.len() == 128,
        forall|i: int| 0 <= i < 128 ==> #[trigger] x[i] < Q,
        forall|i: int| 0 <= i < 128 ==> #[trigger] y[i] < Q,
    ensures
        lazy_product_lane(zeta, x, y, lane) % q() == ring_product_lane(zeta, x, y, lane) % q(),
        0 <= lazy_product_lane(zeta, x, y, lane) < 0x20_0000_0000_0000_0000_0000_0000,
{
    if lane < 64 {
        let a = x[lane] as int;
        let b = x[lane + 64] as int;
        let c = y[lane] as int;
        let d = y[lane + 64] as int;
        let z = zeta[lane] as int;
        let zd = (z * d) % q();
        lemma_mod_bound(z * d, q());
        lemma_mul_mod_noop_right(b, z * d, q());
        lemma_add_mod_noop(a * c, b * zd, q());
        lemma_add_mod_noop(a * c, b * (z * d), q());
        assert(b * (z * d) == z * (b * d)) by (nonlinear_arith);
        assert(0 <= a * c + b * zd < 0x20_0000_0000_0000_0000_0000_0000) by (nonlinear_arith)
            requires
                0 <= a < 0x4_0000_0000_0000,
                0 <= b < 0x4_0000_0000_0000,
                0 <= c < 0x4_0000_0000_0000,
                0 <= zd < 0x4_0000_0000_0000,
        ;
    } else {
        let a = x[lane - 64] as int;
        let b = x[lane] as int;
        let c = y[lane - 64] as int;
        let d = y[lane] as int;
        assert(0 <= a * d + b * c < 0x20_0000_0000_0000_0000_0000_0000) by (nonlinear_arith)
            requires
                0 <= a < 0x4_0000_0000_0000,
                0 <= b < 0x4_0000_0000_0000,
                0 <= c < 0x4_0000_0000_0000,
                0 <= d < 0x4_0000_0000_0000,
        ;
    }
}

/// The lazy term of one lane, computed in 128 bits.
fn lazy_lane(zeta: &[u64; 64], x: &[u64; 128], y: &[u64; 128], lane: usize) -> (r: u128)
    requires
        lane < 128,
        lanes_valid(*x),
        lanes_valid(*y),
    ensures
        r as int == lazy_product_lane(zeta@, x@, y@, lane as int),
        r < 0x20_0000_0000_0000_0000_0000_0000,
{
    proof {
        lemma_lazy_product_lane(zeta@, x@, y@, lane as int);
    }
    if lane < 64 {
        let zd = multiply_mod(zeta[lane], y[lane + 64], Q);
        assert((x[lane as int] as u128) * (y[lane as int] as u128) < 0x10_0000_0000_0000_0000_0000_0000u128) by (nonlinear_arith)
            requires
                x[lane as int] < 0x4_0000_0000_0000u64,
                y[lane as int] < 0x4_0000_0000_0000u64,
        ;
        assert((x[lane + 64] as u128) * (zd as u128) < 0x10_0000_0000_0000_0000_0000_0000u128) by (nonlinear_arith)
            requires
                x[lane + 64] < 0x4_0000_0000_0000u64,
                zd < 0x4_0000_0000_0000u64,
        ;
        (x[lane] as u128) * (y[lane] as u128) + (x[lane + 64] as u128) * (zd as u128)
    } else {
        assert((x[lane - 64] as u128) * (y[lane as int] as u128) < 0x10_0000_0000_0000_0000_0000_0000u128) by (nonlinear_arith)
            requires
                x[lane - 64] < 0x4_0000_0000_0000u64,
                y[lane as int] < 0x4_0000_0000_0000u64,
        ;
        assert((x[lane as int] as u128) * (y[lane - 64] as u128) < 0x10_0000_0000_0000_0000_0000_0000u128) by (nonlinear_arith)
            requires
                x[lane as int] < 0x4_0000_0000_0000u64,
                y[lane - 64] < 0x4_0000_0000_0000u64,
        ;
        (x[lane - 64] as u128) * (y[lane] as u128) + (x[lane] as u128) * (y[lane - 64] as u128)
    }
}

/// The slot-wise product `x y`, fully reduced.
pub fn ring_mul(x: &[u64; 128], y: &[u64; 128], zeta: &[u64; 64]) -> (r: [u64; 128])
    requires
        lanes_valid(*x),
        lanes_valid(*y),
    ensures
        lanes_valid(r),
        forall|lane: int| 0 <= lane < 128 ==> #[trigger] r[lane] as int == ring_product_lane(zeta@, x@, y@, lane) % q(),
{
    let mut out = [0u64; 128];
    let mut lane: usize = 0;
    while lane < 128
        invariant
            lanes_valid(*x),
            lanes_valid(*y),
            lane <= 128,
            forall|l: int| 0 <= l < lane ==> #[trigger] out[l] as int == ring_product_lane(zeta@, x@, y@, l) % q(),
            forall|l: int| 0 <= l < lane ==> #[trigger] out[l] < Q,
        decreases 128 - lane,
    {
        let t = lazy_lane(zeta, x, y, lane);
        let v = reduce_u128(t);
        proof {
            lemma_lazy_product_lane(zeta@, x@, y@, lane as int);
            lemma_mod_bound(t as int, q());
        }
        out[lane] = v;
        lane = lane + 1;
    }
    out
}

/// The lane-wise sum `x + y`, fully reduced.
pub fn ring_add(x: &[u64; 128], y: &[u64; 128]) -> (r: [u64; 128])
    requires
        lanes_valid(*x),
        lanes_valid(*y),
    ensures
        lanes_valid(r),
        forall|lane: int| 0 <= lane < 128 ==> #[trigger] r[lane] as int == (x[lane] + y[lane]) % q(),
{
    let mut out = [0u64; 128];
    let mut lane: usize = 0;
    while lane < 128
        invariant
            lanes_valid(*x),
            lanes_valid(*y),
            lane <= 128,
            forall|l: int| 0 <= l < lane ==> #[trigger] out[l] as int == (x[l] + y[l]) % q(),
            forall|l: int| 0 <= l < lane ==> #[trigger] out[l] < Q,
        decreases 128 - lane,
    {
        out[lane] = add_mod(x[lane], y[lane], Q);
        lane = lane + 1;
    }
    out
}

/// `out[k][e] = sum_lane rows[k][lane] elements[e][lane] mod q`: every row
/// dotted with every element, each dot summed unreduced in 128 bits.
pub fn dot_rows_pass(elements: &Vec<[u64; 128]>, rows: &Vec<[u64; 128]>) -> (out: Vec<Vec<u64>>)
    requires
        forall|e: int| 0 <= e < elements.len() ==> lanes_valid(#[trigger] elements@[e]),
        forall|k: int| 0 <= k < rows.len() ==> lanes_valid(#[trigger] rows@[k]),
    ensures
        out.len() == rows.len(),
        forall|k: int| 0 <= k < rows.len() ==> #[trigger] out@[k].len() == elements.len(),
        forall|k: int, e: int|
            0 <= k < rows.len() && 0 <= e < elements.len() ==> #[trigger] out@[k]@[e] as int
                == prod_sum(rows@[k]@, elements@[e]@, 128) % q(),
{
    let mut out: Vec<Vec<u64>> = Vec::new();
    let mut k: usize = 0;
    while k < rows.len()
        invariant
            k <= rows.len(),
            out.len() == k,
            forall|e: int| 0 <= e < elements.len() ==> lanes_valid(#[trigger] elements@[e]),
            forall|kk: int| 0 <= kk < rows.len() ==> lanes_valid(#[trigger] rows@[kk]),
            forall|kk: int| 0 <= kk < k ==> #[trigger] out@[kk].len() == elements.len(),
            forall|kk: int, e: int|
                0 <= kk < k && 0 <= e < elements.len() ==> #[trigger] out@[kk]@[e] as int
                    == prod_sum(rows@[kk]@, elements@[e]@, 128) % q(),
        decreases rows.len() - k,
    {
        let row = &rows[k];
        let mut column: Vec<u64> = Vec::new();
        let mut e: usize = 0;
        while e < elements.len()
            invariant
                e <= elements.len(),
                k < rows.len(),
                *row == rows@[k as int],
                lanes_valid(*row),
                column.len() == e,
                forall|ee: int| 0 <= ee < elements.len() ==> lanes_valid(#[trigger] elements@[ee]),
                forall|ee: int|
                    0 <= ee < e ==> #[trigger] column@[ee] as int == prod_sum(
                        rows@[k as int]@,
                        elements@[ee]@,
                        128,
                    ) % q(),
            decreases elements.len() - e,
        {
            let element = &elements[e];
            assert(lanes_valid(*element));
            let mut acc: u128 = 0;
            let mut lane: usize = 0;
            while lane < 128
                invariant
                    lane <= 128,
                    lanes_valid(*row),
                    lanes_valid(*element),
                    acc as int == prod_sum(row@, element@, lane as int),
                    acc <= lane * 0x10_0000_0000_0000_0000_0000_0000,
                decreases 128 - lane,
            {
                assert((row[lane as int] as u128) * (element[lane as int] as u128)
                    < 0x10_0000_0000_0000_0000_0000_0000u128) by (nonlinear_arith)
                    requires
                        row[lane as int] < 0x4_0000_0000_0000u64,
                        element[lane as int] < 0x4_0000_0000_0000u64,
                ;
                acc = acc + (row[lane] as u128) * (element[lane] as u128);
                lane = lane + 1;
            }
            let v = reduce_u128(acc);
            column.push(v);
            e = e + 1;
        }
        out.push(column);
        k = k + 1;
    }
    out
}

/// `(a + l) mod q = (S + t) mod q` when `a = S` and `l = t` mod `q`.
proof fn lemma_mod_step(a: int, big_s: int, l: int, t: int)
    requires
        a % q() == big_s % q(),
        l % q() == t % q(),
    ensures
        (a + l) % q() == (big_s + t) % q(),
{
    lemma_add_mod_noop(a, l, q());
    lemma_add_mod_noop(big_s, t, q());
}

/// Adds the lazy product terms of `x y` to the lane accumulators.
fn accumulate_product(acc: &mut [u128; 128], x: &[u64; 128], y: &[u64; 128], zeta: &[u64; 64])
    requires
        lanes_valid(*x),
        lanes_valid(*y),
        forall|lane: int| 0 <= lane < 128 ==> #[trigger] old(acc)[lane] < 0xffe0_0000_0000_0000_0000_0000_0000_0000u128,
    ensures
        forall|lane: int|
            0 <= lane < 128 ==> #[trigger] final(acc)[lane] as int == old(acc)[lane] as int
                + lazy_product_lane(zeta@, x@, y@, lane),
{
    let mut lane: usize = 0;
    while lane < 128
        invariant
            lanes_valid(*x),
            lanes_valid(*y),
            lane <= 128,
            forall|l: int| lane <= l < 128 ==> #[trigger] acc[l] == old(acc)[l],
            forall|l: int| 0 <= l < 128 ==> #[trigger] old(acc)[l] < 0xffe0_0000_0000_0000_0000_0000_0000_0000u128,
            forall|l: int|
                0 <= l < lane ==> #[trigger] acc[l] as int == old(acc)[l] as int + lazy_product_lane(
                    zeta@,
                    x@,
                    y@,
                    l,
                ),
        decreases 128 - lane,
    {
        let t = lazy_lane(zeta, x, y, lane);
        let cur = acc[lane];
        acc[lane] = cur + t;
        lane = lane + 1;
    }
}

/// Moves every accumulated lane into the reduced sums and clears it.
fn flush_lanes(sums: &mut [u64; 128], acc: &mut [u128; 128])
    requires
        forall|lane: int| 0 <= lane < 128 ==> #[trigger] old(sums)[lane] < Q,
        forall|lane: int| 0 <= lane < 128 ==> #[trigger] old(acc)[lane] < 0x1_0000_0000_0000_0000_0000_0000_0000u128,
    ensures
        forall|lane: int| 0 <= lane < 128 ==> #[trigger] final(sums)[lane] < Q,
        forall|lane: int|
            0 <= lane < 128 ==> #[trigger] final(sums)[lane] as int == (old(sums)[lane] as int
                + old(acc)[lane] as int) % q(),
        forall|lane: int| 0 <= lane < 128 ==> #[trigger] final(acc)[lane] == 0,
{
    let mut lane: usize = 0;
    while lane < 128
        invariant
            lane <= 128,
            forall|l: int| lane <= l < 128 ==> #[trigger] sums[l] == old(sums)[l],
            forall|l: int| lane <= l < 128 ==> #[trigger] acc[l] == old(acc)[l],
            forall|l: int| 0 <= l < 128 ==> #[trigger] old(sums)[l] < Q,
            forall|l: int| 0 <= l < 128 ==> #[trigger] old(acc)[l] < 0x1_0000_0000_0000_0000_0000_0000_0000u128,
            forall|l: int| 0 <= l < lane ==> #[trigger] sums[l] < Q,
            forall|l: int|
                0 <= l < lane ==> #[trigger] sums[l] as int == (old(sums)[l] as int + old(acc)[l] as int)
                    % q(),
            forall|l: int| 0 <= l < lane ==> #[trigger] acc[l] == 0,
        decreases 128 - lane,
    {
        let a = acc[lane];
        let reduced = reduce_u128(a);
        let cur = sums[lane];
        proof {
            lemma_mod_bound(a as int, q());
            lemma_add_mod_noop(cur as int, a as int, q());
            lemma_small_mod(cur as nat, Q as nat);
        }
        sums[lane] = add_mod(cur, reduced, Q);
        acc[lane] = 0;
        lane = lane + 1;
    }
}

/// `sum_{i < n} (key[base + i] column[i])[lane]` before reduction.
pub open spec fn ring_dot_lane(
    zeta: Seq<u64>,
    key: Seq<[u64; 128]>,
    column: Seq<[u64; 128]>,
    base: int,
    lane: int,
    n: int,
) -> int
    decreases n,
{
    if n <= 0 {
        0
    } else {
        ring_dot_lane(zeta, key, column, base, lane, n - 1) + ring_product_lane(
            zeta,
            key[base + n - 1]@,
            column[n - 1]@,
            lane,
        )
    }
}

/// `sum_{i < height} key[base + i] column[i]`, products accumulated lazily and
/// reduced every 1024 terms.
fn ring_dot_lazy(
    key: &Vec<[u64; 128]>,
    base: usize,
    column: &Vec<[u64; 128]>,
    height: usize,
    zeta: &[u64; 64],
) -> (r: [u64; 128])
    requires
        base + height <= key.len(),
        height <= column.len(),
        forall|i: int| 0 <= i < key.len() ==> lanes_valid(#[trigger] key@[i]),
        forall|i: int| 0 <= i < column.len() ==> lanes_valid(#[trigger] column@[i]),
    ensures
        lanes_valid(r),
        forall|lane: int|
            0 <= lane < 128 ==> #[trigger] r[lane] as int == ring_dot_lane(
                zeta@,
                key@,
                column@,
                base as int,
                lane,
                height as int,
            ) % q(),
{
    let mut sums = [0u64; 128];
    let mut acc = [0u128; 128];
    let mut pending: usize = 0;
    let mut i: usize = 0;
    proof {
        lemma_small_mod(0, Q as nat);
    }
    while i < height
        invariant
            base + height <= key.len(),
            height <= column.len(),
            forall|j: int| 0 <= j < key.len() ==> lanes_valid(#[trigger] key@[j]),
            forall|j: int| 0 <= j < column.len() ==> lanes_valid(#[trigger] column@[j]),
            i <= height,
            pending < 1024,
            forall|lane: int| 0 <= lane < 128 ==> #[trigger] sums[lane] < Q,
            forall|lane: int|
                0 <= lane < 128 ==> #[trigger] acc[lane] <= pending * 0x20_0000_0000_0000_0000_0000_0000u128,
            forall|lane: int|
                0 <= lane < 128 ==> (sums[lane] as int + #[trigger] acc[lane] as int) % q()
                    == ring_dot_lane(zeta@, key@, column@, base as int, lane, i as int) % q(),
            i == height ==> pending == 0,
        decreases height - i,
    {
        let x = &key[base + i];
        let y = &column[i];
        let ghost before = acc;
        accumulate_product(&mut acc, x, y, zeta);
        proof {
            assert forall|lane: int| 0 <= lane < 128 implies (sums[lane] as int
                + #[trigger] acc[lane] as int) % q() == ring_dot_lane(
                zeta@,
                key@,
                column@,
                base as int,
                lane,
                i + 1,
            ) % q() by {
                lemma_lazy_product_lane(zeta@, x@, y@, lane);
                lemma_mod_step(
                    sums[lane] as int + before[lane] as int,
                    ring_dot_lane(zeta@, key@, column@, base as int, lane, i as int),
                    lazy_product_lane(zeta@, x@, y@, lane),
                    ring_product_lane(zeta@, x@, y@, lane),
                );
                assert(base + (i + 1) - 1 == base + i);
            }
            assert forall|lane: int| 0 <= lane < 128 implies #[trigger] acc[lane] <= (pending + 1)
                * 0x20_0000_0000_0000_0000_0000_0000u128 by {
                lemma_lazy_product_lane(zeta@, x@, y@, lane);
            }
        }
        pending = pending + 1;
        if pending == 1024 || i + 1 == height {
            let ghost s_before = sums;
            let ghost a_before = acc;
            flush_lanes(&mut sums, &mut acc);
            proof {
                assert forall|lane: int| 0 <= lane < 128 implies (sums[lane] as int
                    + #[trigger] acc[lane] as int) % q() == ring_dot_lane(
                    zeta@,
                    key@,
                    column@,
                    base as int,
                    lane,
                    i + 1,
                ) % q() by {
                    lemma_mod_twice(s_before[lane] as int + a_before[lane] as int, q());
                }
            }
            pending = 0;
        }
        i = i + 1;
    }
    proof {
        assert forall|lane: int| 0 <= lane < 128 implies #[trigger] sums[lane] as int == ring_dot_lane(
            zeta@,
            key@,
            column@,
            base as int,
            lane,
            height as int,
        ) % q() by {
            assert(acc[lane] == 0);
            lemma_small_mod(sums[lane] as nat, Q as nat);
        }
    }
    sums
}

/// The commitment: `out[row * width + col] = sum_i key[row * height + i]
/// columns[col][i]` for every key row and witness column.
pub fn commit_pass(
    key: &Vec<[u64; 128]>,
    height: usize,
    rank: usize,
    columns: &Vec<Vec<[u64; 128]>>,
    zeta: &[u64; 64],
) -> (out: Vec<[u64; 128]>)
    requires
        key.len() == rank * height,
        forall|c: int| 0 <= c < columns.len() ==> height <= (#[trigger] columns@[c]).len(),
        forall|i: int| 0 <= i < key.len() ==> lanes_valid(#[trigger] key@[i]),
        forall|c: int, i: int|
            0 <= c < columns.len() && 0 <= i < columns@[c].len() ==> lanes_valid(
                #[trigger] columns@[c]@[i],
            ),
    ensures
        out.len() == rank * columns.len(),
        forall|row: int, col: int, lane: int|
            0 <= row < rank && 0 <= col < columns.len() && 0 <= lane < 128 ==> #[trigger] out@[row
                * columns.len() + col][lane] as int == ring_dot_lane(
                zeta@,
                key@,
                columns@[col]@,
                row * height,
                lane,
                height as int,
            ) % q(),
{
    let width = columns.len();
    let mut out: Vec<[u64; 128]> = Vec::new();
    let mut row: usize = 0;
    while row < rank
        invariant
            width == columns.len(),
            key.len() == rank * height,
            forall|c: int| 0 <= c < columns.len() ==> height <= (#[trigger] columns@[c]).len(),
            forall|i: int| 0 <= i < key.len() ==> lanes_valid(#[trigger] key@[i]),
            forall|c: int, i: int|
                0 <= c < columns.len() && 0 <= i < columns@[c].len() ==> lanes_valid(
                    #[trigger] columns@[c]@[i],
                ),
            row <= rank,
            out.len() == row * width,
            forall|rr: int, col: int, lane: int|
                0 <= rr < row && 0 <= col < width && 0 <= lane < 128 ==> #[trigger] out@[rr * width
                    + col][lane] as int == ring_dot_lane(
                    zeta@,
                    key@,
                    columns@[col]@,
                    rr * height,
                    lane,
                    height as int,
                ) % q(),
        decreases rank - row,
    {
        assert((row + 1) * height <= rank * height) by (nonlinear_arith)
            requires
                row < rank,
        ;
        assert(row * height + height == (row + 1) * height) by (nonlinear_arith);
        let base = row * height;
        let mut col: usize = 0;
        while col < width
            invariant
                width == columns.len(),
                key.len() == rank * height,
                base == row * height,
                base + height <= key.len(),
                forall|c: int| 0 <= c < columns.len() ==> height <= (#[trigger] columns@[c]).len(),
                forall|i: int| 0 <= i < key.len() ==> lanes_valid(#[trigger] key@[i]),
                forall|c: int, i: int|
                    0 <= c < columns.len() && 0 <= i < columns@[c].len() ==> lanes_valid(
                        #[trigger] columns@[c]@[i],
                    ),
                row < rank,
                col <= width,
                out.len() == row * width + col,
                forall|rr: int, c: int, lane: int|
                    0 <= rr < row && 0 <= c < width && 0 <= lane < 128 ==> #[trigger] out@[rr * width
                        + c][lane] as int == ring_dot_lane(
                        zeta@,
                        key@,
                        columns@[c]@,
                        rr * height,
                        lane,
                        height as int,
                    ) % q(),
                forall|c: int, lane: int|
                    0 <= c < col && 0 <= lane < 128 ==> #[trigger] out@[row * width + c][lane] as int
                        == ring_dot_lane(zeta@, key@, columns@[c]@, base as int, lane, height as int)
                        % q(),
            decreases width - col,
        {
            let column = &columns[col];
            proof {
                assert forall|i: int| 0 <= i < column.len() implies lanes_valid(#[trigger] column@[i]) by {
                    assert(lanes_valid(columns@[col as int]@[i]));
                }
            }
            let value = ring_dot_lazy(key, base, column, height, zeta);
            let ghost before = out@;
            out.push(value);
            proof {
                assert forall|rr: int, c: int, lane: int|
                    0 <= rr < row && 0 <= c < width && 0 <= lane < 128 implies #[trigger] out@[rr
                    * width + c][lane] as int == ring_dot_lane(
                    zeta@,
                    key@,
                    columns@[c]@,
                    rr * height,
                    lane,
                    height as int,
                ) % q() by {
                    assert(rr * width + c < row * width) by (nonlinear_arith)
                        requires
                            0 <= rr < row,
                            0 <= c < width,
                    ;
                    assert(out@[rr * width + c] == before[rr * width + c]);
                }
                assert forall|c: int, lane: int|
                    0 <= c < col + 1 && 0 <= lane < 128 implies #[trigger] out@[row * width
                    + c][lane] as int == ring_dot_lane(
                    zeta@,
                    key@,
                    columns@[c]@,
                    base as int,
                    lane,
                    height as int,
                ) % q() by {
                    if c < col {
                        assert(out@[row * width + c] == before[row * width + c]);
                    }
                }
            }
            col = col + 1;
        }
        assert((row + 1) * width == row * width + width) by (nonlinear_arith);
        row = row + 1;
    }
    out
}

/// A fold multiplier prepared from a ring element: its even and odd lanes
/// and the odd lanes times the slot shift factors.
pub struct FixedMultiplier {
    pub even: [u64; 64],
    pub odd: [u64; 64],
    pub shifted_odd: [u64; 64],
}

/// The multiplier's lanes are residues and `shifted_odd = zeta odd mod q`.
pub open spec fn multiplier_wf(m: FixedMultiplier, zeta: Seq<u64>) -> bool {
    &&& forall|i: int| 0 <= i < 64 ==> #[trigger] m.even[i] < Q
    &&& forall|i: int| 0 <= i < 64 ==> #[trigger] m.odd[i] < Q
    &&& forall|i: int| 0 <= i < 64 ==> #[trigger] m.shifted_odd[i] as int == (zeta[i] * m.odd[i]) % q()
}

/// The ring element a multiplier was prepared from.
pub open spec fn multiplier_lanes(m: FixedMultiplier) -> Seq<u64> {
    Seq::new(128, |l: int| if l < 64 { m.even[l] } else { m.odd[l - 64] })
}

impl FixedMultiplier {
    /// Prepares `y` for repeated multiplication.
    pub fn new(y: &[u64; 128], zeta: &[u64; 64]) -> (r: FixedMultiplier)
        requires
            lanes_valid(*y),
        ensures
            multiplier_wf(r, zeta@),
            multiplier_lanes(r) == y@,
    {
        let mut even = [0u64; 64];
        let mut odd = [0u64; 64];
        let mut shifted_odd = [0u64; 64];
        let mut i: usize = 0;
        while i < 64
            invariant
                lanes_valid(*y),
                i <= 64,
                forall|j: int| 0 <= j < i ==> #[trigger] even[j] == y[j],
                forall|j: int| 0 <= j < i ==> #[trigger] odd[j] == y[64 + j],
                forall|j: int| 0 <= j < i ==> #[trigger] shifted_odd[j] as int == (zeta[j] * odd[j]) % q(),
            decreases 64 - i,
        {
            even[i] = y[i];
            odd[i] = y[64 + i];
            shifted_odd[i] = multiply_mod(zeta[i], y[64 + i], Q);
            i = i + 1;
        }
        let r = FixedMultiplier { even, odd, shifted_odd };
        assert(multiplier_lanes(r) =~= y@);
        r
    }
}

/// What one column adds to a fold lane before reduction, with the shifted
/// odd lanes already reduced.
pub open spec fn fold_lazy_lane(m: FixedMultiplier, y: Seq<u64>, lane: int) -> int {
    if lane < 64 {
        y[lane] * m.even[lane] + y[lane + 64] * m.shifted_odd[lane]
    } else {
        y[lane - 64] * m.odd[lane - 64] + y[lane] * m.even[lane - 64]
    }
}

proof fn lemma_fold_lazy_lane(m: FixedMultiplier, zeta: Seq<u64>, y: Seq<u64>, lane: int)
    requires
        0 <= lane < 128,
        multiplier_wf(m, zeta),
        y.len() == 128,
        forall|i: int| 0 <= i < 128 ==> #[trigger] y[i] < Q,
    ensures
        fold_lazy_lane(m, y, lane) % q() == ring_product_lane(zeta, multiplier_lanes(m), y, lane) % q(),
        0 <= fold_lazy_lane(m, y, lane) < 0x20_0000_0000_0000_0000_0000_0000,
{
    let ml = multiplier_lanes(m);
    if lane < 64 {
        let a = y[lane] as int;
        let b = y[lane + 64] as int;
        let e = m.even[lane] as int;
        let o = m.odd[lane] as int;
        let z = zeta[lane] as int;
        let so = m.shifted_odd[lane] as int;
        assert(ml[lane] == m.even[lane]);
        assert(ml[lane + 64] == m.odd[lane]);
        lemma_mod_bound(z * o, q());
        lemma_mul_mod_noop_right(b, z * o, q());
        lemma_add_mod_noop(a * e, b * so, q());
        lemma_add_mod_noop(a * e, b * (z * o), q());
        assert(b * (z * o) == z * (o * b)) by (nonlinear_arith);
        assert(a * e == e * a) by (nonlinear_arith);
        assert(0 <= a * e + b * so < 0x20_0000_0000_0000_0000_0000_0000) by (nonlinear_arith)
            requires
                0 <= a < 0x4_0000_0000_0000,
                0 <= b < 0x4_0000_0000_0000,
                0 <= e < 0x4_0000_0000_0000,
                0 <= so < 0x4_0000_0000_0000,
        ;
    } else {
        let i = lane - 64;
        let a = y[i] as int;
        let b = y[lane] as int;
        let e = m.even[i] as int;
        let o = m.odd[i] as int;
        assert(ml[i] == m.even[i]);
        assert(ml[lane] == m.odd[i]);
        assert(a * o + b * e == e * b + o * a) by (nonlinear_arith);
        assert(0 <= a * o + b * e < 0x20_0000_0000_0000_0000_0000_0000) by (nonlinear_arith)
            requires
                0 <= a < 0x4_0000_0000_0000,
                0 <= b < 0x4_0000_0000_0000,
                0 <= e < 0x4_0000_0000_0000,
                0 <= o < 0x4_0000_0000_0000,
        ;
    }
}

fn fold_lazy_term(m: &FixedMultiplier, y: &[u64; 128], lane: usize, zeta: &[u64; 64]) -> (r: u128)
    requires
        lane < 128,
        multiplier_wf(*m, zeta@),
        lanes_valid(*y),
    ensures
        r as int == fold_lazy_lane(*m, y@, lane as int),
        r < 0x20_0000_0000_0000_0000_0000_0000,
{
    proof {
        lemma_fold_lazy_lane(*m, zeta@, y@, lane as int);
    }
    if lane < 64 {
        assert((y[lane as int] as u128) * (m.even[lane as int] as u128) < 0x10_0000_0000_0000_0000_0000_0000u128) by (nonlinear_arith)
            requires
                y[lane as int] < 0x4_0000_0000_0000u64,
                m.even[lane as int] < 0x4_0000_0000_0000u64,
        ;
        (y[lane] as u128) * (m.even[lane] as u128) + (y[lane + 64] as u128) * (m.shifted_odd[lane] as u128)
    } else {
        (y[lane - 64] as u128) * (m.odd[lane - 64] as u128) + (y[lane] as u128) * (m.even[lane - 64] as u128)
    }
}

/// `sum_{c < n} (multiplier_c columns[c][row])[lane]` before reduction.
pub open spec fn fold_sum_lane(
    zeta: Seq<u64>,
    mults: Seq<FixedMultiplier>,
    columns: Seq<Vec<[u64; 128]>>,
    row: int,
    lane: int,
    n: int,
) -> int
    decreases n,
{
    if n <= 0 {
        0
    } else {
        fold_sum_lane(zeta, mults, columns, row, lane, n - 1) + ring_product_lane(
            zeta,
            multiplier_lanes(mults[n - 1]),
            columns[n - 1]@[row]@,
            lane,
        )
    }
}

/// `out[row] = base[row] + sum_c multipliers[c] columns[c][row]`, each lane
/// summed unreduced and reduced once.
pub fn fold_pass(
    base: &Vec<[u64; 128]>,
    columns: &Vec<Vec<[u64; 128]>>,
    multipliers: &Vec<FixedMultiplier>,
    zeta: &[u64; 64],
) -> (out: Vec<[u64; 128]>)
    requires
        columns.len() == multipliers.len(),
        columns.len() <= 4,
        forall|c: int| 0 <= c < columns.len() ==> base.len() <= (#[trigger] columns@[c]).len(),
        forall|c: int| 0 <= c < multipliers.len() ==> multiplier_wf(#[trigger] multipliers@[c], zeta@),
        forall|c: int, i: int|
            0 <= c < columns.len() && 0 <= i < columns@[c].len() ==> lanes_valid(
                #[trigger] columns@[c]@[i],
            ),
    ensures
        out.len() == base.len(),
        forall|row: int, lane: int|
            0 <= row < base.len() && 0 <= lane < 128 ==> #[trigger] out@[row][lane] as int == (
            base@[row][lane] + fold_sum_lane(
                zeta@,
                multipliers@,
                columns@,
                row,
                lane,
                columns.len() as int,
            )) % q(),
{
    let k = columns.len();
    let mut out: Vec<[u64; 128]> = Vec::new();
    let mut row: usize = 0;
    while row < base.len()
        invariant
            k == columns.len(),
            columns.len() == multipliers.len(),
            k <= 4,
            forall|c: int| 0 <= c < columns.len() ==> base.len() <= (#[trigger] columns@[c]).len(),
            forall|c: int| 0 <= c < multipliers.len() ==> multiplier_wf(#[trigger] multipliers@[c], zeta@),
            forall|c: int, i: int|
                0 <= c < columns.len() && 0 <= i < columns@[c].len() ==> lanes_valid(
                    #[trigger] columns@[c]@[i],
                ),
            row <= base.len(),
            out.len() == row,
            forall|r: int, lane: int|
                0 <= r < row && 0 <= lane < 128 ==> #[trigger] out@[r][lane] as int == (
                base@[r][lane] + fold_sum_lane(zeta@, multipliers@, columns@, r, lane, k as int))
                    % q(),
        decreases base.len() - row,
    {
        let mut value = [0u64; 128];
        let mut lane: usize = 0;
        while lane < 128
            invariant
                k == columns.len(),
                columns.len() == multipliers.len(),
                k <= 4,
                row < base.len(),
                forall|c: int| 0 <= c < columns.len() ==> base.len() <= (#[trigger] columns@[c]).len(),
                forall|c: int| 0 <= c < multipliers.len() ==> multiplier_wf(#[trigger] multipliers@[c], zeta@),
                forall|c: int, i: int|
                    0 <= c < columns.len() && 0 <= i < columns@[c].len() ==> lanes_valid(
                        #[trigger] columns@[c]@[i],
                    ),
                lane <= 128,
                forall|l: int|
                    0 <= l < lane ==> #[trigger] value[l] as int == (base@[row as int][l]
                        + fold_sum_lane(zeta@, multipliers@, columns@, row as int, l, k as int)) % q(),
            decreases 128 - lane,
        {
            let mut acc: u128 = base[row][lane] as u128;
            let mut c: usize = 0;
            while c < k
                invariant
                    k == columns.len(),
                    columns.len() == multipliers.len(),
                    k <= 4,
                    row < base.len(),
                    lane < 128,
                    forall|cc: int| 0 <= cc < columns.len() ==> base.len() <= (#[trigger] columns@[cc]).len(),
                    forall|cc: int| 0 <= cc < multipliers.len() ==> multiplier_wf(#[trigger] multipliers@[cc], zeta@),
                    forall|cc: int, i: int|
                        0 <= cc < columns.len() && 0 <= i < columns@[cc].len() ==> lanes_valid(
                            #[trigger] columns@[cc]@[i],
                        ),
                    c <= k,
                    acc <= 0x1_0000_0000_0000_0000u128 + c * 0x20_0000_0000_0000_0000_0000_0000u128,
                    acc as int % q() == (base@[row as int][lane as int] + fold_sum_lane(
                        zeta@,
                        multipliers@,
                        columns@,
                        row as int,
                        lane as int,
                        c as int,
                    )) % q(),
                decreases k - c,
            {
                let y = &columns[c][row];
                assert(lanes_valid(*y));
                let t = fold_lazy_term(&multipliers[c], y, lane, zeta);
                proof {
                    lemma_fold_lazy_lane(multipliers@[c as int], zeta@, y@, lane as int);
                    lemma_mod_step(
                        acc as int,
                        base@[row as int][lane as int] + fold_sum_lane(
                            zeta@,
                            multipliers@,
                            columns@,
                            row as int,
                            lane as int,
                            c as int,
                        ),
                        t as int,
                        ring_product_lane(zeta@, multiplier_lanes(multipliers@[c as int]), y@, lane as int),
                    );
                }
                acc = acc + t;
                c = c + 1;
            }
            value[lane] = reduce_u128(acc);
            lane = lane + 1;
        }
        out.push(value);
        row = row + 1;
    }
    out
}

/// `sum_{x < n} w[x] elements[base + x][lane]` over the integers.
pub open spec fn weighted_lane(w: Seq<u64>, elements: Seq<[u64; 128]>, base: int, lane: int, n: int) -> int
    decreases n,
{
    if n <= 0 {
        0
    } else {
        weighted_lane(w, elements, base, lane, n - 1) + w[n - 1] * elements[base + n - 1][lane]
    }
}

/// The reduced lanes of a weighted sum, as a ring element.
pub open spec fn weighted_element(w: Seq<u64>, elements: Seq<[u64; 128]>, base: int, n: int) -> Seq<u64> {
    Seq::new(128, |lane: int| (weighted_lane(w, elements, base, lane, n) % q()) as u64)
}

/// Adds `w e` lane by lane to the accumulators.
fn accumulate_scaled(acc: &mut [u128; 128], w: u64, e: &[u64; 128])
    requires
        w < Q,
        lanes_valid(*e),
        forall|lane: int| 0 <= lane < 128 ==> #[trigger] old(acc)[lane] < 0xfff0_0000_0000_0000_0000_0000_0000_0000u128,
    ensures
        forall|lane: int|
            0 <= lane < 128 ==> #[trigger] final(acc)[lane] as int == old(acc)[lane] as int + w * e[lane],
{
    let mut lane: usize = 0;
    while lane < 128
        invariant
            w < Q,
            lanes_valid(*e),
            lane <= 128,
            forall|l: int| lane <= l < 128 ==> #[trigger] acc[l] == old(acc)[l],
            forall|l: int| 0 <= l < 128 ==> #[trigger] old(acc)[l] < 0xfff0_0000_0000_0000_0000_0000_0000_0000u128,
            forall|l: int| 0 <= l < lane ==> #[trigger] acc[l] as int == old(acc)[l] as int + w * e[l],
        decreases 128 - lane,
    {
        assert((w as u128) * (e[lane as int] as u128) < 0x10_0000_0000_0000_0000_0000_0000u128) by (nonlinear_arith)
            requires
                w < 0x4_0000_0000_0000u64,
                e[lane as int] < 0x4_0000_0000_0000u64,
        ;
        let cur = acc[lane];
        acc[lane] = cur + (w as u128) * (e[lane] as u128);
        lane = lane + 1;
    }
}

/// `sum_{x < n} w[x] elements[base + x]`, lanes accumulated lazily and reduced
/// every 2048 terms.
fn weighted_sum_lazy(elements: &Vec<[u64; 128]>, base: usize, w: &Vec<u64>, n: usize) -> (r: [u64; 128])
    requires
        base + n <= elements.len(),
        n <= w.len(),
        forall|i: int| 0 <= i < w.len() ==> #[trigger] w@[i] < Q,
        forall|i: int| 0 <= i < elements.len() ==> lanes_valid(#[trigger] elements@[i]),
    ensures
        lanes_valid(r),
        r@ == weighted_element(w@, elements@, base as int, n as int),
{
    let mut sums = [0u64; 128];
    let mut acc = [0u128; 128];
    let mut pending: usize = 0;
    let mut x: usize = 0;
    proof {
        lemma_small_mod(0, Q as nat);
    }
    while x < n
        invariant
            base + n <= elements.len(),
            n <= w.len(),
            forall|i: int| 0 <= i < w.len() ==> #[trigger] w@[i] < Q,
            forall|i: int| 0 <= i < elements.len() ==> lanes_valid(#[trigger] elements@[i]),
            x <= n,
            pending < 2048,
            forall|lane: int| 0 <= lane < 128 ==> #[trigger] sums[lane] < Q,
            forall|lane: int|
                0 <= lane < 128 ==> #[trigger] acc[lane] <= pending * 0x10_0000_0000_0000_0000_0000_0000u128,
            forall|lane: int|
                0 <= lane < 128 ==> (sums[lane] as int + #[trigger] acc[lane] as int) % q()
                    == weighted_lane(w@, elements@, base as int, lane, x as int) % q(),
            x == n ==> pending == 0,
        decreases n - x,
    {
        let e = &elements[base + x];
        let wx = w[x];
        assert(lanes_valid(*e));
        let ghost before = acc;
        accumulate_scaled(&mut acc, wx, e);
        proof {
            assert forall|lane: int| 0 <= lane < 128 implies (sums[lane] as int
                + #[trigger] acc[lane] as int) % q() == weighted_lane(
                w@,
                elements@,
                base as int,
                lane,
                x + 1,
            ) % q() by {
                assert(base + (x + 1) - 1 == base + x);
                assert(acc[lane] as int == before[lane] as int + wx * e[lane]);
                lemma_mod_step(
                    sums[lane] as int + before[lane] as int,
                    weighted_lane(w@, elements@, base as int, lane, x as int),
                    wx * e[lane],
                    wx * e[lane],
                );
            }
            assert forall|lane: int| 0 <= lane < 128 implies #[trigger] acc[lane] <= (pending + 1)
                * 0x10_0000_0000_0000_0000_0000_0000u128 by {
                assert(wx * e[lane] < 0x10_0000_0000_0000_0000_0000_0000) by (nonlinear_arith)
                    requires
                        wx < 0x4_0000_0000_0000u64,
                        e[lane] < 0x4_0000_0000_0000u64,
                ;
            }
        }
        pending = pending + 1;
        if pending == 2048 || x + 1 == n {
            let ghost s_before = sums;
            let ghost a_before = acc;
            flush_lanes(&mut sums, &mut acc);
            proof {
                assert forall|lane: int| 0 <= lane < 128 implies (sums[lane] as int
                    + #[trigger] acc[lane] as int) % q() == weighted_lane(
                    w@,
                    elements@,
                    base as int,
                    lane,
                    x + 1,
                ) % q() by {
                    lemma_mod_twice(s_before[lane] as int + a_before[lane] as int, q());
                }
            }
            pending = 0;
        }
        x = x + 1;
    }
    proof {
        assert forall|lane: int| 0 <= lane < 128 implies #[trigger] sums[lane] as int
            == weighted_lane(w@, elements@, base as int, lane, n as int) % q() by {
            assert(acc[lane] == 0);
            lemma_small_mod(sums[lane] as nat, Q as nat);
        }
        assert(sums@ =~= weighted_element(w@, elements@, base as int, n as int));
    }
    sums
}

/// `out[t] = sum_x weights[x] elements[t * len + x]` for weights in the
/// quadratic extension, `len = weights.len()`: the two limb sums combined as
/// `limb0 + limb1 alpha` with `alpha` the ring image of the extension's
/// generator.
pub fn contract_pass(
    elements: &Vec<[u64; 128]>,
    weights: &QeVec,
    alpha: &[u64; 128],
    zeta: &[u64; 64],
) -> (out: Vec<[u64; 128]>)
    requires
        qe_vec_valid(weights),
        weights.limb0.len() > 0,
        elements.len() % weights.limb0.len() == 0,
        forall|i: int| 0 <= i < elements.len() ==> lanes_valid(#[trigger] elements@[i]),
        lanes_valid(*alpha),
    ensures
        out.len() == elements.len() / weights.limb0.len(),
        forall|t: int, lane: int|
            0 <= t < out.len() && 0 <= lane < 128 ==> #[trigger] out@[t][lane] as int == (
            weighted_lane(
                weights.limb0@,
                elements@,
                t * weights.limb0.len(),
                lane,
                weights.limb0.len() as int,
            ) + ring_product_lane(
                zeta@,
                weighted_element(
                    weights.limb1@,
                    elements@,
                    t * weights.limb0.len(),
                    weights.limb0.len() as int,
                ),
                alpha@,
                lane,
            )) % q(),
{
    let len = weights.len();
    let blocks = elements.len() / len;
    proof {
        lemma_fundamental_div_mod(elements.len() as int, len as int);
    }
    let mut out: Vec<[u64; 128]> = Vec::new();
    let mut t: usize = 0;
    while t < blocks
        invariant
            qe_vec_valid(weights),
            len == weights.limb0.len(),
            len > 0,
            blocks == elements.len() / len,
            len * blocks == elements.len(),
            forall|i: int| 0 <= i < elements.len() ==> lanes_valid(#[trigger] elements@[i]),
            lanes_valid(*alpha),
            t <= blocks,
            out.len() == t,
            forall|tt: int, lane: int|
                0 <= tt < t && 0 <= lane < 128 ==> #[trigger] out@[tt][lane] as int == (
                weighted_lane(weights.limb0@, elements@, tt * len, lane, len as int)
                    + ring_product_lane(
                    zeta@,
                    weighted_element(weights.limb1@, elements@, tt * len, len as int),
                    alpha@,
                    lane,
                )) % q(),
        decreases blocks - t,
    {
        assert((t + 1) * len <= blocks * len) by (nonlinear_arith)
            requires
                t < blocks,
        ;
        assert(t * len + len == (t + 1) * len) by (nonlinear_arith);
        assert(len * blocks == blocks * len) by (nonlinear_arith);
        let base = t * len;
        let plain = weighted_sum_lazy(elements, base, &weights.limb0, len);
        let alpha_part = weighted_sum_lazy(elements, base, &weights.limb1, len);
        let product = ring_mul(&alpha_part, alpha, zeta);
        let value = ring_add(&plain, &product);
        proof {
            assert forall|lane: int| 0 <= lane < 128 implies #[trigger] value[lane] as int == (
            weighted_lane(weights.limb0@, elements@, t * len, lane, len as int)
                + ring_product_lane(
                zeta@,
                weighted_element(weights.limb1@, elements@, t * len, len as int),
                alpha@,
                lane,
            )) % q() by {
                let w0 = weighted_lane(weights.limb0@, elements@, t * len, lane, len as int);
                let rp = ring_product_lane(zeta@, alpha_part@, alpha@, lane);
                assert(plain[lane] == plain@[lane]);
                assert(plain@[lane] as int == w0 % q());
                lemma_add_mod_noop(w0, rp, q());
            }
        }
        out.push(value);
        t = t + 1;
    }
    out
}

/// A copy of a column of ring elements.
pub(crate) fn copy_column(column: &Vec<[u64; 128]>) -> (r: Vec<[u64; 128]>)
    ensures
        r@ == column@,
{
    let mut out: Vec<[u64; 128]> = Vec::new();
    let mut i: usize = 0;
    while i < column.len()
        invariant
            i <= column.len(),
            out@ == column@.subrange(0, i as int),
        decreases column.len() - i,
    {
        out.push(column[i]);
        i = i + 1;
        assert(out@ =~= column@.subrange(0, i as int));
    }
    assert(column@.subrange(0, column.len() as int) =~= column@);
    out
}

/// Folds the witness: `out[row] = acc[row] + sum_{c < FRESH_INPUTS}
/// challenges[c] fresh_c[row]`, the accumulator column taking the unit
/// challenge.
pub fn fold_witness(witness: &Vec<Vec<[u64; 128]>>, challenges: &Vec<[u64; 128]>, zeta: &[u64; 64]) -> (out: Vec<[u64; 128]>)
    requires
        witness.len() == FOLD_INPUTS,
        challenges.len() == FOLD_INPUTS,
        forall|c: int| 0 <= c < FOLD_INPUTS ==> (#[trigger] witness@[c]).len() == witness@[ACCUMULATOR_COL as int].len(),
        forall|c: int, i: int|
            0 <= c < witness.len() && 0 <= i < witness@[c].len() ==> lanes_valid(
                #[trigger] witness@[c]@[i],
            ),
        forall|c: int| 0 <= c < challenges.len() ==> lanes_valid(#[trigger] challenges@[c]),
    ensures
        out.len() == witness@[ACCUMULATOR_COL as int].len(),
        forall|row: int, lane: int|
            0 <= row < out.len() && 0 <= lane < 128 ==> #[trigger] out@[row][lane] as int == (
            witness@[ACCUMULATOR_COL as int]@[row][lane] + ring_product_lane(
                zeta@,
                challenges@[0]@,
                witness@[0]@[row]@,
                lane,
            ) + ring_product_lane(zeta@, challenges@[1]@, witness@[1]@[row]@, lane)) % q(),
{
    let mut multipliers: Vec<FixedMultiplier> = Vec::new();
    let mut fresh: Vec<Vec<[u64; 128]>> = Vec::new();
    let mut c: usize = 0;
    while c < FRESH_INPUTS
        invariant
            c <= FRESH_INPUTS,
            witness.len() == FOLD_INPUTS,
            challenges.len() == FOLD_INPUTS,
            forall|cc: int| 0 <= cc < challenges.len() ==> lanes_valid(#[trigger] challenges@[cc]),
            multipliers.len() == c,
            fresh.len() == c,
            forall|cc: int| 0 <= cc < c ==> multiplier_wf(#[trigger] multipliers@[cc], zeta@),
            forall|cc: int| 0 <= cc < c ==> multiplier_lanes(#[trigger] multipliers@[cc]) == challenges@[cc]@,
            forall|cc: int| 0 <= cc < c ==> (#[trigger] fresh@[cc])@ == witness@[cc]@,
        decreases FRESH_INPUTS - c,
    {
        multipliers.push(FixedMultiplier::new(&challenges[c], zeta));
        fresh.push(copy_column(&witness[c]));
        c = c + 1;
    }
    let out = fold_pass(&witness[ACCUMULATOR_COL], &fresh, &multipliers, zeta);
    proof {
        assert forall|row: int, lane: int|
            0 <= row < out.len() && 0 <= lane < 128 implies #[trigger] out@[row][lane] as int == (
            witness@[ACCUMULATOR_COL as int]@[row][lane] + ring_product_lane(
                zeta@,
                challenges@[0]@,
                witness@[0]@[row]@,
                lane,
            ) + ring_product_lane(zeta@, challenges@[1]@, witness@[1]@[row]@, lane)) % q() by {
            assert(fresh@[0]@ == witness@[0]@);
            assert(fresh@[1]@ == witness@[1]@);
            assert(fold_sum_lane(zeta@, multipliers@, fresh@, row, lane, 0) == 0);
            assert(multiplier_lanes(multipliers@[0]) == challenges@[0]@);
            assert(multiplier_lanes(multipliers@[1]) == challenges@[1]@);
            assert(fresh@[0]@[row] == witness@[0]@[row]);
            assert(fresh@[1]@[row] == witness@[1]@[row]);
            assert(fold_sum_lane(zeta@, multipliers@, fresh@, row, lane, 1) == ring_product_lane(
                zeta@,
                challenges@[0]@,
                witness@[0]@[row]@,
                lane,
            ));
            assert(fold_sum_lane(zeta@, multipliers@, fresh@, row, lane, 2) == fold_sum_lane(
                zeta@,
                multipliers@,
                fresh@,
                row,
                lane,
                1,
            ) + ring_product_lane(zeta@, challenges@[1]@, witness@[1]@[row]@, lane));
        }
    }
    out
}

/// `sum_{col < n} (commitment[row * FOLD_INPUTS + col] challenges[col])[lane]`
/// before reduction.
pub open spec fn fold_commitment_lane(
    zeta: Seq<u64>,
    commitment: Seq<[u64; 128]>,
    challenges: Seq<[u64; 128]>,
    row: int,
    lane: int,
    n: int,
) -> int
    decreases n,
{
    if n <= 0 {
        0
    } else {
        fold_commitment_lane(zeta, commitment, challenges, row, lane, n - 1) + ring_product_lane(
            zeta,
            commitment[row * FOLD_INPUTS + n - 1]@,
            challenges[n - 1]@,
            lane,
        )
    }
}

/// Folds the commitment columns: `out[row] = sum_col commitment[row, col]
/// challenges[col]`, the matrix stored row by row.
pub fn fold_commitment(
    commitment: &Vec<[u64; 128]>,
    height: usize,
    challenges: &Vec<[u64; 128]>,
    zeta: &[u64; 64],
) -> (out: Vec<[u64; 128]>)
    requires
        commitment.len() == height * FOLD_INPUTS,
        challenges.len() >= FOLD_INPUTS,
        forall|i: int| 0 <= i < commitment.len() ==> lanes_valid(#[trigger] commitment@[i]),
        forall|c: int| 0 <= c < challenges.len() ==> lanes_valid(#[trigger] challenges@[c]),
    ensures
        out.len() == height,
        forall|row: int, lane: int|
            0 <= row < height && 0 <= lane < 128 ==> #[trigger] out@[row][lane] as int
                == fold_commitment_lane(
                zeta@,
                commitment@,
                challenges@,
                row,
                lane,
                FOLD_INPUTS as int,
            ) % q(),
{
    let mut out: Vec<[u64; 128]> = Vec::new();
    let mut row: usize = 0;
    while row < height
        invariant
            commitment.len() == height * FOLD_INPUTS,
            challenges.len() >= FOLD_INPUTS,
            forall|i: int| 0 <= i < commitment.len() ==> lanes_valid(#[trigger] commitment@[i]),
            forall|c: int| 0 <= c < challenges.len() ==> lanes_valid(#[trigger] challenges@[c]),
            row <= height,
            out.len() == row,
            forall|r: int, lane: int|
                0 <= r < row && 0 <= lane < 128 ==> #[trigger] out@[r][lane] as int
                    == fold_commitment_lane(
                    zeta@,
                    commitment@,
                    challenges@,
                    r,
                    lane,
                    FOLD_INPUTS as int,
                ) % q(),
        decreases height - row,
    {
        let mut acc = [0u64; 128];
        let mut col: usize = 0;
        proof {
            lemma_small_mod(0, Q as nat);
        }
        while col < FOLD_INPUTS
            invariant
                commitment.len() == height * FOLD_INPUTS,
                challenges.len() >= FOLD_INPUTS,
                forall|i: int| 0 <= i < commitment.len() ==> lanes_valid(#[trigger] commitment@[i]),
                forall|c: int| 0 <= c < challenges.len() ==> lanes_valid(#[trigger] challenges@[c]),
                row < height,
                col <= FOLD_INPUTS,
                lanes_valid(acc),
                forall|lane: int|
                    0 <= lane < 128 ==> #[trigger] acc[lane] as int == fold_commitment_lane(
                        zeta@,
                        commitment@,
                        challenges@,
                        row as int,
                        lane,
                        col as int,
                    ) % q(),
            decreases FOLD_INPUTS - col,
        {
            assert(row * FOLD_INPUTS + col < height * FOLD_INPUTS) by (nonlinear_arith)
                requires
                    row < height,
                    col < FOLD_INPUTS,
            ;
            let entry = &commitment[row * FOLD_INPUTS + col];
            assert(lanes_valid(*entry));
            let product = ring_mul(entry, &challenges[col], zeta);
            let before = acc;
            acc = ring_add(&before, &product);
            proof {
                assert forall|lane: int| 0 <= lane < 128 implies #[trigger] acc[lane] as int
                    == fold_commitment_lane(
                    zeta@,
                    commitment@,
                    challenges@,
                    row as int,
                    lane,
                    col + 1,
                ) % q() by {
                    lemma_add_mod_noop(
                        fold_commitment_lane(zeta@, commitment@, challenges@, row as int, lane, col as int),
                        ring_product_lane(zeta@, entry@, challenges@[col as int]@, lane),
                        q(),
                    );
                }
            }
            col = col + 1;
        }
        out.push(acc);
        row = row + 1;
    }
    out
}

/// `sum_{i < n} (a[i] b[i])[lane]` before reduction.
pub open spec fn ring_inner_lane(zeta: Seq<u64>, a: Seq<[u64; 128]>, b: Seq<[u64; 128]>, lane: int, n: int) -> int
    decreases n,
{
    if n <= 0 {
        0
    } else {
        ring_inner_lane(zeta, a, b, lane, n - 1) + ring_product_lane(zeta, a[n - 1]@, b[n - 1]@, lane)
    }
}

/// `sum_i a[i] b[i]` over the common prefix of the two slices.
pub fn ring_inner_product(a: &Vec<[u64; 128]>, b: &Vec<[u64; 128]>, zeta: &[u64; 64]) -> (r: [u64; 128])
    requires
        forall|i: int| 0 <= i < a.len() ==> lanes_valid(#[trigger] a@[i]),
        forall|i: int| 0 <= i < b.len() ==> lanes_valid(#[trigger] b@[i]),
    ensures
        lanes_valid(r),
        forall|lane: int|
            0 <= lane < 128 ==> #[trigger] r[lane] as int == ring_inner_lane(
                zeta@,
                a@,
                b@,
                lane,
                if a.len() <= b.len() {
                    a.len() as int
                } else {
                    b.len() as int
                },
            ) % q(),
{
    let n = if a.len() <= b.len() {
        a.len()
    } else {
        b.len()
    };
    let mut acc = [0u64; 128];
    proof {
        lemma_small_mod(0, Q as nat);
    }
    let mut i: usize = 0;
    while i < n
        invariant
            n <= a.len(),
            n <= b.len(),
            forall|j: int| 0 <= j < a.len() ==> lanes_valid(#[trigger] a@[j]),
            forall|j: int| 0 <= j < b.len() ==> lanes_valid(#[trigger] b@[j]),
            i <= n,
            lanes_valid(acc),
            forall|lane: int|
                0 <= lane < 128 ==> #[trigger] acc[lane] as int == ring_inner_lane(zeta@, a@, b@, lane, i as int)
                    % q(),
        decreases n - i,
    {
        let x = &a[i];
        let y = &b[i];
        assert(lanes_valid(*x));
        assert(lanes_valid(*y));
        let product = ring_mul(x, y, zeta);
        let before = acc;
        acc = ring_add(&before, &product);
        proof {
            assert forall|lane: int| 0 <= lane < 128 implies #[trigger] acc[lane] as int
                == ring_inner_lane(zeta@, a@, b@, lane, i + 1) % q() by {
                lemma_add_mod_noop(
                    ring_inner_lane(zeta@, a@, b@, lane, i as int),
                    ring_product_lane(zeta@, x@, y@, lane),
                    q(),
                );
            }
        }
        i = i + 1;
    }
    acc
}

/// The batched evaluation claim `sum_i values[i] batching[i]`.
pub fn batched_claim(values: &Vec<[u64; 128]>, batching: &Vec<[u64; 128]>, zeta: &[u64; 64]) -> (r: [u64; 128])
    requires
        forall|i: int| 0 <= i < values.len() ==> lanes_valid(#[trigger] values@[i]),
        forall|i: int| 0 <= i < batching.len() ==> lanes_valid(#[trigger] batching@[i]),
    ensures
        lanes_valid(r),
        forall|lane: int|
            0 <= lane < 128 ==> #[trigger] r[lane] as int == ring_inner_lane(
                zeta@,
                values@,
                batching@,
                lane,
                if values.len() <= batching.len() {
                    values.len() as int
                } else {
                    batching.len() as int
                },
            ) % q(),
{
    ring_inner_product(values, batching, zeta)
}

/// Every batched projection `<j_batched[v], fine_input>`.
pub fn batched_projections(fine_input: &Vec<[u64; 128]>, j_batched: &Vec<Vec<[u64; 128]>>, zeta: &[u64; 64]) -> (r: Vec<[u64; 128]>)
    requires
        forall|i: int| 0 <= i < fine_input.len() ==> lanes_valid(#[trigger] fine_input@[i]),
        forall|v: int, i: int|
            0 <= v < j_batched.len() && 0 <= i < j_batched@[v].len() ==> lanes_valid(
                #[trigger] j_batched@[v]@[i],
            ),
    ensures
        r.len() == j_batched.len(),
        forall|v: int, lane: int|
            0 <= v < j_batched.len() && 0 <= lane < 128 ==> #[trigger] r@[v][lane] as int == ring_inner_lane(
                zeta@,
                j_batched@[v]@,
                fine_input@,
                lane,
                if j_batched@[v].len() <= fine_input.len() {
                    j_batched@[v].len() as int
                } else {
                    fine_input.len() as int
                },
            ) % q(),
{
    let mut out: Vec<[u64; 128]> = Vec::new();
    let mut v: usize = 0;
    while v < j_batched.len()
        invariant
            v <= j_batched.len(),
            out.len() == v,
            forall|i: int| 0 <= i < fine_input.len() ==> lanes_valid(#[trigger] fine_input@[i]),
            forall|w: int, i: int|
                0 <= w < j_batched.len() && 0 <= i < j_batched@[w].len() ==> lanes_valid(
                    #[trigger] j_batched@[w]@[i],
                ),
            forall|w: int, lane: int|
                0 <= w < v && 0 <= lane < 128 ==> #[trigger] out@[w][lane] as int == ring_inner_lane(
                    zeta@,
                    j_batched@[w]@,
                    fine_input@,
                    lane,
                    if j_batched@[w].len() <= fine_input.len() {
                        j_batched@[w].len() as int
                    } else {
                        fine_input.len() as int
                    },
                ) % q(),
        decreases j_batched.len() - v,
    {
        let vector = &j_batched[v];
        proof {
            assert forall|i: int| 0 <= i < vector.len() implies lanes_valid(#[trigger] vector@[i]) by {
                assert(lanes_valid(j_batched@[v as int]@[i]));
            }
        }
        out.push(ring_inner_product(vector, fine_input, zeta));
        v = v + 1;
    }
    out
}

/// The value of a column at an extension point given by its eq weights:
/// `sum_b eq[b] values[b]`, the weights applied limb by limb and the second
/// limb's sum multiplied by `alpha`, the ring image of the extension's
/// generator.
pub fn evaluate_column(values: &Vec<[u64; 128]>, eq: &QeVec, alpha: &[u64; 128], zeta: &[u64; 64]) -> (r: [u64; 128])
    requires
        qe_vec_valid(eq),
        values.len() == eq.limb0.len(),
        values.len() > 0,
        forall|i: int| 0 <= i < values.len() ==> lanes_valid(#[trigger] values@[i]),
        lanes_valid(*alpha),
    ensures
        forall|lane: int|
            0 <= lane < 128 ==> #[trigger] r[lane] as int == (weighted_lane(
                eq.limb0@,
                values@,
                0,
                lane,
                values.len() as int,
            ) + ring_product_lane(
                zeta@,
                weighted_element(eq.limb1@, values@, 0, values.len() as int),
                alpha@,
                lane,
            )) % q(),
{
    assert(values.len() % values.len() == 0) by {
        lemma_mod_self_0(values.len() as int);
    }
    let out = contract_pass(values, eq, alpha, zeta);
    assert(values.len() / values.len() == 1) by {
        lemma_div_by_self(values.len() as int);
    }
    assert(0 * values.len() == 0);
    out[0]
}

/// The eq weights of the layers, one limb.
pub open spec fn eq_limb(s: u64, layers: Seq<QuadraticExtension>, limb: int) -> Seq<u64> {
    Seq::new(
        pow2(layers.len() as nat),
        |b: int| if limb == 0 { eq_entry(s, layers, b).c0 } else { eq_entry(s, layers, b).c1 },
    )
}

/// The multilinear extension of `values` at an extension point given by its
/// layers (most significant first): `sum_b eq(layers, b) values[b]`.
pub fn mle_evaluate(
    values: &Vec<[u64; 128]>,
    layers: &Vec<QuadraticExtension>,
    s: u64,
    alpha: &[u64; 128],
    zeta: &[u64; 64],
) -> (r: [u64; 128])
    requires
        values.len() == pow2(layers.len() as nat),
        forall|i: int| 0 <= i < layers.len() ==> qe_valid(#[trigger] layers@[i]),
        forall|i: int| 0 <= i < values.len() ==> lanes_valid(#[trigger] values@[i]),
        lanes_valid(*alpha),
    ensures
        forall|lane: int|
            0 <= lane < 128 ==> #[trigger] r[lane] as int == (weighted_lane(
                eq_limb(s, layers@, 0),
                values@,
                0,
                lane,
                values.len() as int,
            ) + ring_product_lane(
                zeta@,
                weighted_element(eq_limb(s, layers@, 1), values@, 0, values.len() as int),
                alpha@,
                lane,
            )) % q(),
{
    let eq = expand_eq_soa(layers, s);
    proof {
        vstd::arithmetic::power2::lemma_pow2_pos(layers.len() as nat);
        assert(eq.limb0@ =~= eq_limb(s, layers@, 0)) by {
            assert forall|b: int| 0 <= b < eq.limb0.len() implies eq.limb0@[b] == eq_limb(s, layers@, 0)[b] by {
                assert(eq@[b] == eq_entry(s, layers@, b));
            }
        }
        assert(eq.limb1@ =~= eq_limb(s, layers@, 1)) by {
            assert forall|b: int| 0 <= b < eq.limb1.len() implies eq.limb1@[b] == eq_limb(s, layers@, 1)[b] by {
                assert(eq@[b] == eq_entry(s, layers@, b));
            }
        }
    }
    evaluate_column(values, &eq, alpha, zeta)
}

} // verus!
