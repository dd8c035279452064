//! Folding commutes with committing: committing to the folded witness gives
//! the folded commitment. The proof works in the slot ring over the
//! integers, where lane vectors are functions from lane to integer, and
//! reduces modulo `q` at the end.
use crate::config::FOLD_INPUTS;
use crate::ifma::{q, Q};
use crate::ring::{fold_commitment_lane, lanes_valid, ring_dot_lane, ring_product_lane};
use vstd::arithmetic::div_mod::*;
use vstd::prelude::*;

verus! {

/// The lanes of a stored ring element.
pub open spec fn lanes_of(v: [u64; 128]) -> spec_fn(int) -> int {
    |l: int| v[l] as int
}

/// The slot-wise product of two integer lane vectors.
pub open spec fn slot_mul(z: Seq<u64>, x: spec_fn(int) -> int, y: spec_fn(int) -> int) -> spec_fn(int) -> int {
    |l: int|
        if l < 64 {
            x(l) * y(l) + z[l] * (x(l + 64) * y(l + 64))
        } else {
            x(l - 64) * y(l) + x(l) * y(l - 64)
        }
}

/// The unit of every slot.
pub open spec fn unit_lanes() -> spec_fn(int) -> int {
    |l: int| if l < 64 { 1int } else { 0int }
}

/// Two lane vectors agree modulo `q` on every lane.
pub open spec fn lanes_congruent(x: spec_fn(int) -> int, y: spec_fn(int) -> int) -> bool {
    forall|l: int| 0 <= l < 128 ==> #[trigger] x(l) % q() == y(l) % q()
}

proof fn lemma_slot_mul_comm(z: Seq<u64>, x: spec_fn(int) -> int, y: spec_fn(int) -> int, l: int)
    requires
        0 <= l < 128,
    ensures
        slot_mul(z, x, y)(l) == slot_mul(z, y, x)(l),
{
    if l < 64 {
        assert(x(l) * y(l) == y(l) * x(l)) by (nonlinear_arith);
        assert(x(l + 64) * y(l + 64) == y(l + 64) * x(l + 64)) by (nonlinear_arith);
    } else {
        assert(x(l - 64) * y(l) == y(l) * x(l - 64)) by (nonlinear_arith);
        assert(x(l) * y(l - 64) == y(l - 64) * x(l)) by (nonlinear_arith);
    }
}

proof fn lemma_slot_mul_one(z: Seq<u64>, x: spec_fn(int) -> int, l: int)
    requires
        0 <= l < 128,
    ensures
        slot_mul(z, x, unit_lanes())(l) == x(l),
{
    let u = unit_lanes();
    if l < 64 {
        assert(u(l) == 1);
        assert(u(l + 64) == 0);
        assert(x(l) * 1 + z[l] * (x(l + 64) * 0) == x(l)) by (nonlinear_arith);
    } else {
        assert(u(l) == 0);
        assert(u(l - 64) == 1);
        assert(x(l - 64) * 0 + x(l) * 1 == x(l)) by (nonlinear_arith);
    }
}

proof fn lemma_slot_mul_add_left(
    z: Seq<u64>,
    x1: spec_fn(int) -> int,
    x2: spec_fn(int) -> int,
    y: spec_fn(int) -> int,
    l: int,
)
    requires
        0 <= l < 128,
    ensures
        slot_mul(z, |m: int| x1(m) + x2(m), y)(l) == slot_mul(z, x1, y)(l) + slot_mul(z, x2, y)(l),
{
    if l < 64 {
        let a1 = x1(l);
        let a2 = x2(l);
        let b1 = x1(l + 64);
        let b2 = x2(l + 64);
        let c = y(l);
        let d = y(l + 64);
        let zl = z[l] as int;
        assert((a1 + a2) * c == a1 * c + a2 * c) by (nonlinear_arith);
        assert((b1 + b2) * d == b1 * d + b2 * d) by (nonlinear_arith);
        assert(zl * (b1 * d + b2 * d) == zl * (b1 * d) + zl * (b2 * d)) by (nonlinear_arith);
    } else {
        let a1 = x1(l - 64);
        let a2 = x2(l - 64);
        let b1 = x1(l);
        let b2 = x2(l);
        let c = y(l - 64);
        let d = y(l);
        assert((a1 + a2) * d == a1 * d + a2 * d) by (nonlinear_arith);
        assert((b1 + b2) * c == b1 * c + b2 * c) by (nonlinear_arith);
    }
}

proof fn lemma_slot_mul_assoc(
    z: Seq<u64>,
    x: spec_fn(int) -> int,
    y: spec_fn(int) -> int,
    w: spec_fn(int) -> int,
    l: int,
)
    requires
        0 <= l < 128,
    ensures
        slot_mul(z, x, slot_mul(z, y, w))(l) == slot_mul(z, slot_mul(z, x, y), w)(l),
{
    let yw = slot_mul(z, y, w);
    let xy = slot_mul(z, x, y);
    if l < 64 {
        let zl = z[l] as int;
        let (xa, xb) = (x(l), x(l + 64));
        let (ya, yb) = (y(l), y(l + 64));
        let (wa, wb) = (w(l), w(l + 64));
        assert(yw(l) == ya * wa + zl * (yb * wb));
        assert(yw(l + 64) == ya * wb + yb * wa);
        assert(xy(l) == xa * ya + zl * (xb * yb));
        assert(xy(l + 64) == xa * yb + xb * ya);
        lemma_mul_distrib(xa, ya * wa, zl * (yb * wb));
        lemma_mul_distrib(xb, ya * wb, yb * wa);
        lemma_mul_distrib(zl, xb * (ya * wb), xb * (yb * wa));
        lemma_mul_distrib_right(xa * ya, zl * (xb * yb), wa);
        lemma_mul_distrib_right(xa * yb, xb * ya, wb);
        lemma_mul_distrib(zl, (xa * yb) * wb, (xb * ya) * wb);
        assert(xa * (ya * wa) == (xa * ya) * wa) by (nonlinear_arith);
        assert(xa * (zl * (yb * wb)) == zl * ((xa * yb) * wb)) by (nonlinear_arith);
        assert(zl * (xb * (ya * wb)) == zl * ((xb * ya) * wb)) by (nonlinear_arith);
        assert(zl * (xb * (yb * wa)) == (zl * (xb * yb)) * wa) by (nonlinear_arith);
    } else {
        let zl = z[l - 64] as int;
        let (xa, xb) = (x(l - 64), x(l));
        let (ya, yb) = (y(l - 64), y(l));
        let (wa, wb) = (w(l - 64), w(l));
        assert(yw(l - 64) == ya * wa + zl * (yb * wb));
        assert(yw(l) == ya * wb + yb * wa);
        assert(xy(l - 64) == xa * ya + zl * (xb * yb));
        assert(xy(l) == xa * yb + xb * ya);
        lemma_mul_distrib(xa, ya * wb, yb * wa);
        lemma_mul_distrib(xb, ya * wa, zl * (yb * wb));
        lemma_mul_distrib_right(xa * ya, zl * (xb * yb), wb);
        lemma_mul_distrib_right(xa * yb, xb * ya, wa);
        assert(xa * (ya * wb) == (xa * ya) * wb) by (nonlinear_arith);
        assert(xa * (yb * wa) == (xa * yb) * wa) by (nonlinear_arith);
        assert(xb * (ya * wa) == (xb * ya) * wa) by (nonlinear_arith);
        assert(xb * (zl * (yb * wb)) == (zl * (xb * yb)) * wb) by (nonlinear_arith);
    }
}

/// `a (b + c) = a b + a c`.
proof fn lemma_mul_distrib(a: int, b: int, c: int)
    ensures
        a * (b + c) == a * b + a * c,
{
    vstd::arithmetic::mul::lemma_mul_is_distributive_add(a, b, c);
}

/// `(a + b) c = a c + b c`.
proof fn lemma_mul_distrib_right(a: int, b: int, c: int)
    ensures
        (a + b) * c == a * c + b * c,
{
    vstd::arithmetic::mul::lemma_mul_is_distributive_add_other_way(c, a, b);
}

/// `a = a2` and `b = b2` mod `q` give `a b = a2 b2` mod `q`.
proof fn lemma_cong_product(a: int, a2: int, b: int, b2: int)
    requires
        a % q() == a2 % q(),
        b % q() == b2 % q(),
    ensures
        (a * b) % q() == (a2 * b2) % q(),
{
    lemma_mul_mod_noop(a, b, q());
    lemma_mul_mod_noop(a2, b2, q());
}

/// `a = a2` and `b = b2` mod `q` give `a + b = a2 + b2` mod `q`.
proof fn lemma_cong_sum(a: int, a2: int, b: int, b2: int)
    requires
        a % q() == a2 % q(),
        b % q() == b2 % q(),
    ensures
        (a + b) % q() == (a2 + b2) % q(),
{
    lemma_add_mod_noop(a, b, q());
    lemma_add_mod_noop(a2, b2, q());
}

/// Congruent factors give congruent slot products.
proof fn lemma_slot_mul_cong(
    z: Seq<u64>,
    x: spec_fn(int) -> int,
    x2: spec_fn(int) -> int,
    y: spec_fn(int) -> int,
    y2: spec_fn(int) -> int,
    l: int,
)
    requires
        0 <= l < 128,
        lanes_congruent(x, x2),
        lanes_congruent(y, y2),
    ensures
        slot_mul(z, x, y)(l) % q() == slot_mul(z, x2, y2)(l) % q(),
{
    if l < 64 {
        assert(x(l) % q() == x2(l) % q());
        assert(y(l) % q() == y2(l) % q());
        assert(x(l + 64) % q() == x2(l + 64) % q());
        assert(y(l + 64) % q() == y2(l + 64) % q());
        lemma_cong_product(x(l), x2(l), y(l), y2(l));
        lemma_cong_product(x(l + 64), x2(l + 64), y(l + 64), y2(l + 64));
        lemma_cong_product(z[l] as int, z[l] as int, x(l + 64) * y(l + 64), x2(l + 64) * y2(l + 64));
        lemma_cong_sum(
            x(l) * y(l),
            x2(l) * y2(l),
            z[l] * (x(l + 64) * y(l + 64)),
            z[l] * (x2(l + 64) * y2(l + 64)),
        );
    } else {
        assert(x(l) % q() == x2(l) % q());
        assert(y(l) % q() == y2(l) % q());
        assert(x(l - 64) % q() == x2(l - 64) % q());
        assert(y(l - 64) % q() == y2(l - 64) % q());
        lemma_cong_product(x(l - 64), x2(l - 64), y(l), y2(l));
        lemma_cong_product(x(l), x2(l), y(l - 64), y2(l - 64));
        lemma_cong_sum(x(l - 64) * y(l), x2(l - 64) * y2(l), x(l) * y(l - 64), x2(l) * y2(l - 64));
    }
}

/// A slot product at a lane only reads its factors at that slot.
proof fn lemma_slot_mul_ext(
    z: Seq<u64>,
    x: spec_fn(int) -> int,
    x2: spec_fn(int) -> int,
    y: spec_fn(int) -> int,
    y2: spec_fn(int) -> int,
    l: int,
)
    requires
        0 <= l < 128,
        forall|m: int| 0 <= m < 128 ==> #[trigger] x(m) == x2(m),
        forall|m: int| 0 <= m < 128 ==> #[trigger] y(m) == y2(m),
    ensures
        slot_mul(z, x, y)(l) == slot_mul(z, x2, y2)(l),
{
    if l < 64 {
        assert(x(l + 64) == x2(l + 64));
        assert(y(l + 64) == y2(l + 64));
        assert(x(l) == x2(l));
        assert(y(l) == y2(l));
    } else {
        assert(x(l - 64) == x2(l - 64));
        assert(y(l - 64) == y2(l - 64));
        assert(x(l) == x2(l));
        assert(y(l) == y2(l));
    }
}

/// A lane of a stored product is a lane of the slot product of its lanes.
proof fn lemma_product_lane_is_slot_mul(z: Seq<u64>, x: [u64; 128], y: [u64; 128], l: int)
    requires
        0 <= l < 128,
    ensures
        ring_product_lane(z, x@, y@, l) == slot_mul(z, lanes_of(x), lanes_of(y))(l),
{
}

/// The integer lanes of `sum_{i < n} key[base + i] column[i]`.
pub open spec fn dot_lanes(z: Seq<u64>, key: Seq<[u64; 128]>, column: Seq<[u64; 128]>, base: int, n: int) -> spec_fn(int) -> int {
    |l: int| ring_dot_lane(z, key, column, base, l, n)
}

proof fn lemma_slot_mul_add_right(
    z: Seq<u64>,
    x: spec_fn(int) -> int,
    y1: spec_fn(int) -> int,
    y2: spec_fn(int) -> int,
    l: int,
)
    requires
        0 <= l < 128,
    ensures
        slot_mul(z, x, |m: int| y1(m) + y2(m))(l) == slot_mul(z, x, y1)(l) + slot_mul(z, x, y2)(l),
{
    let y = |m: int| y1(m) + y2(m);
    lemma_slot_mul_comm(z, x, y, l);
    lemma_slot_mul_add_left(z, y1, y2, x, l);
    lemma_slot_mul_comm(z, y1, x, l);
    lemma_slot_mul_comm(z, y2, x, l);
}

/// The zero vector times anything is zero.
proof fn lemma_slot_mul_zero(z: Seq<u64>, x: spec_fn(int) -> int, y: spec_fn(int) -> int, l: int)
    requires
        0 <= l < 128,
        forall|m: int| 0 <= m < 128 ==> #[trigger] x(m) == 0,
    ensures
        slot_mul(z, x, y)(l) == 0,
{
    if l < 64 {
        assert(x(l) == 0);
        assert(x(l + 64) == 0);
        assert(0 * y(l) + z[l] * (0 * y(l + 64)) == 0) by (nonlinear_arith);
    } else {
        assert(x(l) == 0);
        assert(x(l - 64) == 0);
        assert(0 * y(l) + 0 * y(l - 64) == 0) by (nonlinear_arith);
    }
}

/// The lanes of a folded witness element before reduction:
/// `acc[i] + c0 w0[i] + c1 w1[i]`.
pub open spec fn folded_lanes(
    z: Seq<u64>,
    w0: Seq<[u64; 128]>,
    w1: Seq<[u64; 128]>,
    w2: Seq<[u64; 128]>,
    c0: [u64; 128],
    c1: [u64; 128],
    i: int,
) -> spec_fn(int) -> int {
    |l: int| w2[i][l] + ring_product_lane(z, c0@, w0[i]@, l) + ring_product_lane(z, c1@, w1[i]@, l)
}

/// One more folded row: the key row times the folded element splits into
/// the key row times each input, the fresh ones times their challenges.
proof fn lemma_fold_term(
    z: Seq<u64>,
    k: [u64; 128],
    a0: [u64; 128],
    a1: [u64; 128],
    a2: [u64; 128],
    c0: [u64; 128],
    c1: [u64; 128],
    g: spec_fn(int) -> int,
    l: int,
)
    requires
        0 <= l < 128,
        forall|m: int|
            0 <= m < 128 ==> #[trigger] g(m) == a2[m] + ring_product_lane(z, c0@, a0@, m)
                + ring_product_lane(z, c1@, a1@, m),
    ensures
        slot_mul(z, lanes_of(k), g)(l) == slot_mul(z, lanes_of(k), lanes_of(a2))(l) + slot_mul(
            z,
            slot_mul(z, lanes_of(k), lanes_of(a0)),
            lanes_of(c0),
        )(l) + slot_mul(z, slot_mul(z, lanes_of(k), lanes_of(a1)), lanes_of(c1))(l),
{
    let kk = lanes_of(k);
    let q0 = slot_mul(z, lanes_of(c0), lanes_of(a0));
    let q1 = slot_mul(z, lanes_of(c1), lanes_of(a1));
    let a = |m: int| lanes_of(a2)(m) + q0(m);
    let g2 = |m: int| a(m) + q1(m);
    assert forall|m: int| 0 <= m < 128 implies #[trigger] g(m) == g2(m) by {
        lemma_product_lane_is_slot_mul(z, c0, a0, m);
        lemma_product_lane_is_slot_mul(z, c1, a1, m);
    }
    assert forall|m: int| 0 <= m < 128 implies #[trigger] kk(m) == kk(m) by {}
    lemma_slot_mul_ext(z, kk, kk, g, g2, l);
    lemma_slot_mul_add_right(z, kk, a, q1, l);
    lemma_slot_mul_add_right(z, kk, lanes_of(a2), q0, l);
    // c a = a c, then regroup
    let r0 = slot_mul(z, lanes_of(a0), lanes_of(c0));
    let r1 = slot_mul(z, lanes_of(a1), lanes_of(c1));
    assert forall|m: int| 0 <= m < 128 implies #[trigger] q0(m) == r0(m) by {
        lemma_slot_mul_comm(z, lanes_of(c0), lanes_of(a0), m);
    }
    assert forall|m: int| 0 <= m < 128 implies #[trigger] q1(m) == r1(m) by {
        lemma_slot_mul_comm(z, lanes_of(c1), lanes_of(a1), m);
    }
    lemma_slot_mul_ext(z, kk, kk, q0, r0, l);
    lemma_slot_mul_ext(z, kk, kk, q1, r1, l);
    lemma_slot_mul_assoc(z, kk, lanes_of(a0), lanes_of(c0), l);
    lemma_slot_mul_assoc(z, kk, lanes_of(a1), lanes_of(c1), l);
}

/// Over the first `n` rows, the key dotted with the folded column is, mod
/// `q`, the key dotted with the accumulator plus each fresh column's key
/// dot times its challenge.
proof fn lemma_fold_prefix(
    z: Seq<u64>,
    key: Seq<[u64; 128]>,
    w0: Seq<[u64; 128]>,
    w1: Seq<[u64; 128]>,
    w2: Seq<[u64; 128]>,
    folded: Seq<[u64; 128]>,
    c0: [u64; 128],
    c1: [u64; 128],
    base: int,
    n: int,
    l: int,
)
    requires
        0 <= l < 128,
        0 <= n,
        forall|i: int|
            0 <= i < n ==> lanes_congruent(
                lanes_of(#[trigger] folded[i]),
                folded_lanes(z, w0, w1, w2, c0, c1, i),
            ),
    ensures
        ring_dot_lane(z, key, folded, base, l, n) % q() == (ring_dot_lane(z, key, w2, base, l, n)
            + slot_mul(z, dot_lanes(z, key, w0, base, n), lanes_of(c0))(l) + slot_mul(
            z,
            dot_lanes(z, key, w1, base, n),
            lanes_of(c1),
        )(l)) % q(),
    decreases n,
{
    if n == 0 {
        assert forall|m: int| 0 <= m < 128 implies #[trigger] dot_lanes(z, key, w0, base, 0)(m) == 0 by {}
        assert forall|m: int| 0 <= m < 128 implies #[trigger] dot_lanes(z, key, w1, base, 0)(m) == 0 by {}
        lemma_slot_mul_zero(z, dot_lanes(z, key, w0, base, 0), lanes_of(c0), l);
        lemma_slot_mul_zero(z, dot_lanes(z, key, w1, base, 0), lanes_of(c1), l);
    } else {
        let i = n - 1;
        lemma_fold_prefix(z, key, w0, w1, w2, folded, c0, c1, base, n - 1, l);
        let k = key[base + i];
        let kk = lanes_of(k);
        let g = folded_lanes(z, w0, w1, w2, c0, c1, i);
        // the new term of the folded column
        lemma_product_lane_is_slot_mul(z, k, folded[i], l);
        assert(lanes_congruent(lanes_of(folded[i]), g));
        assert(lanes_congruent(kk, kk));
        lemma_slot_mul_cong(z, kk, kk, lanes_of(folded[i]), g, l);
        lemma_fold_term(z, k, w0[i], w1[i], w2[i], c0, c1, g, l);
        // the new terms of the accumulator and fresh dots
        lemma_product_lane_is_slot_mul(z, k, w2[i], l);
        let t0 = slot_mul(z, kk, lanes_of(w0[i]));
        let t1 = slot_mul(z, kk, lanes_of(w1[i]));
        let d0 = dot_lanes(z, key, w0, base, n - 1);
        let d1 = dot_lanes(z, key, w1, base, n - 1);
        let s0 = |m: int| d0(m) + t0(m);
        let s1 = |m: int| d1(m) + t1(m);
        assert forall|m: int| 0 <= m < 128 implies #[trigger] dot_lanes(z, key, w0, base, n)(m) == s0(m) by {
            lemma_product_lane_is_slot_mul(z, k, w0[i], m);
        }
        assert forall|m: int| 0 <= m < 128 implies #[trigger] dot_lanes(z, key, w1, base, n)(m) == s1(m) by {
            lemma_product_lane_is_slot_mul(z, k, w1[i], m);
        }
        assert forall|m: int| 0 <= m < 128 implies #[trigger] lanes_of(c0)(m) == lanes_of(c0)(m) by {}
        assert forall|m: int| 0 <= m < 128 implies #[trigger] lanes_of(c1)(m) == lanes_of(c1)(m) by {}
        lemma_slot_mul_ext(z, dot_lanes(z, key, w0, base, n), s0, lanes_of(c0), lanes_of(c0), l);
        lemma_slot_mul_ext(z, dot_lanes(z, key, w1, base, n), s1, lanes_of(c1), lanes_of(c1), l);
        lemma_slot_mul_add_left(z, d0, t0, lanes_of(c0), l);
        lemma_slot_mul_add_left(z, d1, t1, lanes_of(c1), l);
        let prev = ring_dot_lane(z, key, folded, base, l, n - 1);
        let prev_rhs = ring_dot_lane(z, key, w2, base, l, n - 1) + slot_mul(z, d0, lanes_of(c0))(l)
            + slot_mul(z, d1, lanes_of(c1))(l);
        lemma_cong_sum(
            prev,
            prev_rhs,
            ring_product_lane(z, k@, folded[i]@, l),
            slot_mul(z, kk, g)(l),
        );
    }
}

/// Committing commutes with folding. Take a witness of three columns (two
/// fresh ones and the accumulator), folding challenges with the unit on the
/// accumulator, the folded column `acc[i] + c0 w0[i] + c1 w1[i]` and the
/// commitment to the three columns: then for every key row and lane the
/// commitment to the folded column equals the folded commitment
/// `sum_col commitment[row, col] challenges[col]`, both mod `q`.
pub proof fn lemma_commitment_of_fold(
    zeta: Seq<u64>,
    key: Seq<[u64; 128]>,
    w0: Seq<[u64; 128]>,
    w1: Seq<[u64; 128]>,
    w2: Seq<[u64; 128]>,
    challenges: Seq<[u64; 128]>,
    folded: Seq<[u64; 128]>,
    commitment: Seq<[u64; 128]>,
    height: int,
    row: int,
    lane: int,
)
    requires
        0 <= lane < 128,
        0 <= height,
        challenges.len() == FOLD_INPUTS,
        forall|m: int| 0 <= m < 128 ==> #[trigger] challenges[2][m] == if m < 64 {
            1u64
        } else {
            0u64
        },
        forall|i: int, m: int|
            0 <= i < height && 0 <= m < 128 ==> #[trigger] folded[i][m] as int == (w2[i][m]
                + ring_product_lane(zeta, challenges[0]@, w0[i]@, m) + ring_product_lane(
                zeta,
                challenges[1]@,
                w1[i]@,
                m,
            )) % q(),
        forall|m: int|
            0 <= m < 128 ==> #[trigger] commitment[row * FOLD_INPUTS + 0][m] as int == ring_dot_lane(
                zeta,
                key,
                w0,
                row * height,
                m,
                height,
            ) % q(),
        forall|m: int|
            0 <= m < 128 ==> #[trigger] commitment[row * FOLD_INPUTS + 1][m] as int == ring_dot_lane(
                zeta,
                key,
                w1,
                row * height,
                m,
                height,
            ) % q(),
        forall|m: int|
            0 <= m < 128 ==> #[trigger] commitment[row * FOLD_INPUTS + 2][m] as int == ring_dot_lane(
                zeta,
                key,
                w2,
                row * height,
                m,
                height,
            ) % q(),
    ensures
        ring_dot_lane(zeta, key, folded, row * height, lane, height) % q() == fold_commitment_lane(
            zeta,
            commitment,
            challenges,
            row,
            lane,
            FOLD_INPUTS as int,
        ) % q(),
{
    let base = row * height;
    let c0 = challenges[0];
    let c1 = challenges[1];
    let c2 = challenges[2];
    assert forall|i: int| 0 <= i < height implies lanes_congruent(
        lanes_of(#[trigger] folded[i]),
        folded_lanes(zeta, w0, w1, w2, c0, c1, i),
    ) by {
        assert forall|m: int| 0 <= m < 128 implies #[trigger] lanes_of(folded[i])(m) % q() == folded_lanes(
            zeta,
            w0,
            w1,
            w2,
            c0,
            c1,
            i,
        )(m) % q() by {
            lemma_mod_twice(folded_lanes(zeta, w0, w1, w2, c0, c1, i)(m), q());
        }
    }
    lemma_fold_prefix(zeta, key, w0, w1, w2, folded, c0, c1, base, height, lane);
    let d0 = dot_lanes(zeta, key, w0, base, height);
    let d1 = dot_lanes(zeta, key, w1, base, height);
    let d2 = dot_lanes(zeta, key, w2, base, height);
    let e0 = commitment[row * FOLD_INPUTS + 0];
    let e1 = commitment[row * FOLD_INPUTS + 1];
    let e2 = commitment[row * FOLD_INPUTS + 2];
    // each committed entry is congruent to its unreduced key dot
    assert(lanes_congruent(lanes_of(e0), d0)) by {
        assert forall|m: int| 0 <= m < 128 implies #[trigger] lanes_of(e0)(m) % q() == d0(m) % q() by {
            lemma_mod_twice(d0(m), q());
        }
    }
    assert(lanes_congruent(lanes_of(e1), d1)) by {
        assert forall|m: int| 0 <= m < 128 implies #[trigger] lanes_of(e1)(m) % q() == d1(m) % q() by {
            lemma_mod_twice(d1(m), q());
        }
    }
    assert(lanes_congruent(lanes_of(e2), d2)) by {
        assert forall|m: int| 0 <= m < 128 implies #[trigger] lanes_of(e2)(m) % q() == d2(m) % q() by {
            lemma_mod_twice(d2(m), q());
        }
    }
    assert(lanes_congruent(lanes_of(c0), lanes_of(c0)));
    assert(lanes_congruent(lanes_of(c1), lanes_of(c1)));
    assert(lanes_congruent(lanes_of(c2), unit_lanes())) by {
        assert forall|m: int| 0 <= m < 128 implies #[trigger] lanes_of(c2)(m) % q() == unit_lanes()(m) % q() by {
            assert(c2[m] == if m < 64 { 1u64 } else { 0u64 });
        }
    }
    lemma_product_lane_is_slot_mul(zeta, e0, c0, lane);
    lemma_product_lane_is_slot_mul(zeta, e1, c1, lane);
    lemma_product_lane_is_slot_mul(zeta, e2, c2, lane);
    lemma_slot_mul_cong(zeta, lanes_of(e0), d0, lanes_of(c0), lanes_of(c0), lane);
    lemma_slot_mul_cong(zeta, lanes_of(e1), d1, lanes_of(c1), lanes_of(c1), lane);
    lemma_slot_mul_cong(zeta, lanes_of(e2), d2, lanes_of(c2), unit_lanes(), lane);
    lemma_slot_mul_one(zeta, d2, lane);
    let r0 = ring_product_lane(zeta, e0@, c0@, lane);
    let r1 = ring_product_lane(zeta, e1@, c1@, lane);
    let r2 = ring_product_lane(zeta, e2@, c2@, lane);
    assert(fold_commitment_lane(zeta, commitment, challenges, row, lane, 0) == 0);
    assert(row * FOLD_INPUTS + 1 - 1 == row * FOLD_INPUTS + 0);
    assert(fold_commitment_lane(zeta, commitment, challenges, row, lane, 1) == r0);
    assert(fold_commitment_lane(zeta, commitment, challenges, row, lane, 2) == r0 + r1);
    assert(fold_commitment_lane(zeta, commitment, challenges, row, lane, 3) == r0 + r1 + r2);
    let s0 = slot_mul(zeta, d0, lanes_of(c0))(lane);
    let s1 = slot_mul(zeta, d1, lanes_of(c1))(lane);
    let s2 = d2(lane);
    lemma_cong_sum(r0, s0, r1, s1);
    lemma_cong_sum(r0 + r1, s0 + s1, r2, s2);
    assert(s2 == ring_dot_lane(zeta, key, w2, base, lane, height));
}

} // verus!
