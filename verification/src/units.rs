//! Units of `F_q[X]/(X^128 + 1)` and the slots: a ring element whose value
//! at a slot root vanishes has no inverse. Polynomials are held as 128
//! integer coefficients read modulo `q`; the product is the negacyclic one,
//! `a b = sum_i a_i (X^i b mod X^128 + 1)`.
use crate::fq2::{fq2_one, minus_one, spec_mul, spec_pow, valid, Field, Fq2};
use crate::sampler::{challenge_in_range, Challenge};
use crate::slots::{slot_difference, slot_sum};
use vstd::arithmetic::div_mod::*;
use vstd::arithmetic::mul::{lemma_mul_is_distributive_add, lemma_mul_is_distributive_add_other_way};
use vstd::prelude::*;

verus! {

/// The zero polynomial.
pub open spec fn zero_poly() -> Seq<int> {
    Seq::new(128, |j: int| 0int)
}

/// The monomial `X^p`.
pub open spec fn unit_poly(p: int) -> Seq<int> {
    Seq::new(128, |j: int| if j == p { 1int } else { 0int })
}

/// `a + c b`, coefficient by coefficient.
pub open spec fn poly_add_scaled(a: Seq<int>, c: int, b: Seq<int>) -> Seq<int> {
    Seq::new(128, |j: int| a[j] + c * b[j])
}

/// `X b mod X^128 + 1`: the coefficients move up by one and the top one
/// comes back negated.
pub open spec fn shift_poly(b: Seq<int>) -> Seq<int> {
    Seq::new(128, |j: int| if j == 0 { -b[127] } else { b[j - 1] })
}

/// `X^i b mod X^128 + 1`.
pub open spec fn shift_pow(b: Seq<int>, i: nat) -> Seq<int>
    decreases i,
{
    if i == 0 {
        b
    } else {
        shift_poly(shift_pow(b, (i - 1) as nat))
    }
}

/// `sum_{i < n} a_i X^i b mod X^128 + 1`; with `n = 128` the product `a b`
/// in `Z[X]/(X^128 + 1)`.
pub open spec fn ring_product(a: Seq<int>, b: Seq<int>, n: int) -> Seq<int>
    decreases n,
{
    if n <= 0 {
        zero_poly()
    } else {
        poly_add_scaled(ring_product(a, b, n - 1), a[n - 1], shift_pow(b, (n - 1) as nat))
    }
}

/// `d` has an inverse in `F_q[X]/(X^128 + 1)`: some polynomial `inv` with
/// `d inv = 1` coefficient by coefficient modulo `q`.
pub open spec fn is_unit_mod(q: int, d: Seq<int>) -> bool {
    exists|inv: Seq<int>|
        inv.len() == 128 && forall|k: int|
            0 <= k < 128 ==> #[trigger] ring_product(d, inv, 128)[k] % q == if k == 0 {
                1int
            } else {
                0int
            }
}

/// The polynomial of the first `n` terms of a challenge,
/// `sum_i signs[i] X^positions[i]`.
pub open spec fn challenge_poly(c: Challenge, n: int) -> Seq<int>
    decreases n,
{
    if n <= 0 {
        zero_poly()
    } else {
        poly_add_scaled(challenge_poly(c, n - 1), c.signs[n - 1] as int, unit_poly(c.positions[n - 1] as int))
    }
}

/// The polynomial of `left - right`.
pub open spec fn challenge_difference(left: Challenge, right: Challenge) -> Seq<int> {
    poly_add_scaled(challenge_poly(left, left.weight as int), -1, challenge_poly(right, right.weight as int))
}

/// `sum_{j < n} p_j w_j` over the integers.
pub open spec fn linear_form(p: Seq<int>, w: Seq<int>, n: int) -> int
    decreases n,
{
    if n <= 0 {
        0
    } else {
        linear_form(p, w, n - 1) + p[n - 1] * w[n - 1]
    }
}

/// The first and the second coordinates of a row of field elements.
pub open spec fn coords_a(row: Seq<Fq2>) -> Seq<int> {
    Seq::new(128, |j: int| row[j].a as int)
}

pub open spec fn coords_b(row: Seq<Fq2>) -> Seq<int> {
    Seq::new(128, |j: int| row[j].b as int)
}

proof fn lemma_cong_mul(x: int, x2: int, y: int, m: int)
    requires
        m > 0,
        x % m == x2 % m,
    ensures
        (x * y) % m == (x2 * y) % m,
{
    lemma_mul_mod_noop_left(x, y, m);
    lemma_mul_mod_noop_left(x2, y, m);
}

proof fn lemma_cong_add(x: int, x2: int, y: int, y2: int, m: int)
    requires
        m > 0,
        x % m == x2 % m,
        y % m == y2 % m,
    ensures
        (x + y) % m == (x2 + y2) % m,
{
    lemma_add_mod_noop(x, y, m);
    lemma_add_mod_noop(x2, y2, m);
}

/// The form is linear in the polynomial.
proof fn lemma_form_linear_poly(a: Seq<int>, c: int, b: Seq<int>, w: Seq<int>, n: int)
    requires
        0 <= n <= 128,
    ensures
        linear_form(poly_add_scaled(a, c, b), w, n) == linear_form(a, w, n) + c * linear_form(b, w, n),
    decreases n,
{
    if n > 0 {
        lemma_form_linear_poly(a, c, b, w, n - 1);
        let j = n - 1;
        assert((a[j] + c * b[j]) * w[j] == a[j] * w[j] + c * (b[j] * w[j])) by (nonlinear_arith);
        assert(c * linear_form(b, w, n - 1) + c * (b[j] * w[j]) == c * (linear_form(b, w, n - 1) + b[j]
            * w[j])) by (nonlinear_arith);
    }
}

/// The form is linear in the weights.
proof fn lemma_form_linear_weights(p: Seq<int>, w1: Seq<int>, c: int, w2: Seq<int>, n: int)
    requires
        0 <= n <= 128,
    ensures
        linear_form(p, poly_add_scaled(w1, c, w2), n) == linear_form(p, w1, n) + c * linear_form(p, w2, n),
    decreases n,
{
    if n > 0 {
        lemma_form_linear_weights(p, w1, c, w2, n - 1);
        let j = n - 1;
        assert(p[j] * (w1[j] + c * w2[j]) == p[j] * w1[j] + c * (p[j] * w2[j])) by (nonlinear_arith);
        assert(c * linear_form(p, w2, n - 1) + c * (p[j] * w2[j]) == c * (linear_form(p, w2, n - 1) + p[j]
            * w2[j])) by (nonlinear_arith);
    }
}

/// Weights congruent on the first `n` positions give congruent forms.
proof fn lemma_form_cong_weights(p: Seq<int>, w1: Seq<int>, w2: Seq<int>, n: int, m: int)
    requires
        m > 0,
        0 <= n,
        forall|j: int| 0 <= j < n ==> #[trigger] w1[j] % m == w2[j] % m,
    ensures
        linear_form(p, w1, n) % m == linear_form(p, w2, n) % m,
    decreases n,
{
    if n > 0 {
        lemma_form_cong_weights(p, w1, w2, n - 1, m);
        let j = n - 1;
        lemma_cong_mul(w1[j], w2[j], p[j], m);
        assert(p[j] * w1[j] == w1[j] * p[j]) by (nonlinear_arith);
        assert(p[j] * w2[j] == w2[j] * p[j]) by (nonlinear_arith);
        lemma_cong_add(linear_form(p, w1, n - 1), linear_form(p, w2, n - 1), p[j] * w1[j], p[j] * w2[j], m);
    }
}

/// Polynomials congruent on the first `n` coefficients give congruent forms.
proof fn lemma_form_cong_poly(p1: Seq<int>, p2: Seq<int>, w: Seq<int>, n: int, m: int)
    requires
        m > 0,
        0 <= n,
        forall|j: int| 0 <= j < n ==> #[trigger] p1[j] % m == p2[j] % m,
    ensures
        linear_form(p1, w, n) % m == linear_form(p2, w, n) % m,
    decreases n,
{
    if n > 0 {
        lemma_form_cong_poly(p1, p2, w, n - 1, m);
        let j = n - 1;
        lemma_cong_mul(p1[j], p2[j], w[j], m);
        lemma_cong_add(linear_form(p1, w, n - 1), linear_form(p2, w, n - 1), p1[j] * w[j], p2[j] * w[j], m);
    }
}

/// The form of a monomial picks its weight.
proof fn lemma_form_unit(p: int, w: Seq<int>, n: int)
    requires
        0 <= n <= 128,
    ensures
        linear_form(unit_poly(p), w, n) == if 0 <= p < n {
            w[p]
        } else {
            0
        },
    decreases n,
{
    if n > 0 {
        lemma_form_unit(p, w, n - 1);
    }
}

/// The weights moved down by one: `w_up[j] = w[j + 1]`.
pub open spec fn weights_up(w: Seq<int>) -> Seq<int> {
    Seq::new(128, |j: int| if j < 127 { w[j + 1] } else { 0int })
}

/// `form(X b, w)` over the first `n + 1` positions: the wrapped top
/// coefficient against `w_0`, the rest against the moved-down weights.
proof fn lemma_form_shift(b: Seq<int>, w: Seq<int>, n: int)
    requires
        0 <= n <= 127,
    ensures
        linear_form(shift_poly(b), w, n + 1) == -b[127] * w[0] + linear_form(b, weights_up(w), n),
    decreases n,
{
    if n > 0 {
        lemma_form_shift(b, w, n - 1);
    } else {
        assert(linear_form(shift_poly(b), w, 0) == 0);
    }
}

/// The row of powers of a root `r` with `r^128 = -1`.
pub open spec fn is_root_row(f: Field, row: Seq<Fq2>) -> bool {
    &&& row.len() == 128
    &&& forall|j: int| 0 <= j < 128 ==> #[trigger] row[j] == spec_pow(f, row[1], j as nat)
    &&& spec_pow(f, row[1], 128) == minus_one(f)
}

/// `a r + d b s` and `a s + b r`: the coordinates of `(a + b u)(r + s u)`.
pub open spec fn prod_a(f: Field, a: int, b: int, r: int, s: int) -> int {
    a * r + f.nonsquare * (b * s)
}

pub open spec fn prod_b(a: int, b: int, r: int, s: int) -> int {
    a * s + b * r
}

/// Multiplying by `X` multiplies the value at a root by the root: for a
/// root row `R`, the value of `X b` is `r` times the value of `b`, modulo `q`.
proof fn lemma_value_shift(f: Field, row: Seq<Fq2>, b: Seq<int>)
    requires
        f.q >= 2,
        is_root_row(f, row),
    ensures
        linear_form(shift_poly(b), coords_a(row), 128) % (f.q as int) == prod_a(
            f,
            row[1].a as int,
            row[1].b as int,
            linear_form(b, coords_a(row), 128),
            linear_form(b, coords_b(row), 128),
        ) % (f.q as int),
        linear_form(shift_poly(b), coords_b(row), 128) % (f.q as int) == prod_b(
            row[1].a as int,
            row[1].b as int,
            linear_form(b, coords_a(row), 128),
            linear_form(b, coords_b(row), 128),
        ) % (f.q as int),
{
    let m = f.q as int;
    let d = f.nonsquare as int;
    let ra = row[1].a as int;
    let rb = row[1].b as int;
    let wa = coords_a(row);
    let wb = coords_b(row);
    // the weights of r R_j
    let ma = poly_add_scaled(Seq::new(128, |j: int| ra * wa[j]), d * rb, wb);
    let mb = poly_add_scaled(Seq::new(128, |j: int| ra * wb[j]), rb, wa);
    let ua = Seq::new(128, |j: int| ra * wa[j]);
    let ub = Seq::new(128, |j: int| ra * wb[j]);
    assert(row[0] == fq2_one());
    // r R_j = R_{j+1} for j < 127, and r R_127 = -1
    assert forall|j: int| 0 <= j < 127 implies #[trigger] ma[j] % m == weights_up(wa)[j] % m
        && mb[j] % m == weights_up(wb)[j] % m by {
        assert(row[j + 1] == spec_mul(f, row[1], spec_pow(f, row[1], j as nat)));
        assert(row[j + 1] == spec_mul(f, row[1], row[j]));
        let xa = row[j].a as int;
        let xb = row[j].b as int;
        let ea = ra * xa + d * (rb * xb);
        let eb = ra * xb + rb * xa;
        lemma_mod_bound(ea, m);
        lemma_mod_bound(eb, m);
        lemma_mod_twice(ea, m);
        lemma_mod_twice(eb, m);
        assert(row[j + 1].a as int == ea % m);
        assert(row[j + 1].b as int == eb % m);
        assert(weights_up(wa)[j] == row[j + 1].a as int);
        assert(weights_up(wb)[j] == row[j + 1].b as int);
        assert(ma[j] == ra * xa + d * rb * xb);
        assert(d * rb * xb == d * (rb * xb)) by (nonlinear_arith);
        assert(mb[j] == ra * xb + rb * xa);
    }
    assert forall|j: int| 0 <= j < 127 implies #[trigger] mb[j] % m == weights_up(wb)[j] % m by {
        assert(ma[j] % m == weights_up(wa)[j] % m);
    }
    assert(spec_pow(f, row[1], 128) == spec_mul(f, row[1], spec_pow(f, row[1], 127)));
    assert(ma[127] % m == (-1) % m && mb[127] % m == 0) by {
        let xa = row[127].a as int;
        let xb = row[127].b as int;
        let ea = ra * xa + d * (rb * xb);
        let eb = ra * xb + rb * xa;
        assert(d * rb * xb == d * (rb * xb)) by (nonlinear_arith);
        assert(ma[127] == ea);
        assert(mb[127] == eb);
        let neg = minus_one(f);
        assert(neg.a as int == (-1) % m);
        assert(neg.b as int == (-0int) % m);
        lemma_small_mod(0, m as nat);
        lemma_mod_bound(ea, m);
        lemma_mod_bound(eb, m);
        lemma_mod_bound(-1, m);
        assert(spec_mul(f, row[1], row[127]).a as int == ea % m);
        assert(spec_mul(f, row[1], row[127]).b as int == eb % m);
    }
    // form(b, M) splits off the last position
    assert(linear_form(b, ma, 128) == linear_form(b, ma, 127) + b[127] * ma[127]);
    assert(linear_form(b, mb, 128) == linear_form(b, mb, 127) + b[127] * mb[127]);
    lemma_form_cong_weights(b, ma, weights_up(wa), 127, m);
    lemma_form_cong_weights(b, mb, weights_up(wb), 127, m);
    lemma_cong_mul(ma[127], -1, b[127], m);
    lemma_cong_mul(mb[127], 0, b[127], m);
    assert(ma[127] * b[127] == b[127] * ma[127]) by (nonlinear_arith);
    assert(mb[127] * b[127] == b[127] * mb[127]) by (nonlinear_arith);
    lemma_cong_add(linear_form(b, ma, 127), linear_form(b, weights_up(wa), 127), b[127] * ma[127], -1
        * b[127], m);
    lemma_cong_add(linear_form(b, mb, 127), linear_form(b, weights_up(wb), 127), b[127] * mb[127], 0
        * b[127], m);
    assert(ma[127] * b[127] == b[127] * ma[127]) by (nonlinear_arith);
    assert(mb[127] * b[127] == b[127] * mb[127]) by (nonlinear_arith);
    // the shifted polynomial against R
    lemma_form_shift(b, wa, 127);
    lemma_form_shift(b, wb, 127);
    assert(wa[0] == 1 && wb[0] == 0);
    assert(wa[0] == 1 && wb[0] == 0) by {
        assert(row[0] == spec_pow(f, row[1], 0));
    }
    assert(-b[127] * wa[0] == -1 * b[127]) by (nonlinear_arith)
        requires
            wa[0] == 1,
    ;
    assert(-b[127] * wb[0] == 0 * b[127]) by (nonlinear_arith)
        requires
            wb[0] == 0,
    ;
    assert(linear_form(shift_poly(b), wa, 128) == linear_form(b, weights_up(wa), 127) + -1 * b[127]);
    assert(linear_form(shift_poly(b), wb, 128) == linear_form(b, weights_up(wb), 127) + 0 * b[127]);
    assert(linear_form(b, ma, 128) % m == linear_form(shift_poly(b), wa, 128) % m);
    assert(linear_form(b, mb, 128) % m == linear_form(shift_poly(b), wb, 128) % m);
    // form(b, M) = r * form(b, R)
    lemma_form_linear_weights(b, ua, d * rb, wb, 128);
    lemma_form_linear_weights(b, ub, rb, wa, 128);
    lemma_form_scaled_weights(b, wa, ra, 128);
    lemma_form_scaled_weights(b, wb, ra, 128);
    assert(prod_a(f, ra, rb, linear_form(b, wa, 128), linear_form(b, wb, 128)) == linear_form(b, ma, 128))
        by (nonlinear_arith)
        requires
            linear_form(b, ma, 128) == linear_form(b, ua, 128) + d * rb * linear_form(b, wb, 128),
            linear_form(b, ua, 128) == ra * linear_form(b, wa, 128),
            prod_a(f, ra, rb, linear_form(b, wa, 128), linear_form(b, wb, 128)) == ra * linear_form(b, wa, 128)
                + d * (rb * linear_form(b, wb, 128)),
    ;
    assert(prod_b(ra, rb, linear_form(b, wa, 128), linear_form(b, wb, 128)) == linear_form(b, mb, 128))
        by (nonlinear_arith)
        requires
            linear_form(b, mb, 128) == linear_form(b, ub, 128) + rb * linear_form(b, wa, 128),
            linear_form(b, ub, 128) == ra * linear_form(b, wb, 128),
            prod_b(ra, rb, linear_form(b, wa, 128), linear_form(b, wb, 128)) == ra * linear_form(b, wb, 128)
                + linear_form(b, wa, 128) * rb,
    ;
}

/// Scaling the weights scales the form.
proof fn lemma_form_scaled_weights(p: Seq<int>, w: Seq<int>, c: int, n: int)
    requires
        0 <= n <= 128,
    ensures
        linear_form(p, Seq::new(128, |j: int| c * w[j]), n) == c * linear_form(p, w, n),
    decreases n,
{
    if n > 0 {
        lemma_form_scaled_weights(p, w, c, n - 1);
        let j = n - 1;
        assert(p[j] * (c * w[j]) == c * (p[j] * w[j])) by (nonlinear_arith);
        assert(c * linear_form(p, w, n - 1) + c * (p[j] * w[j]) == c * (linear_form(p, w, n - 1) + p[j]
            * w[j])) by (nonlinear_arith);
    }
}

/// Congruent factors give congruent products.
proof fn lemma_prod_cong(f: Field, a: int, b: int, r: int, t: int, a2: int, b2: int, r2: int, t2: int)
    requires
        f.q >= 2,
        a % (f.q as int) == a2 % (f.q as int),
        b % (f.q as int) == b2 % (f.q as int),
        r % (f.q as int) == r2 % (f.q as int),
        t % (f.q as int) == t2 % (f.q as int),
    ensures
        prod_a(f, a, b, r, t) % (f.q as int) == prod_a(f, a2, b2, r2, t2) % (f.q as int),
        prod_b(a, b, r, t) % (f.q as int) == prod_b(a2, b2, r2, t2) % (f.q as int),
{
    let m = f.q as int;
    let d = f.nonsquare as int;
    lemma_mul_mod_noop(a, r, m);
    lemma_mul_mod_noop(a2, r2, m);
    lemma_mul_mod_noop(b, t, m);
    lemma_mul_mod_noop(b2, t2, m);
    lemma_mul_mod_noop(a, t, m);
    lemma_mul_mod_noop(a2, t2, m);
    lemma_mul_mod_noop(b, r, m);
    lemma_mul_mod_noop(b2, r2, m);
    lemma_mul_mod_noop_right(d, b * t, m);
    lemma_mul_mod_noop_right(d, b2 * t2, m);
    lemma_cong_add(a * r, a2 * r2, d * (b * t), d * (b2 * t2), m);
    lemma_cong_add(a * t, a2 * t2, b * r, b2 * r2, m);
}

/// The value of `X^i b` at a root row is `r^i` times the value of `b`.
proof fn lemma_value_shift_pow(f: Field, row: Seq<Fq2>, b: Seq<int>, i: nat)
    requires
        f.q >= 2,
        is_root_row(f, row),
        i < 128,
    ensures
        linear_form(shift_pow(b, i), coords_a(row), 128) % (f.q as int) == prod_a(
            f,
            row[i as int].a as int,
            row[i as int].b as int,
            linear_form(b, coords_a(row), 128),
            linear_form(b, coords_b(row), 128),
        ) % (f.q as int),
        linear_form(shift_pow(b, i), coords_b(row), 128) % (f.q as int) == prod_b(
            row[i as int].a as int,
            row[i as int].b as int,
            linear_form(b, coords_a(row), 128),
            linear_form(b, coords_b(row), 128),
        ) % (f.q as int),
    decreases i,
{
    let m = f.q as int;
    let d = f.nonsquare as int;
    let wa = coords_a(row);
    let wb = coords_b(row);
    let big_a = linear_form(b, wa, 128);
    let big_b = linear_form(b, wb, 128);
    if i == 0 {
        assert(row[0] == spec_pow(f, row[1], 0));
        assert(prod_a(f, 1, 0, big_a, big_b) == big_a) by (nonlinear_arith);
        assert(prod_b(1, 0, big_a, big_b) == big_b) by (nonlinear_arith);
    } else {
        let prev = shift_pow(b, (i - 1) as nat);
        lemma_value_shift_pow(f, row, b, (i - 1) as nat);
        lemma_value_shift(f, row, prev);
        let ra = row[1].a as int;
        let rb = row[1].b as int;
        let xa = row[i - 1].a as int;
        let xb = row[i - 1].b as int;
        let pa = prod_a(f, xa, xb, big_a, big_b);
        let pb = prod_b(xa, xb, big_a, big_b);
        let a1 = linear_form(prev, wa, 128);
        let b1 = linear_form(prev, wb, 128);
        // r times the previous value, with the previous value replaced by its residue class
        lemma_prod_cong(f, ra, rb, a1, b1, ra, rb, pa, pb);
        // associativity over the integers
        let ya = prod_a(f, ra, rb, xa, xb);
        let yb = prod_b(ra, rb, xa, xb);
        lemma_assoc_identity(d, ra, rb, xa, xb, big_a, big_b);
        // r R_{i-1} = R_i
        assert(row[i as int] == spec_pow(f, row[1], i));
        assert(row[i - 1] == spec_pow(f, row[1], (i - 1) as nat));
        assert(row[i as int] == spec_mul(f, row[1], row[i - 1]));
        lemma_mod_bound(ya, m);
        lemma_mod_bound(yb, m);
        lemma_mod_twice(ya, m);
        lemma_mod_twice(yb, m);
        assert((row[i as int].a as int) % m == ya % m);
        assert((row[i as int].b as int) % m == yb % m);
        lemma_prod_cong(f, ya, yb, big_a, big_b, row[i as int].a as int, row[i as int].b as int, big_a, big_b);
    }
}

/// The value of `sum_{i < n} a_i X^i b` at a root row is the value of the
/// first `n` terms of `a` times the value of `b`.
proof fn lemma_value_product(f: Field, row: Seq<Fq2>, a: Seq<int>, b: Seq<int>, n: int)
    requires
        f.q >= 2,
        is_root_row(f, row),
        0 <= n <= 128,
    ensures
        linear_form(ring_product(a, b, n), coords_a(row), 128) % (f.q as int) == prod_a(
            f,
            linear_form(a, coords_a(row), n),
            linear_form(a, coords_b(row), n),
            linear_form(b, coords_a(row), 128),
            linear_form(b, coords_b(row), 128),
        ) % (f.q as int),
        linear_form(ring_product(a, b, n), coords_b(row), 128) % (f.q as int) == prod_b(
            linear_form(a, coords_a(row), n),
            linear_form(a, coords_b(row), n),
            linear_form(b, coords_a(row), 128),
            linear_form(b, coords_b(row), 128),
        ) % (f.q as int),
    decreases n,
{
    let m = f.q as int;
    let d = f.nonsquare as int;
    let wa = coords_a(row);
    let wb = coords_b(row);
    let big_a = linear_form(b, wa, 128);
    let big_b = linear_form(b, wb, 128);
    if n == 0 {
        lemma_form_zero(wa, 128);
        lemma_form_zero(wb, 128);
        assert(prod_a(f, 0, 0, big_a, big_b) == 0) by (nonlinear_arith);
        assert(prod_b(0, 0, big_a, big_b) == 0) by (nonlinear_arith);
    } else {
        lemma_value_product(f, row, a, b, n - 1);
        let c = a[n - 1];
        let sh = shift_pow(b, (n - 1) as nat);
        lemma_value_shift_pow(f, row, b, (n - 1) as nat);
        let prev = ring_product(a, b, n - 1);
        lemma_form_linear_poly(prev, c, sh, wa, 128);
        lemma_form_linear_poly(prev, c, sh, wb, 128);
        let fa = linear_form(a, wa, n - 1);
        let fb = linear_form(a, wb, n - 1);
        let xa = row[n - 1].a as int;
        let xb = row[n - 1].b as int;
        assert(wa[n - 1] == xa && wb[n - 1] == xb);
        let qa = prod_a(f, fa, fb, big_a, big_b);
        let qb = prod_b(fa, fb, big_a, big_b);
        let sa = prod_a(f, xa, xb, big_a, big_b);
        let sb = prod_b(xa, xb, big_a, big_b);
        // scaled congruences
        lemma_cong_mul(linear_form(sh, wa, 128), sa, c, m);
        lemma_cong_mul(linear_form(sh, wb, 128), sb, c, m);
        assert(c * linear_form(sh, wa, 128) == linear_form(sh, wa, 128) * c) by (nonlinear_arith);
        assert(c * linear_form(sh, wb, 128) == linear_form(sh, wb, 128) * c) by (nonlinear_arith);
        assert(c * sa == sa * c) by (nonlinear_arith);
        assert(c * sb == sb * c) by (nonlinear_arith);
        lemma_cong_add(linear_form(prev, wa, 128), qa, c * linear_form(sh, wa, 128), c * sa, m);
        lemma_cong_add(linear_form(prev, wb, 128), qb, c * linear_form(sh, wb, 128), c * sb, m);
        // linearity of the product in its first factor
        lemma_linear_identity(d, fa, fb, c, xa, xb, big_a, big_b);
        assert(c * xa == xa * c) by (nonlinear_arith);
        assert(c * xb == xb * c) by (nonlinear_arith);
        assert(linear_form(a, wa, n) == fa + c * xa);
        assert(linear_form(a, wb, n) == fb + c * xb);
    }
}

/// The form of the zero polynomial vanishes.
proof fn lemma_form_zero(w: Seq<int>, n: int)
    requires
        0 <= n <= 128,
    ensures
        linear_form(zero_poly(), w, n) == 0,
    decreases n,
{
    if n > 0 {
        lemma_form_zero(w, n - 1);
    }
}

/// `r (x v) = (r x) v` for `a + b u` products, written out over the integers.
proof fn lemma_assoc_identity(d: int, ra: int, rb: int, xa: int, xb: int, a: int, b: int)
    ensures
        ra * (xa * a + d * (xb * b)) + d * (rb * (xa * b + xb * a)) == (ra * xa + d * (rb * xb)) * a + d * ((ra
            * xb + rb * xa) * b),
        ra * (xa * b + xb * a) + rb * (xa * a + d * (xb * b)) == (ra * xa + d * (rb * xb)) * b + (ra * xb + rb
            * xa) * a,
{
    lemma_mul_is_distributive_add(ra, xa * a, d * (xb * b));
    lemma_mul_is_distributive_add(rb, xa * b, xb * a);
    lemma_mul_is_distributive_add(d, rb * (xa * b), rb * (xb * a));
    lemma_mul_is_distributive_add_other_way(a, ra * xa, d * (rb * xb));
    lemma_mul_is_distributive_add_other_way(b, ra * xb, rb * xa);
    lemma_mul_is_distributive_add(d, (ra * xb) * b, (rb * xa) * b);
    assert(ra * (xa * a) == (ra * xa) * a) by (nonlinear_arith);
    assert(d * (rb * (xb * a)) == (d * (rb * xb)) * a) by (nonlinear_arith);
    assert(ra * (d * (xb * b)) == d * ((ra * xb) * b)) by (nonlinear_arith);
    assert(d * (rb * (xa * b)) == d * ((rb * xa) * b)) by (nonlinear_arith);
    // second coordinate
    lemma_mul_is_distributive_add(ra, xa * b, xb * a);
    lemma_mul_is_distributive_add(rb, xa * a, d * (xb * b));
    assert(ra * (xa * b) == (ra * xa) * b) by (nonlinear_arith);
    assert(ra * (xb * a) == (ra * xb) * a) by (nonlinear_arith);
    assert(rb * (xa * a) == (rb * xa) * a) by (nonlinear_arith);
    assert(rb * (d * (xb * b)) == (d * (rb * xb)) * b) by (nonlinear_arith);
    lemma_mul_is_distributive_add_other_way(b, ra * xa, d * (rb * xb));
    lemma_mul_is_distributive_add_other_way(a, ra * xb, rb * xa);
}

/// `(f + c x) v = f v + c (x v)` for `a + b u` products over the integers.
proof fn lemma_linear_identity(d: int, fa: int, fb: int, c: int, xa: int, xb: int, a: int, b: int)
    ensures
        (fa * a + d * (fb * b)) + c * (xa * a + d * (xb * b)) == (fa + c * xa) * a + d * ((fb + c * xb) * b),
        (fa * b + fb * a) + c * (xa * b + xb * a) == (fa + c * xa) * b + (fb + c * xb) * a,
{
    lemma_mul_is_distributive_add(c, xa * a, d * (xb * b));
    lemma_mul_is_distributive_add(c, xa * b, xb * a);
    lemma_mul_is_distributive_add_other_way(a, fa, c * xa);
    lemma_mul_is_distributive_add_other_way(b, fb, c * xb);
    lemma_mul_is_distributive_add(d, fb * b, (c * xb) * b);
    lemma_mul_is_distributive_add_other_way(b, fa, c * xa);
    lemma_mul_is_distributive_add_other_way(a, fb, c * xb);
    assert(c * (xa * a) == (c * xa) * a) by (nonlinear_arith);
    assert(c * (d * (xb * b)) == d * ((c * xb) * b)) by (nonlinear_arith);
    assert(c * (xa * b) == (c * xa) * b) by (nonlinear_arith);
    assert(c * (xb * a) == (c * xb) * a) by (nonlinear_arith);
}

/// The slot value of the first `n` terms of a challenge is the value of
/// its polynomial at the row, modulo `q`.
proof fn lemma_slot_sum_value(f: Field, row: Seq<Fq2>, c: Challenge, n: int)
    requires
        f.q >= 2,
        row.len() == 128,
        0 <= n <= c.weight,
        challenge_in_range(c),
    ensures
        slot_sum(f, row, c, n).a as int % (f.q as int) == linear_form(challenge_poly(c, n), coords_a(row), 128)
            % (f.q as int),
        slot_sum(f, row, c, n).b as int % (f.q as int) == linear_form(challenge_poly(c, n), coords_b(row), 128)
            % (f.q as int),
    decreases n,
{
    let m = f.q as int;
    if n == 0 {
        lemma_form_zero(coords_a(row), 128);
        lemma_form_zero(coords_b(row), 128);
        lemma_small_mod(0, m as nat);
    } else {
        lemma_slot_sum_value(f, row, c, n - 1);
        let prev = slot_sum(f, row, c, n - 1);
        let sg = c.signs[n - 1] as int;
        let p = c.positions[n - 1] as int;
        let v = row[p];
        assert(0 <= p < 128);
        lemma_form_linear_poly(challenge_poly(c, n - 1), sg, unit_poly(p), coords_a(row), 128);
        lemma_form_linear_poly(challenge_poly(c, n - 1), sg, unit_poly(p), coords_b(row), 128);
        lemma_form_unit(p, coords_a(row), 128);
        lemma_form_unit(p, coords_b(row), 128);
        let ea = prev.a as int + sg * v.a;
        let eb = prev.b as int + sg * v.b;
        lemma_mod_bound(ea, m);
        lemma_mod_bound(eb, m);
        lemma_mod_twice(ea, m);
        lemma_mod_twice(eb, m);
        lemma_cong_add(prev.a as int, linear_form(challenge_poly(c, n - 1), coords_a(row), 128), sg * v.a, sg
            * v.a, m);
        lemma_cong_add(prev.b as int, linear_form(challenge_poly(c, n - 1), coords_b(row), 128), sg * v.b, sg
            * v.b, m);
    }
}

/// The slot value of `left` minus the first `n` terms of `right` is the
/// value of the polynomial difference at the row, modulo `q`.
proof fn lemma_slot_difference_value(f: Field, row: Seq<Fq2>, left: Challenge, right: Challenge, n: int)
    requires
        f.q >= 2,
        row.len() == 128,
        0 <= n <= right.weight,
        challenge_in_range(left),
        challenge_in_range(right),
    ensures
        slot_difference(f, row, left, right, n).a as int % (f.q as int) == (linear_form(
            challenge_poly(left, left.weight as int),
            coords_a(row),
            128,
        ) - linear_form(challenge_poly(right, n), coords_a(row), 128)) % (f.q as int),
        slot_difference(f, row, left, right, n).b as int % (f.q as int) == (linear_form(
            challenge_poly(left, left.weight as int),
            coords_b(row),
            128,
        ) - linear_form(challenge_poly(right, n), coords_b(row), 128)) % (f.q as int),
    decreases n,
{
    let m = f.q as int;
    let la = linear_form(challenge_poly(left, left.weight as int), coords_a(row), 128);
    let lb = linear_form(challenge_poly(left, left.weight as int), coords_b(row), 128);
    if n == 0 {
        lemma_slot_sum_value(f, row, left, left.weight as int);
        lemma_form_zero(coords_a(row), 128);
        lemma_form_zero(coords_b(row), 128);
    } else {
        lemma_slot_difference_value(f, row, left, right, n - 1);
        let prev = slot_difference(f, row, left, right, n - 1);
        let sg = right.signs[n - 1] as int;
        let p = right.positions[n - 1] as int;
        let v = row[p];
        assert(0 <= p < 128);
        let ra_prev = linear_form(challenge_poly(right, n - 1), coords_a(row), 128);
        let rb_prev = linear_form(challenge_poly(right, n - 1), coords_b(row), 128);
        lemma_form_linear_poly(challenge_poly(right, n - 1), sg, unit_poly(p), coords_a(row), 128);
        lemma_form_linear_poly(challenge_poly(right, n - 1), sg, unit_poly(p), coords_b(row), 128);
        lemma_form_unit(p, coords_a(row), 128);
        lemma_form_unit(p, coords_b(row), 128);
        let ea = prev.a as int + (-sg) * v.a;
        let eb = prev.b as int + (-sg) * v.b;
        lemma_mod_bound(ea, m);
        lemma_mod_bound(eb, m);
        lemma_mod_twice(ea, m);
        lemma_mod_twice(eb, m);
        lemma_cong_add(prev.a as int, la - ra_prev, (-sg) * v.a, (-sg) * v.a, m);
        lemma_cong_add(prev.b as int, lb - rb_prev, (-sg) * v.b, (-sg) * v.b, m);
        assert((-sg) * v.a == -(sg * v.a)) by (nonlinear_arith);
        assert((-sg) * v.b == -(sg * v.b)) by (nonlinear_arith);
    }
}

/// A polynomial whose value at a root of `X^128 + 1` is zero modulo `q`
/// has no inverse.
proof fn lemma_zero_value_is_not_unit(f: Field, row: Seq<Fq2>, dpoly: Seq<int>)
    requires
        f.q >= 2,
        is_root_row(f, row),
        dpoly.len() == 128,
        linear_form(dpoly, coords_a(row), 128) % (f.q as int) == 0,
        linear_form(dpoly, coords_b(row), 128) % (f.q as int) == 0,
    ensures
        !is_unit_mod(f.q as int, dpoly),
{
    let m = f.q as int;
    let wa = coords_a(row);
    let wb = coords_b(row);
    if is_unit_mod(m, dpoly) {
        let inv = choose|inv: Seq<int>|
            inv.len() == 128 && forall|k: int|
                0 <= k < 128 ==> #[trigger] ring_product(dpoly, inv, 128)[k] % m == if k == 0 {
                    1int
                } else {
                    0int
                };
        lemma_small_mod(0, m as nat);
        let da = linear_form(dpoly, wa, 128);
        let db = linear_form(dpoly, wb, 128);
        // the product's value is the product of the values, which is zero
        lemma_value_product(f, row, dpoly, inv, 128);
        let ia = linear_form(inv, wa, 128);
        let ib = linear_form(inv, wb, 128);
        lemma_prod_cong(f, da, db, ia, ib, 0, 0, ia, ib);
        assert(prod_a(f, 0, 0, ia, ib) == 0) by (nonlinear_arith);
        // but the product is one, whose value is one
        let prod = ring_product(dpoly, inv, 128);
        assert forall|k: int| 0 <= k < 128 implies #[trigger] prod[k] % m == unit_poly(0)[k] % m by {
            lemma_small_mod(1, m as nat);
        }
        lemma_form_cong_poly(prod, unit_poly(0), wa, 128, m);
        lemma_form_unit(0, wa, 128);
        assert(row[0] == spec_pow(f, row[1], 0));
        assert(wa[0] == 1);
        lemma_small_mod(1, m as nat);
        assert(false);
    }
}

/// A difference of challenges that vanishes at a slot root is not a unit:
/// if `left - right` takes the value zero at a root `r` of `X^128 + 1`
/// (a row of its powers with `r^128 = -1`), then no polynomial `inv`
/// satisfies `(left - right) inv = 1` in `F_q[X]/(X^128 + 1)`.
pub proof fn lemma_vanishing_slot_is_not_unit(f: Field, row: Seq<Fq2>, left: Challenge, right: Challenge)
    requires
        f.q >= 2,
        is_root_row(f, row),
        challenge_in_range(left),
        challenge_in_range(right),
        slot_difference(f, row, left, right, right.weight as int) == crate::fq2::fq2_zero(),
    ensures
        !is_unit_mod(f.q as int, challenge_difference(left, right)),
{
    let m = f.q as int;
    let wa = coords_a(row);
    let wb = coords_b(row);
    lemma_slot_difference_value(f, row, left, right, right.weight as int);
    lemma_form_linear_poly(challenge_poly(left, left.weight as int), -1, challenge_poly(right, right.weight as int), wa, 128);
    lemma_form_linear_poly(challenge_poly(left, left.weight as int), -1, challenge_poly(right, right.weight as int), wb, 128);
    lemma_small_mod(0, m as nat);
    lemma_zero_value_is_not_unit(f, row, challenge_difference(left, right));
}

/// Two challenges that take the same value at a slot root differ by a
/// non-unit: `left - right` then has no inverse in `F_q[X]/(X^128 + 1)`.
pub proof fn lemma_equal_slot_is_not_unit(f: Field, row: Seq<Fq2>, left: Challenge, right: Challenge)
    requires
        f.q >= 2,
        is_root_row(f, row),
        challenge_in_range(left),
        challenge_in_range(right),
        slot_sum(f, row, left, left.weight as int) == slot_sum(f, row, right, right.weight as int),
    ensures
        !is_unit_mod(f.q as int, challenge_difference(left, right)),
{
    let m = f.q as int;
    let wa = coords_a(row);
    let wb = coords_b(row);
    lemma_slot_sum_value(f, row, left, left.weight as int);
    lemma_slot_sum_value(f, row, right, right.weight as int);
    let la = linear_form(challenge_poly(left, left.weight as int), wa, 128);
    let lb = linear_form(challenge_poly(left, left.weight as int), wb, 128);
    let ra = linear_form(challenge_poly(right, right.weight as int), wa, 128);
    let rb = linear_form(challenge_poly(right, right.weight as int), wb, 128);
    lemma_form_linear_poly(challenge_poly(left, left.weight as int), -1, challenge_poly(right, right.weight as int), wa, 128);
    lemma_form_linear_poly(challenge_poly(left, left.weight as int), -1, challenge_poly(right, right.weight as int), wb, 128);
    lemma_sub_mod_noop(la, ra, m);
    lemma_sub_mod_noop(lb, rb, m);
    lemma_small_mod(0, m as nat);
    lemma_zero_value_is_not_unit(f, row, challenge_difference(left, right));
}

/// Slot values are residues.
proof fn lemma_slot_difference_reduced(f: Field, row: Seq<Fq2>, left: Challenge, right: Challenge, n: int)
    requires
        f.q >= 2,
    ensures
        slot_difference(f, row, left, right, n).a < f.q,
        slot_difference(f, row, left, right, n).b < f.q,
{
    let m = f.q as int;
    if n > 0 {
        let prev = slot_difference(f, row, left, right, n - 1);
        let v = row[right.positions[n - 1] as int];
        let c = -(right.signs[n - 1] as int);
        lemma_mod_bound(prev.a + c * v.a, m);
        lemma_mod_bound(prev.b + c * v.b, m);
    } else if left.weight > 0 {
        let k = left.weight as int;
        let prev = slot_sum(f, row, left, k - 1);
        let v = row[left.positions[k - 1] as int];
        let c = left.signs[k - 1] as int;
        lemma_mod_bound(prev.a + c * v.a, m);
        lemma_mod_bound(prev.b + c * v.b, m);
    }
}

/// A difference that is zero modulo `q` vanishes at every slot.
pub proof fn lemma_zero_difference_vanishes(f: Field, row: Seq<Fq2>, left: Challenge, right: Challenge)
    requires
        f.q >= 2,
        row.len() == 128,
        challenge_in_range(left),
        challenge_in_range(right),
        forall|j: int| 0 <= j < 128 ==> #[trigger] challenge_difference(left, right)[j] % (f.q as int) == 0,
    ensures
        slot_difference(f, row, left, right, right.weight as int) == crate::fq2::fq2_zero(),
{
    let m = f.q as int;
    let wa = coords_a(row);
    let wb = coords_b(row);
    let dpoly = challenge_difference(left, right);
    lemma_slot_difference_value(f, row, left, right, right.weight as int);
    lemma_form_linear_poly(challenge_poly(left, left.weight as int), -1, challenge_poly(right, right.weight as int), wa, 128);
    lemma_form_linear_poly(challenge_poly(left, left.weight as int), -1, challenge_poly(right, right.weight as int), wb, 128);
    lemma_small_mod(0, m as nat);
    assert forall|j: int| 0 <= j < 128 implies #[trigger] dpoly[j] % m == zero_poly()[j] % m by {}
    lemma_form_cong_poly(dpoly, zero_poly(), wa, 128, m);
    lemma_form_cong_poly(dpoly, zero_poly(), wb, 128, m);
    lemma_form_zero(wa, 128);
    lemma_form_zero(wb, 128);
    lemma_slot_difference_reduced(f, row, left, right, right.weight as int);
    let v = slot_difference(f, row, left, right, right.weight as int);
    lemma_small_mod(v.a as nat, m as nat);
    lemma_small_mod(v.b as nat, m as nat);
}

/// Bezout coefficients: `s a + t b = g` for a common divisor `g >= 1` of `a`
/// and `b`.
proof fn lemma_bezout(a: int, b: int) -> (r: (int, int, int))
    requires
        a >= 0,
        b >= 0,
        a + b > 0,
    ensures
        r.0 >= 1,
        r.1 * a + r.2 * b == r.0,
        a % r.0 == 0,
        b % r.0 == 0,
    decreases b,
{
    if b == 0 {
        lemma_mod_self_0(a);
        lemma_small_mod(0, a as nat);
        (a, 1, 0)
    } else {
        lemma_mod_bound(a, b);
        let (g, s, t) = lemma_bezout(b, a % b);
        lemma_fundamental_div_mod(a, b);
        let k = a / b;
        lemma_fundamental_div_mod(b, g);
        lemma_fundamental_div_mod(a % b, g);
        let kb = b / g;
        let kr = (a % b) / g;
        assert(a == g * (k * kb + kr)) by (nonlinear_arith)
            requires
                a == b * k + a % b,
                b == g * kb,
                a % b == g * kr,
        ;
        lemma_mod_multiples_basic(k * kb + kr, g);
        assert(g * (k * kb + kr) == (k * kb + kr) * g) by (nonlinear_arith);
        assert(t * a + (s - t * k) * b == g) by (nonlinear_arith)
            requires
                s * b + t * (a % b) == g,
                a == b * k + a % b,
        ;
        (g, t, s - t * k)
    }
}

/// Every residue `0 < x < q` of a prime `q` has an inverse.
pub proof fn lemma_residue_inverse(q: int, x: int) -> (y: int)
    requires
        q >= 2,
        forall|d: nat| 2 <= d < q ==> #[trigger] (q as nat % d) != 0,
        0 < x < q,
    ensures
        (x * y) % q == 1,
{
    let (g, s, t) = lemma_bezout(x, q);
    if g >= 2 {
        assert(g <= x) by {
            lemma_fundamental_div_mod(x, g);
            lemma_mod_bound(x, g);
            assert(x == g * (x / g));
            assert(x / g >= 1) by (nonlinear_arith)
                requires
                    x == g * (x / g),
                    x > 0,
                    g >= 2,
            ;
            assert(g * (x / g) >= g) by (nonlinear_arith)
                requires
                    x / g >= 1,
                    g >= 2,
            ;
        }
        assert((q as nat % (g as nat)) != 0);
        assert(false);
    }
    assert(g == 1);
    assert(x * s == 1 + q * (-t)) by (nonlinear_arith)
        requires
            s * x + t * q == 1,
    ;
    lemma_mod_multiples_vanish(-t, 1, q);
    lemma_small_mod(1, q as nat);
    s
}

/// `(x - y) % m == 0` means `x` and `y` are congruent.
proof fn lemma_diff_zero_cong(x: int, y: int, m: int)
    requires
        m > 0,
        (x - y) % m == 0,
    ensures
        x % m == y % m,
{
    lemma_add_mod_noop(y, x - y, m);
    lemma_mod_twice(y, m);
}

/// A prime has no zero divisors among its residues.
proof fn lemma_no_zero_divisor(q: int, a: int, b: int)
    requires
        q >= 2,
        forall|d: nat| 2 <= d < q ==> #[trigger] (q as nat % d) != 0,
        0 < a < q,
        (a * b) % q == 0,
    ensures
        b % q == 0,
{
    let ai = lemma_residue_inverse(q, a);
    // b = b (a ai) mod q = (a b) ai mod q = 0
    lemma_small_mod(1, q as nat);
    lemma_cong_mul(a * ai, 1, b, q);
    assert(a * ai * b == (a * b) * ai) by (nonlinear_arith);
    lemma_cong_mul(a * b, 0, ai, q);
    assert(1 * b == b);
    assert(0 * ai == 0);
    lemma_small_mod(0, q as nat);
}

/// Under a prime `q` for which `d` is no square, every non-zero `a + b u`
/// of `F_q[u]/(u^2 - d)` has an inverse.
proof fn lemma_extension_inverse(q: int, d: int, a: int, b: int) -> (y: (int, int))
    requires
        q >= 2,
        forall|p: nat| 2 <= p < q ==> #[trigger] (q as nat % p) != 0,
        0 <= d < q,
        forall|c: int| 0 <= c < q ==> #[trigger] ((c * c) % q) != d,
        0 <= a < q,
        0 <= b < q,
        !(a == 0 && b == 0),
    ensures
        (a * y.0 + d * (b * y.1)) % q == 1,
        (a * y.1 + b * y.0) % q == 0,
{
    let nn = a * a - d * (b * b);
    lemma_mod_bound(nn, q);
    if nn % q == 0 {
        if b == 0 {
            assert(a * a == nn) by (nonlinear_arith)
                requires
                    nn == a * a - d * (b * b),
                    b == 0,
            ;
            lemma_no_zero_divisor(q, a, a);
            lemma_small_mod(a as nat, q as nat);
            assert(false);
        } else {
            let bi = lemma_residue_inverse(q, b);
            lemma_diff_zero_cong(a * a, d * (b * b), q);
            let c = (a * bi) % q;
            lemma_mod_bound(a * bi, q);
            // c c = (a bi)^2 = a^2 bi^2 = d b^2 bi^2 = d (b bi)^2 = d
            lemma_mul_mod_noop(a * bi, a * bi, q);
            lemma_mod_twice(a * bi, q);
            assert((c * c) % q == ((a * bi) * (a * bi)) % q) by {
                lemma_mul_mod_noop(c, c, q);
                lemma_mod_twice(a * bi, q);
            }
            assert((a * bi) * (a * bi) == (a * a) * (bi * bi)) by (nonlinear_arith);
            lemma_cong_mul(a * a, d * (b * b), bi * bi, q);
            assert(d * (b * b) * (bi * bi) == d * ((b * bi) * (b * bi))) by (nonlinear_arith);
            lemma_mul_mod_noop(b * bi, b * bi, q);
            lemma_small_mod(1, q as nat);
            assert(((b * bi) * (b * bi)) % q == 1) by {
                assert(((b * bi) % q) * ((b * bi) % q) == 1);
            }
            lemma_mul_mod_noop_right(d, (b * bi) * (b * bi), q);
            assert(d * 1 == d);
            lemma_small_mod(d as nat, q as nat);
            assert((c * c) % q == d);
            assert(false);
        }
    }
    let n = nn % q;
    let ni = lemma_residue_inverse(q, n);
    let y0 = a * ni;
    let y1 = -b * ni;
    assert(a * y0 + d * (b * y1) == nn * ni) by (nonlinear_arith)
        requires
            y0 == a * ni,
            y1 == -b * ni,
            nn == a * a - d * (b * b),
    ;
    assert(a * y1 + b * y0 == 0) by (nonlinear_arith)
        requires
            y0 == a * ni,
            y1 == -b * ni,
    ;
    lemma_mul_mod_noop_left(nn, ni, q);
    lemma_small_mod(0, q as nat);
    (y0, y1)
}

/// Column `j` of a matrix given by its rows.
pub open spec fn matrix_column(mat: Seq<Seq<int>>, j: int) -> Seq<int> {
    Seq::new(128, |i: int| mat[i][j])
}

/// A matrix times a vector: entry `i` is `sum_j mat[i][j] v[j]`.
pub open spec fn apply_matrix(mat: Seq<Seq<int>>, v: Seq<int>) -> Seq<int> {
    Seq::new(128, |i: int| linear_form(mat[i], v, 128))
}

/// `A B = c I` modulo `q` for `128 x 128` matrices.
pub open spec fn product_is_scalar(a: Seq<Seq<int>>, b: Seq<Seq<int>>, q: int, c: int) -> bool {
    forall|i: int, k: int|
        0 <= i < 128 && 0 <= k < 128 ==> #[trigger] linear_form(a[i], matrix_column(b, k), 128) % q == (if i
            == k {
            c
        } else {
            0
        }) % q
}

/// The evaluation matrix of 64 slot rows: row `2k` holds the first and row
/// `2k + 1` the second coordinates of the powers of root `k`.
pub open spec fn evaluation_matrix(rows: Seq<Seq<Fq2>>) -> Seq<Seq<int>> {
    Seq::new(128, |i: int| if i % 2 == 0 { coords_a(rows[i / 2]) } else { coords_b(rows[i / 2]) })
}

/// The form is symmetric.
proof fn lemma_form_symmetric(p: Seq<int>, w: Seq<int>, n: int)
    requires
        0 <= n,
    ensures
        linear_form(p, w, n) == linear_form(w, p, n),
    decreases n,
{
    if n > 0 {
        lemma_form_symmetric(p, w, n - 1);
        assert(p[n - 1] * w[n - 1] == w[n - 1] * p[n - 1]) by (nonlinear_arith);
    }
}

/// `a . (M v) = (a M) . v`, summing the rows of `M` up to `n`.
proof fn lemma_form_fubini(a: Seq<int>, mat: Seq<Seq<int>>, v: Seq<int>, n: int)
    requires
        0 <= n <= 128,
        forall|i: int| 0 <= i < 128 ==> (#[trigger] mat[i]).len() == 128,
    ensures
        linear_form(a, apply_matrix(mat, v), n) == linear_form(
            Seq::new(128, |j: int| linear_form(a, matrix_column(mat, j), n)),
            v,
            128,
        ),
    decreases n,
{
    let combo = Seq::new(128, |j: int| linear_form(a, matrix_column(mat, j), n));
    if n == 0 {
        assert(combo =~= zero_poly());
        lemma_form_zero(v, 128);
    } else {
        lemma_form_fubini(a, mat, v, n - 1);
        let prev = Seq::new(128, |j: int| linear_form(a, matrix_column(mat, j), n - 1));
        assert(combo =~= poly_add_scaled(prev, a[n - 1], mat[n - 1]));
        lemma_form_linear_poly(prev, a[n - 1], mat[n - 1], v, 128);
    }
}

/// An odd number dividing a power of two is one.
proof fn lemma_odd_divisor_of_pow2(x: int, k: int, e: nat)
    requires
        x >= 1,
        x % 2 == 1,
        k >= 1,
        x * k == vstd::arithmetic::power2::pow2(e) as int,
    ensures
        x == 1,
    decreases e,
{
    if e == 0 {
        vstd::arithmetic::power2::lemma2_to64();
        assert(x == 1) by (nonlinear_arith)
            requires
                x * k == 1,
                x >= 1,
                k >= 1,
        ;
    } else {
        vstd::arithmetic::power2::lemma_pow2_unfold(e);
        lemma_mul_mod_noop(x, k, 2);
        if k % 2 == 1 {
            assert((x % 2) * (k % 2) == 1);
            lemma_small_mod(1, 2);
            assert(false);
        }
        let h = k / 2;
        lemma_fundamental_div_mod(k, 2);
        assert(x * h == vstd::arithmetic::power2::pow2((e - 1) as nat) as int) by (nonlinear_arith)
            requires
                x * k == 2 * vstd::arithmetic::power2::pow2((e - 1) as nat),
                k == 2 * h,
        ;
        lemma_odd_divisor_of_pow2(x, h, (e - 1) as nat);
    }
}

/// 64 is invertible modulo a prime that makes some `d` no square.
proof fn lemma_64_nonzero(q: int, d: int)
    requires
        q >= 2,
        forall|p: nat| 2 <= p < q ==> #[trigger] (q as nat % p) != 0,
        0 <= d < q,
        forall|c: int| 0 <= c < q ==> #[trigger] ((c * c) % q) != d,
    ensures
        0 < 64int % q,
{
    if q % 2 == 0 {
        if q > 2 {
            assert((q as nat % 2nat) != 0);
        }
        assert(q == 2);
        assert(d * d == d) by (nonlinear_arith)
            requires
                0 <= d < 2,
        ;
        lemma_small_mod(d as nat, 2);
        assert(((d * d) % q) == d);
    }
    lemma_mod_bound(64, q);
    if 64int % q == 0 {
        lemma_fundamental_div_mod(64, q);
        vstd::arithmetic::power2::lemma2_to64();
        let k = 64int / q;
        assert(q * k == 64);
        assert(k >= 1) by (nonlinear_arith)
            requires
                q * k == 64,
                q >= 2,
        ;
        lemma_odd_divisor_of_pow2(q, k, 6);
    }
}

/// The inverse that `lemma_extension_inverse` shows to exist.
pub open spec fn extension_inverse(q: int, d: int, a: int, b: int) -> (int, int) {
    choose|y: (int, int)| (a * y.0 + d * (b * y.1)) % q == 1 && (a * y.1 + b * y.0) % q == 0
}

/// A row `a` with `a M` congruent to `c` times the unit row `r` takes any
/// `M v` to `c v[r]`, modulo `m`.
proof fn lemma_scalar_row(a: Seq<int>, mat: Seq<Seq<int>>, v: Seq<int>, r: int, c: int, m: int)
    requires
        m > 0,
        0 <= r < 128,
        forall|i: int| 0 <= i < 128 ==> (#[trigger] mat[i]).len() == 128,
        forall|l: int|
            0 <= l < 128 ==> #[trigger] linear_form(a, matrix_column(mat, l), 128) % m == (if r == l {
                c
            } else {
                0
            }) % m,
    ensures
        linear_form(a, apply_matrix(mat, v), 128) % m == (c * v[r]) % m,
{
    lemma_form_fubini(a, mat, v, 128);
    let combo = Seq::new(128, |j: int| linear_form(a, matrix_column(mat, j), 128));
    let target = poly_add_scaled(zero_poly(), c, unit_poly(r));
    assert forall|j: int| 0 <= j < 128 implies #[trigger] combo[j] % m == target[j] % m by {
        assert(linear_form(a, matrix_column(mat, j), 128) % m == (if r == j { c } else { 0 }) % m);
        assert(target[j] == 0 + c * unit_poly(r)[j]);
        if r == j {
            assert(c * 1 == c);
        } else {
            assert(c * 0 == 0);
        }
    }
    lemma_form_cong_poly(combo, target, v, 128, m);
    lemma_form_linear_poly(zero_poly(), c, unit_poly(r), v, 128);
    lemma_form_zero(v, 128);
    lemma_form_unit(r, v, 128);
}

/// The premises of the slot certificate, for the lemmas below.
pub open spec fn certificate_holds(f: Field, rows: Seq<Seq<Fq2>>, t: Seq<Seq<int>>) -> bool {
    let q = f.q as int;
    let d = f.nonsquare as int;
    &&& q >= 2
    &&& forall|p: nat| 2 <= p < q ==> #[trigger] (q as nat % p) != 0
    &&& 0 <= d < q
    &&& forall|c: int| 0 <= c < q ==> #[trigger] ((c * c) % q) != d
    &&& rows.len() == 64
    &&& forall|k: int| 0 <= k < 64 ==> is_root_row(f, #[trigger] rows[k])
    &&& t.len() == 128
    &&& forall|j: int| 0 <= j < 128 ==> (#[trigger] t[j]).len() == 128
    &&& product_is_scalar(t, evaluation_matrix(rows), q, 64)
    &&& product_is_scalar(evaluation_matrix(rows), t, q, 64)
}

/// The value of `d` at slot `k`, as a pair of residues.
pub open spec fn slot_value_a(f: Field, rows: Seq<Seq<Fq2>>, dpoly: Seq<int>, k: int) -> int {
    linear_form(dpoly, coords_a(rows[k]), 128) % (f.q as int)
}

pub open spec fn slot_value_b(f: Field, rows: Seq<Seq<Fq2>>, dpoly: Seq<int>, k: int) -> int {
    linear_form(dpoly, coords_b(rows[k]), 128) % (f.q as int)
}

/// The slot-wise inverses of `d`, scaled by `1/64`, as one vector of 128
/// coordinates.
pub open spec fn scaled_inverses(f: Field, rows: Seq<Seq<Fq2>>, dpoly: Seq<int>, i64: int) -> Seq<int> {
    Seq::new(
        128,
        |i: int|
            {
                let y = extension_inverse(
                    f.q as int,
                    f.nonsquare as int,
                    slot_value_a(f, rows, dpoly, i / 2),
                    slot_value_b(f, rows, dpoly, i / 2),
                );
                i64 * if i % 2 == 0 {
                    y.0
                } else {
                    y.1
                }
            },
    )
}

/// Under the certificate, a polynomial that vanishes at no slot is a unit:
/// the interpolation of its slot-wise inverses is its inverse.
pub proof fn lemma_nonvanishing_slots_give_unit(f: Field, rows: Seq<Seq<Fq2>>, t: Seq<Seq<int>>, dpoly: Seq<int>)
    requires
        certificate_holds(f, rows, t),
        dpoly.len() == 128,
        forall|k: int|
            0 <= k < 64 ==> !(#[trigger] slot_value_a(f, rows, dpoly, k) == 0 && slot_value_b(f, rows, dpoly, k)
                == 0),
    ensures
        is_unit_mod(f.q as int, dpoly),
{
    let m = f.q as int;
    let d = f.nonsquare as int;
    let e = evaluation_matrix(rows);
    assert forall|i: int| 0 <= i < 128 implies (#[trigger] e[i]).len() == 128 by {}
    lemma_64_nonzero(m, d);
    let i64 = lemma_residue_inverse(m, 64int % m);
    lemma_mul_mod_noop_left(64, i64, m);
    assert((64 * i64) % m == 1);
    // the slot-wise inverses exist
    assert forall|k: int| 0 <= k < 64 implies {
        let y = extension_inverse(m, d, #[trigger] slot_value_a(f, rows, dpoly, k), slot_value_b(f, rows, dpoly, k));
        (slot_value_a(f, rows, dpoly, k) * y.0 + d * (slot_value_b(f, rows, dpoly, k) * y.1)) % m == 1 && (
        slot_value_a(f, rows, dpoly, k) * y.1 + slot_value_b(f, rows, dpoly, k) * y.0) % m == 0
    } by {
        let va = slot_value_a(f, rows, dpoly, k);
        let vb = slot_value_b(f, rows, dpoly, k);
        lemma_mod_bound(linear_form(dpoly, coords_a(rows[k]), 128), m);
        lemma_mod_bound(linear_form(dpoly, coords_b(rows[k]), 128), m);
        let w = lemma_extension_inverse(m, d, va, vb);
    }
    let y = scaled_inverses(f, rows, dpoly, i64);
    let g = apply_matrix(t, y);
    let p = ring_product(dpoly, g, 128);
    let u = unit_poly(0);
    // the product takes the value one at every slot
    assert forall|i: int| 0 <= i < 128 implies #[trigger] linear_form(e[i], p, 128) % m == linear_form(e[i], u, 128)
        % m by {
        lemma_slot_of_product(f, rows, t, dpoly, i64, i / 2);
    }
    // so it is one
    assert forall|j: int| 0 <= j < 128 implies #[trigger] p[j] % m == u[j] % m by {
        assert forall|l: int| 0 <= l < 128 implies #[trigger] linear_form(t[j], matrix_column(e, l), 128) % m
            == (if j == l { 64int } else { 0int }) % m by {}
        lemma_scalar_row(t[j], e, p, j, 64, m);
        lemma_scalar_row(t[j], e, u, j, 64, m);
        assert forall|i: int| 0 <= i < 128 implies #[trigger] apply_matrix(e, p)[i] % m == apply_matrix(e, u)[i]
            % m by {}
        lemma_form_cong_weights(t[j], apply_matrix(e, p), apply_matrix(e, u), 128, m);
        lemma_cong_mul(64 * p[j], 64 * u[j], i64, m);
        assert(64 * p[j] * i64 == (64 * i64) * p[j]) by (nonlinear_arith);
        assert(64 * u[j] * i64 == (64 * i64) * u[j]) by (nonlinear_arith);
        lemma_small_mod(1, m as nat);
        lemma_cong_mul(64 * i64, 1, p[j], m);
        lemma_cong_mul(64 * i64, 1, u[j], m);
    }
    lemma_small_mod(1, m as nat);
    lemma_small_mod(0, m as nat);
    assert(g.len() == 128);
    assert forall|k: int| 0 <= k < 128 implies #[trigger] ring_product(dpoly, g, 128)[k] % m == if k == 0 {
        1int
    } else {
        0int
    } by {
        assert(p[k] % m == u[k] % m);
    }
}

/// Slot `k` of the product of `d` with the interpolated inverses is one.
proof fn lemma_slot_of_product(f: Field, rows: Seq<Seq<Fq2>>, t: Seq<Seq<int>>, dpoly: Seq<int>, i64: int, k: int)
    requires
        certificate_holds(f, rows, t),
        dpoly.len() == 128,
        0 <= k < 64,
        (64 * i64) % (f.q as int) == 1,
        ({
            let y = extension_inverse(
                f.q as int,
                f.nonsquare as int,
                slot_value_a(f, rows, dpoly, k),
                slot_value_b(f, rows, dpoly, k),
            );
            (slot_value_a(f, rows, dpoly, k) * y.0 + f.nonsquare * (slot_value_b(f, rows, dpoly, k) * y.1)) % (
            f.q as int) == 1 && (slot_value_a(f, rows, dpoly, k) * y.1 + slot_value_b(f, rows, dpoly, k) * y.0) % (
            f.q as int) == 0
        }),
    ensures
        ({
            let e = evaluation_matrix(rows);
            let p = ring_product(dpoly, apply_matrix(t, scaled_inverses(f, rows, dpoly, i64)), 128);
            &&& linear_form(e[2 * k], p, 128) % (f.q as int) == linear_form(e[2 * k], unit_poly(0), 128) % (
            f.q as int)
            &&& linear_form(e[2 * k + 1], p, 128) % (f.q as int) == linear_form(e[2 * k + 1], unit_poly(0), 128)
                % (f.q as int)
        }),
{
    let m = f.q as int;
    let d = f.nonsquare as int;
    let e = evaluation_matrix(rows);
    let row = rows[k];
    let wa = coords_a(row);
    let wb = coords_b(row);
    assert(e[2 * k] == wa);
    assert(e[2 * k + 1] == wb);
    assert(is_root_row(f, row));
    let yv = scaled_inverses(f, rows, dpoly, i64);
    let g = apply_matrix(t, yv);
    let p = ring_product(dpoly, g, 128);
    let va = slot_value_a(f, rows, dpoly, k);
    let vb = slot_value_b(f, rows, dpoly, k);
    let y = extension_inverse(m, d, va, vb);
    assert(yv[2 * k] == i64 * y.0);
    assert(yv[2 * k + 1] == i64 * y.1);
    // the value of g at slot k is y
    assert forall|l: int| 0 <= l < 128 implies #[trigger] linear_form(e[2 * k], matrix_column(t, l), 128) % m
        == (if 2 * k == l { 64int } else { 0int }) % m by {}
    assert forall|l: int| 0 <= l < 128 implies #[trigger] linear_form(e[2 * k + 1], matrix_column(t, l), 128)
        % m == (if 2 * k + 1 == l { 64int } else { 0int }) % m by {}
    lemma_scalar_row(e[2 * k], t, yv, 2 * k, 64, m);
    lemma_scalar_row(e[2 * k + 1], t, yv, 2 * k + 1, 64, m);
    lemma_form_symmetric(g, wa, 128);
    lemma_form_symmetric(g, wb, 128);
    let ga = linear_form(g, wa, 128);
    let gb = linear_form(g, wb, 128);
    assert(64 * (i64 * y.0) == (64 * i64) * y.0) by (nonlinear_arith);
    assert(64 * (i64 * y.1) == (64 * i64) * y.1) by (nonlinear_arith);
    lemma_small_mod(1, m as nat);
    lemma_cong_mul(64 * i64, 1, y.0, m);
    lemma_cong_mul(64 * i64, 1, y.1, m);
    assert(ga % m == y.0 % m);
    assert(gb % m == y.1 % m);
    // the value of the product is the product of the values
    lemma_value_product(f, row, dpoly, g, 128);
    let da = linear_form(dpoly, wa, 128);
    let db = linear_form(dpoly, wb, 128);
    lemma_mod_twice(da, m);
    lemma_mod_twice(db, m);
    lemma_prod_cong(f, da, db, ga, gb, va, vb, y.0, y.1);
    lemma_form_symmetric(p, wa, 128);
    lemma_form_symmetric(p, wb, 128);
    // and the value of one is one
    lemma_form_unit(0, wa, 128);
    lemma_form_unit(0, wb, 128);
    lemma_form_symmetric(unit_poly(0), wa, 128);
    lemma_form_symmetric(unit_poly(0), wb, 128);
    assert(row[0] == spec_pow(f, row[1], 0));
    assert(wa[0] == 1 && wb[0] == 0);
    lemma_small_mod(0, m as nat);
}

/// Slot sums are residues.
proof fn lemma_slot_sum_reduced(f: Field, row: Seq<Fq2>, c: Challenge, n: int)
    requires
        f.q >= 2,
    ensures
        slot_sum(f, row, c, n).a < f.q,
        slot_sum(f, row, c, n).b < f.q,
{
    let m = f.q as int;
    if n > 0 {
        let prev = slot_sum(f, row, c, n - 1);
        let v = row[c.positions[n - 1] as int];
        let s = c.signs[n - 1] as int;
        lemma_mod_bound(prev.a + s * v.a, m);
        lemma_mod_bound(prev.b + s * v.b, m);
    }
}

/// The slot value of `left - right` at a row is zero exactly when its
/// slot difference is zero.
proof fn lemma_difference_slot_value(f: Field, row: Seq<Fq2>, left: Challenge, right: Challenge)
    requires
        f.q >= 2,
        row.len() == 128,
        challenge_in_range(left),
        challenge_in_range(right),
    ensures
        (linear_form(challenge_difference(left, right), coords_a(row), 128) % (f.q as int) == 0
            && linear_form(challenge_difference(left, right), coords_b(row), 128) % (f.q as int) == 0)
            <==> slot_difference(f, row, left, right, right.weight as int) == crate::fq2::fq2_zero(),
        (linear_form(challenge_difference(left, right), coords_a(row), 128) % (f.q as int) == 0
            && linear_form(challenge_difference(left, right), coords_b(row), 128) % (f.q as int) == 0)
            <==> slot_sum(f, row, left, left.weight as int) == slot_sum(f, row, right, right.weight as int),
{
    let m = f.q as int;
    let lw = left.weight as int;
    let rw = right.weight as int;
    let wa = coords_a(row);
    let wb = coords_b(row);
    lemma_slot_difference_value(f, row, left, right, rw);
    lemma_slot_sum_value(f, row, left, lw);
    lemma_slot_sum_value(f, row, right, rw);
    lemma_form_linear_poly(challenge_poly(left, lw), -1, challenge_poly(right, rw), wa, 128);
    lemma_form_linear_poly(challenge_poly(left, lw), -1, challenge_poly(right, rw), wb, 128);
    lemma_slot_difference_reduced(f, row, left, right, rw);
    lemma_slot_sum_reduced(f, row, left, lw);
    lemma_slot_sum_reduced(f, row, right, rw);
    let v = slot_difference(f, row, left, right, rw);
    let x = slot_sum(f, row, left, lw);
    let y = slot_sum(f, row, right, rw);
    lemma_small_mod(v.a as nat, m as nat);
    lemma_small_mod(v.b as nat, m as nat);
    lemma_small_mod(x.a as nat, m as nat);
    lemma_small_mod(x.b as nat, m as nat);
    lemma_small_mod(y.a as nat, m as nat);
    lemma_small_mod(y.b as nat, m as nat);
    let la = linear_form(challenge_poly(left, lw), wa, 128);
    let lb = linear_form(challenge_poly(left, lw), wb, 128);
    let ra = linear_form(challenge_poly(right, rw), wa, 128);
    let rb = linear_form(challenge_poly(right, rw), wb, 128);
    lemma_sub_mod_noop(la, ra, m);
    lemma_sub_mod_noop(lb, rb, m);
    lemma_mod_bound(la, m);
    lemma_mod_bound(lb, m);
    lemma_mod_bound(ra, m);
    lemma_mod_bound(rb, m);
    if (la % m - ra % m) % m == 0 {
        lemma_fundamental_div_mod(la % m - ra % m, m);
        assert(la % m - ra % m == m * ((la % m - ra % m) / m));
        assert(la % m == ra % m) by (nonlinear_arith)
            requires
                la % m - ra % m == m * ((la % m - ra % m) / m),
                0 <= la % m < m,
                0 <= ra % m < m,
        ;
    }
    if (lb % m - rb % m) % m == 0 {
        lemma_fundamental_div_mod(lb % m - rb % m, m);
        assert(lb % m == rb % m) by (nonlinear_arith)
            requires
                lb % m - rb % m == m * ((lb % m - rb % m) / m),
                0 <= lb % m < m,
                0 <= rb % m < m,
        ;
    }
    if la % m == ra % m {
        lemma_small_mod(0, m as nat);
        assert((la % m - ra % m) % m == 0);
    }
    if lb % m == rb % m {
        lemma_small_mod(0, m as nat);
        assert((lb % m - rb % m) % m == 0);
    }
}

/// Under the certificate, a difference of challenges that vanishes at no
/// slot is a unit of `F_q[X]/(X^128 + 1)`.
pub proof fn lemma_nonvanishing_difference_is_unit(
    f: Field,
    rows: Seq<Seq<Fq2>>,
    t: Seq<Seq<int>>,
    left: Challenge,
    right: Challenge,
)
    requires
        certificate_holds(f, rows, t),
        challenge_in_range(left),
        challenge_in_range(right),
        forall|k: int|
            0 <= k < 64 ==> #[trigger] slot_difference(f, rows[k], left, right, right.weight as int)
                != crate::fq2::fq2_zero(),
    ensures
        is_unit_mod(f.q as int, challenge_difference(left, right)),
{
    let dpoly = challenge_difference(left, right);
    assert forall|k: int| 0 <= k < 64 implies !(#[trigger] slot_value_a(f, rows, dpoly, k) == 0 && slot_value_b(
        f,
        rows,
        dpoly,
        k,
    ) == 0) by {
        assert(is_root_row(f, rows[k]));
        lemma_difference_slot_value(f, rows[k], left, right);
        assert(slot_difference(f, rows[k], left, right, right.weight as int) != crate::fq2::fq2_zero());
    }
    lemma_nonvanishing_slots_give_unit(f, rows, t, dpoly);
}

/// Under the certificate, two challenges that take different values at
/// every slot differ by a unit of `F_q[X]/(X^128 + 1)`.
pub proof fn lemma_distinct_slots_give_unit(
    f: Field,
    rows: Seq<Seq<Fq2>>,
    t: Seq<Seq<int>>,
    left: Challenge,
    right: Challenge,
)
    requires
        certificate_holds(f, rows, t),
        challenge_in_range(left),
        challenge_in_range(right),
        forall|k: int|
            0 <= k < 64 ==> #[trigger] slot_sum(f, rows[k], left, left.weight as int) != slot_sum(
                f,
                rows[k],
                right,
                right.weight as int,
            ),
    ensures
        is_unit_mod(f.q as int, challenge_difference(left, right)),
{
    let dpoly = challenge_difference(left, right);
    assert forall|k: int| 0 <= k < 64 implies !(#[trigger] slot_value_a(f, rows, dpoly, k) == 0 && slot_value_b(
        f,
        rows,
        dpoly,
        k,
    ) == 0) by {
        assert(is_root_row(f, rows[k]));
        lemma_difference_slot_value(f, rows[k], left, right);
        assert(slot_sum(f, rows[k], left, left.weight as int) != slot_sum(f, rows[k], right, right.weight as int));
    }
    lemma_nonvanishing_slots_give_unit(f, rows, t, dpoly);
}

} // verus!
