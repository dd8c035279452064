//! The quadratic extension `F_q[i] / (i^2 - s)` of the ring prime `q`, in
//! which the folding protocol batches slots and runs its sumchecks. An
//! element is a pair of residues `c0 + c1 i`; the shift factor `s` is a
//! residue fixed by the ring, passed to every product.
use crate::ifma::{q, Q};
use crate::modq::{add_mod, multiply_mod, sub_mod};
use vstd::arithmetic::div_mod::*;
use vstd::prelude::*;

verus! {

/// `c0 + c1 i`.
#[derive(Clone, Copy, Debug, PartialEq, Eq, Structural)]
pub struct QuadraticExtension {
    pub c0: u64,
    pub c1: u64,
}

/// Both coordinates are residues modulo `q`.
pub open spec fn qe_valid(x: QuadraticExtension) -> bool {
    x.c0 < Q && x.c1 < Q
}

/// The element whose coordinates are the residues of `a` and `b`.
pub open spec fn qe_pair(a: int, b: int) -> QuadraticExtension {
    QuadraticExtension { c0: (a % q()) as u64, c1: (b % q()) as u64 }
}

pub open spec fn qe_zero() -> QuadraticExtension {
    QuadraticExtension { c0: 0, c1: 0 }
}

pub open spec fn qe_one() -> QuadraticExtension {
    QuadraticExtension { c0: 1, c1: 0 }
}

pub open spec fn qe_add(x: QuadraticExtension, y: QuadraticExtension) -> QuadraticExtension {
    qe_pair(x.c0 + y.c0, x.c1 + y.c1)
}

pub open spec fn qe_sub(x: QuadraticExtension, y: QuadraticExtension) -> QuadraticExtension {
    qe_pair(x.c0 - y.c0, x.c1 - y.c1)
}

/// `(a + b i)(c + d i) = (a c + s b d) + (a d + b c) i`.
pub open spec fn qe_mul(s: u64, x: QuadraticExtension, y: QuadraticExtension) -> QuadraticExtension {
    qe_pair(x.c0 * y.c0 + s * (x.c1 * y.c1), x.c0 * y.c1 + x.c1 * y.c0)
}

/// A pair of residues has valid coordinates equal to them.
pub proof fn lemma_qe_pair(a: int, b: int)
    ensures
        qe_valid(qe_pair(a, b)),
        qe_pair(a, b).c0 as int == a % q(),
        qe_pair(a, b).c1 as int == b % q(),
{
    lemma_mod_bound(a, q());
    lemma_mod_bound(b, q());
}

/// A valid element is the pair of its own coordinates.
pub proof fn lemma_qe_valid_is_pair(x: QuadraticExtension)
    requires
        qe_valid(x),
    ensures
        qe_pair(x.c0 as int, x.c1 as int) == x,
{
    lemma_small_mod(x.c0 as nat, Q as nat);
    lemma_small_mod(x.c1 as nat, Q as nat);
}

/// Adding the pair of two integers to the pair of two others is the pair of
/// the sums.
pub proof fn lemma_qe_add_pairs(a: int, b: int, c: int, d: int)
    ensures
        qe_add(qe_pair(a, b), qe_pair(c, d)) == qe_pair(a + c, b + d),
{
    lemma_add_mod_noop(a, c, q());
    lemma_add_mod_noop(b, d, q());
    lemma_qe_pair(a, b);
    lemma_qe_pair(c, d);
}

/// `x - x l = x (1 - l)`.
pub proof fn lemma_qe_mul_one_minus(s: u64, x: QuadraticExtension, l: QuadraticExtension)
    requires
        qe_valid(x),
        qe_valid(l),
    ensures
        qe_sub(x, qe_mul(s, x, l)) == qe_mul(s, x, qe_sub(qe_one(), l)),
{
    let m = q();
    let a0 = x.c0 as int;
    let a1 = x.c1 as int;
    let l0 = l.c0 as int;
    let l1 = l.c1 as int;
    let si = s as int;
    let p = qe_mul(s, x, l);
    let d = qe_sub(qe_one(), l);
    let x0 = a0 * l0 + si * (a1 * l1);
    let x1 = a0 * l1 + a1 * l0;
    lemma_qe_pair(x0, x1);
    lemma_qe_pair(1 - l0, 0 - l1);
    let d0 = d.c0 as int;
    let d1 = d.c1 as int;
    assert(d0 == (1 - l0) % m);
    assert(d1 == (0 - l1) % m);
    lemma_small_mod(x.c0 as nat, Q as nat);
    lemma_small_mod(x.c1 as nat, Q as nat);
    // first coordinate
    lemma_sub_mod_noop(a0, x0, m);
    assert((a0 - p.c0 as int) % m == (a0 - x0) % m);
    lemma_mul_mod_noop_right(a0, 1 - l0, m);
    lemma_mul_mod_noop_right(a1, 0 - l1, m);
    assert((a1 * d1) % m == (a1 * (0 - l1)) % m);
    lemma_mul_mod_noop_right(si, a1 * d1, m);
    lemma_mul_mod_noop_right(si, a1 * (0 - l1), m);
    assert((si * (a1 * d1)) % m == (si * (a1 * (0 - l1))) % m);
    lemma_add_mod_noop(a0 * d0, si * (a1 * d1), m);
    lemma_add_mod_noop(a0 * (1 - l0), si * (a1 * (0 - l1)), m);
    assert((a0 * d0 + si * (a1 * d1)) % m == (a0 * (1 - l0) + si * (a1 * (0 - l1))) % m);
    assert(a0 * (1 - l0) + si * (a1 * (0 - l1)) == a0 - x0) by (nonlinear_arith)
        requires
            x0 == a0 * l0 + si * (a1 * l1),
    ;
    // second coordinate
    lemma_sub_mod_noop(a1, x1, m);
    assert((a1 - p.c1 as int) % m == (a1 - x1) % m);
    lemma_mul_mod_noop_right(a1, 1 - l0, m);
    lemma_mul_mod_noop_right(a0, 0 - l1, m);
    lemma_add_mod_noop(a0 * d1, a1 * d0, m);
    lemma_add_mod_noop(a0 * (0 - l1), a1 * (1 - l0), m);
    assert((a0 * d1 + a1 * d0) % m == (a0 * (0 - l1) + a1 * (1 - l0)) % m);
    assert(a0 * (0 - l1) + a1 * (1 - l0) == a1 - x1) by (nonlinear_arith)
        requires
            x1 == a0 * l1 + a1 * l0,
    ;
}

/// Subtracting the pair of two integers from the pair of two others is the
/// pair of the differences.
pub proof fn lemma_qe_sub_pairs(a: int, b: int, c: int, d: int)
    ensures
        qe_sub(qe_pair(a, b), qe_pair(c, d)) == qe_pair(a - c, b - d),
{
    lemma_sub_mod_noop(a, c, q());
    lemma_sub_mod_noop(b, d, q());
    lemma_qe_pair(a, b);
    lemma_qe_pair(c, d);
}

/// `x * 0 = 0` and `x * 1 = x` for valid `x`.
pub proof fn lemma_qe_mul_zero_one(s: u64, x: QuadraticExtension)
    requires
        qe_valid(x),
    ensures
        qe_mul(s, x, qe_zero()) == qe_zero(),
        qe_mul(s, x, qe_one()) == x,
{
    assert(x.c0 * 0 + s * (x.c1 * 0) == 0) by (nonlinear_arith);
    assert(x.c0 * 0 + x.c1 * 0 == 0) by (nonlinear_arith);
    assert(x.c0 * 1 + s * (x.c1 * 0) == x.c0) by (nonlinear_arith);
    assert(x.c0 * 0 + x.c1 * 1 == x.c1) by (nonlinear_arith);
    lemma_small_mod(0, Q as nat);
    lemma_qe_valid_is_pair(x);
}

/// Congruent summands give congruent sums.
proof fn lemma_cong_add(a: int, a2: int, b: int, b2: int)
    requires
        a % q() == a2 % q(),
        b % q() == b2 % q(),
    ensures
        (a + b) % q() == (a2 + b2) % q(),
{
    lemma_add_mod_noop(a, b, q());
    lemma_add_mod_noop(a2, b2, q());
}

/// Congruent factors give congruent products.
proof fn lemma_cong_mul(a: int, a2: int, k: int)
    requires
        a % q() == a2 % q(),
    ensures
        (a * k) % q() == (a2 * k) % q(),
        (k * a) % q() == (k * a2) % q(),
{
    lemma_mul_mod_noop_left(a, k, q());
    lemma_mul_mod_noop_left(a2, k, q());
    lemma_mul_mod_noop_right(k, a, q());
    lemma_mul_mod_noop_right(k, a2, q());
}

/// Addition is associative.
pub proof fn lemma_qe_add_assoc(x: QuadraticExtension, y: QuadraticExtension, z: QuadraticExtension)
    requires
        qe_valid(x),
        qe_valid(y),
        qe_valid(z),
    ensures
        qe_add(qe_add(x, y), z) == qe_add(x, qe_add(y, z)),
{
    lemma_qe_valid_is_pair(x);
    lemma_qe_valid_is_pair(z);
    lemma_qe_add_pairs(x.c0 + y.c0, x.c1 + y.c1, z.c0 as int, z.c1 as int);
    lemma_qe_add_pairs(x.c0 as int, x.c1 as int, y.c0 + z.c0, y.c1 + z.c1);
    assert(x.c0 + y.c0 + z.c0 == x.c0 + (y.c0 + z.c0));
    assert(x.c1 + y.c1 + z.c1 == x.c1 + (y.c1 + z.c1));
}

/// `0` is neutral for addition.
pub proof fn lemma_qe_add_zero(x: QuadraticExtension)
    requires
        qe_valid(x),
    ensures
        qe_add(x, qe_zero()) == x,
        qe_add(qe_zero(), x) == x,
{
    lemma_qe_valid_is_pair(x);
}

/// `0 x = 0`.
pub proof fn lemma_qe_zero_mul(s: u64, x: QuadraticExtension)
    ensures
        qe_mul(s, qe_zero(), x) == qe_zero(),
{
    assert(0 * x.c0 + s * (0 * x.c1) == 0) by (nonlinear_arith);
    assert(0 * x.c1 + 0 * x.c0 == 0) by (nonlinear_arith);
    lemma_small_mod(0, Q as nat);
}

/// `(x + y) c = x c + y c`.
pub proof fn lemma_qe_mul_distrib_right(s: u64, x: QuadraticExtension, y: QuadraticExtension, c: QuadraticExtension)
    requires
        qe_valid(x),
        qe_valid(y),
        qe_valid(c),
    ensures
        qe_mul(s, qe_add(x, y), c) == qe_add(qe_mul(s, x, c), qe_mul(s, y, c)),
{
    let u = qe_add(x, y);
    let a0 = x.c0 + y.c0;
    let a1 = x.c1 + y.c1;
    lemma_qe_pair(a0, a1);
    let c0 = c.c0 as int;
    let c1 = c.c1 as int;
    let si = s as int;
    lemma_cong_mul(u.c0 as int, a0, c0);
    lemma_cong_mul(u.c1 as int, a1, c1);
    lemma_cong_mul(u.c1 as int * c1, a1 * c1, si);
    lemma_cong_add(u.c0 * c0, a0 * c0, si * (u.c1 * c1), si * (a1 * c1));
    lemma_cong_mul(u.c0 as int, a0, c1);
    lemma_cong_mul(u.c1 as int, a1, c0);
    lemma_cong_add(u.c0 * c1, a0 * c1, u.c1 * c0, a1 * c0);
    lemma_qe_add_pairs(
        x.c0 * c0 + si * (x.c1 * c1),
        x.c0 * c1 + x.c1 * c0,
        y.c0 * c0 + si * (y.c1 * c1),
        y.c0 * c1 + y.c1 * c0,
    );
    assert(a0 * c0 + si * (a1 * c1) == (x.c0 * c0 + si * (x.c1 * c1)) + (y.c0 * c0 + si * (y.c1
        * c1))) by (nonlinear_arith)
        requires
            a0 == x.c0 + y.c0,
            a1 == x.c1 + y.c1,
    ;
    assert(a0 * c1 + a1 * c0 == (x.c0 * c1 + x.c1 * c0) + (y.c0 * c1 + y.c1 * c0)) by (nonlinear_arith)
        requires
            a0 == x.c0 + y.c0,
            a1 == x.c1 + y.c1,
    ;
}

/// `c (x + y) = c x + c y`.
pub proof fn lemma_qe_mul_distrib_left(s: u64, c: QuadraticExtension, x: QuadraticExtension, y: QuadraticExtension)
    requires
        qe_valid(x),
        qe_valid(y),
        qe_valid(c),
    ensures
        qe_mul(s, c, qe_add(x, y)) == qe_add(qe_mul(s, c, x), qe_mul(s, c, y)),
{
    let u = qe_add(x, y);
    let a0 = x.c0 + y.c0;
    let a1 = x.c1 + y.c1;
    lemma_qe_pair(a0, a1);
    let c0 = c.c0 as int;
    let c1 = c.c1 as int;
    let si = s as int;
    lemma_cong_mul(u.c0 as int, a0, c0);
    lemma_cong_mul(u.c1 as int, a1, c1);
    lemma_cong_mul(c1 * u.c1, c1 * a1, si);
    lemma_cong_add(c0 * u.c0, c0 * a0, si * (c1 * u.c1), si * (c1 * a1));
    lemma_cong_mul(u.c0 as int, a0, c1);
    lemma_cong_mul(u.c1 as int, a1, c0);
    lemma_cong_add(c0 * u.c1, c0 * a1, c1 * u.c0, c1 * a0);
    lemma_qe_add_pairs(
        c0 * x.c0 + si * (c1 * x.c1),
        c0 * x.c1 + c1 * x.c0,
        c0 * y.c0 + si * (c1 * y.c1),
        c0 * y.c1 + c1 * y.c0,
    );
    assert(c0 * a0 + si * (c1 * a1) == (c0 * x.c0 + si * (c1 * x.c1)) + (c0 * y.c0 + si * (c1
        * y.c1))) by (nonlinear_arith)
        requires
            a0 == x.c0 + y.c0,
            a1 == x.c1 + y.c1,
    ;
    assert(c0 * a1 + c1 * a0 == (c0 * x.c1 + c1 * x.c0) + (c0 * y.c1 + c1 * y.c0)) by (nonlinear_arith)
        requires
            a0 == x.c0 + y.c0,
            a1 == x.c1 + y.c1,
    ;
}

/// `(1 - l) + l = 1`.
pub proof fn lemma_qe_one_minus_plus(l: QuadraticExtension)
    requires
        qe_valid(l),
    ensures
        qe_add(qe_sub(qe_one(), l), l) == qe_one(),
{
    lemma_qe_valid_is_pair(l);
    lemma_qe_add_pairs(1 - l.c0, 0 - l.c1, l.c0 as int, l.c1 as int);
    lemma_small_mod(1, Q as nat);
    lemma_small_mod(0, Q as nat);
}

impl QuadraticExtension {
    /// `0`.
    pub fn zero() -> (r: QuadraticExtension)
        ensures
            r == qe_zero(),
    {
        QuadraticExtension { c0: 0, c1: 0 }
    }

    /// `1`.
    pub fn one() -> (r: QuadraticExtension)
        ensures
            r == qe_one(),
    {
        QuadraticExtension { c0: 1, c1: 0 }
    }

    /// `self + other`.
    pub fn add(self, other: QuadraticExtension) -> (r: QuadraticExtension)
        requires
            qe_valid(self),
            qe_valid(other),
        ensures
            r == qe_add(self, other),
            qe_valid(r),
    {
        proof {
            lemma_qe_pair(self.c0 + other.c0, self.c1 + other.c1);
        }
        QuadraticExtension { c0: add_mod(self.c0, other.c0, Q), c1: add_mod(self.c1, other.c1, Q) }
    }

    /// `self - other`.
    pub fn sub(self, other: QuadraticExtension) -> (r: QuadraticExtension)
        requires
            qe_valid(self),
            qe_valid(other),
        ensures
            r == qe_sub(self, other),
            qe_valid(r),
    {
        proof {
            lemma_qe_pair(self.c0 - other.c0, self.c1 - other.c1);
        }
        QuadraticExtension { c0: sub_mod(self.c0, other.c0, Q), c1: sub_mod(self.c1, other.c1, Q) }
    }

    /// `self * other` with shift factor `s`.
    pub fn mul(self, other: QuadraticExtension, s: u64) -> (r: QuadraticExtension)
        requires
            qe_valid(self),
            qe_valid(other),
        ensures
            r == qe_mul(s, self, other),
            qe_valid(r),
    {
        let aa = multiply_mod(self.c0, other.c0, Q);
        let bb = multiply_mod(self.c1, other.c1, Q);
        let sbb = multiply_mod(s, bb, Q);
        let ab = multiply_mod(self.c0, other.c1, Q);
        let ba = multiply_mod(self.c1, other.c0, Q);
        proof {
            let u0 = self.c0 * other.c0 + s * (self.c1 * other.c1);
            let u1 = self.c0 * other.c1 + self.c1 * other.c0;
            lemma_qe_pair(u0, u1);
            lemma_mul_mod_noop_right(s as int, self.c1 * other.c1, q());
            lemma_add_mod_noop(self.c0 * other.c0, s * (self.c1 * other.c1), q());
            lemma_add_mod_noop(self.c0 * other.c1, self.c1 * other.c0, q());
        }
        QuadraticExtension { c0: add_mod(aa, sbb, Q), c1: add_mod(ab, ba, Q) }
    }
}

} // verus!
