//! The quadratic extension `F_{q^2} = F_q[u]/(u^2 - d)` for a quadratic
//! non-residue `d`, with elements `a + b u` held as pairs of residues.
use crate::modq::{add_mod, int_pow, multiply_mod, power_mod, sub_mod};
use vstd::arithmetic::div_mod::*;
use vstd::prelude::*;

verus! {

/// An element `a + b u` of `F_{q^2}`.
#[derive(Clone, Copy, Debug, PartialEq, Eq, Structural)]
pub struct Fq2 {
    pub a: u64,
    pub b: u64,
}

/// The additive identity.
pub open spec fn fq2_zero() -> Fq2 {
    Fq2 { a: 0, b: 0 }
}

/// The multiplicative identity.
pub open spec fn fq2_one() -> Fq2 {
    Fq2 { a: 1, b: 0 }
}

impl Fq2 {
    /// The additive identity.
    pub fn zero() -> (r: Fq2)
        ensures
            r == fq2_zero(),
    {
        Fq2 { a: 0, b: 0 }
    }

    /// The multiplicative identity.
    pub fn one() -> (r: Fq2)
        ensures
            r == fq2_one(),
    {
        Fq2 { a: 1, b: 0 }
    }

    /// Whether this is the zero element.
    pub fn is_zero(self) -> (r: bool)
        ensures
            r == (self == fq2_zero()),
    {
        self.a == 0 && self.b == 0
    }

    /// The index of this element in a dense `q * q` table, `a * q + b`.
    pub fn dense_index(self, q: u64) -> (r: usize)
        requires
            self.a as int * q as int + self.b as int <= usize::MAX,
        ensures
            r as int == self.a as int * q as int + self.b as int,
    {
        assert(self.a as int * q as int <= u64::MAX) by (nonlinear_arith)
            requires
                self.a as int * q as int + self.b as int <= usize::MAX,
                self.b >= 0,
                usize::MAX <= u64::MAX,
        ;
        (self.a * q + self.b) as usize
    }
}

/// `F_{q^2}` for a prime `q`, given by `q` and the non-residue `d`.
#[derive(Clone, Copy, Debug)]
pub struct Field {
    pub q: u64,
    pub nonsquare: u64,
}

/// The field description is usable for arithmetic: `q` is at least 2, sums
/// of two residues fit in a word, and `d` is a residue.
pub open spec fn field_wf(f: Field) -> bool {
    &&& 2 <= f.q <= 0x8000_0000_0000_0000
    &&& f.nonsquare < f.q
}

/// Both coordinates are residues.
pub open spec fn valid(f: Field, x: Fq2) -> bool {
    x.a < f.q && x.b < f.q
}

/// A coordinate-wise residue of an integer pair.
pub open spec fn pair(f: Field, a: int, b: int) -> Fq2 {
    Fq2 { a: (a % f.q as int) as u64, b: (b % f.q as int) as u64 }
}

pub open spec fn spec_add(f: Field, x: Fq2, y: Fq2) -> Fq2 {
    pair(f, x.a + y.a, x.b + y.b)
}

pub open spec fn spec_sub(f: Field, x: Fq2, y: Fq2) -> Fq2 {
    pair(f, x.a - y.a, x.b - y.b)
}

pub open spec fn spec_neg(f: Field, x: Fq2) -> Fq2 {
    pair(f, -x.a, -x.b)
}

/// `(a1 + b1 u)(a2 + b2 u) = (a1 a2 + d b1 b2) + (a1 b2 + b1 a2) u`.
pub open spec fn spec_mul(f: Field, x: Fq2, y: Fq2) -> Fq2 {
    pair(f, x.a * y.a + f.nonsquare * (x.b * y.b), x.a * y.b + x.b * y.a)
}

/// `x^e`, one factor at a time.
pub open spec fn spec_pow(f: Field, x: Fq2, e: nat) -> Fq2
    decreases e,
{
    if e == 0 {
        fq2_one()
    } else {
        spec_mul(f, x, spec_pow(f, x, (e - 1) as nat))
    }
}

/// `acc + c * value` for a small integer `c`.
pub open spec fn spec_add_signed(f: Field, acc: Fq2, c: int, value: Fq2) -> Fq2 {
    pair(f, acc.a + c * value.a, acc.b + c * value.b)
}

/// The Frobenius map `a + b u -> a - b u`.
pub open spec fn spec_frobenius(f: Field, x: Fq2) -> Fq2 {
    pair(f, x.a as int, -x.b)
}

/// `-1` in the field.
pub open spec fn minus_one(f: Field) -> Fq2 {
    spec_neg(f, fq2_one())
}

proof fn lemma_pair_valid(f: Field, a: int, b: int)
    requires
        f.q > 0,
    ensures
        valid(f, pair(f, a, b)),
        pair(f, a, b).a as int == a % f.q as int,
        pair(f, a, b).b as int == b % f.q as int,
{
    lemma_mod_bound(a, f.q as int);
    lemma_mod_bound(b, f.q as int);
}

proof fn lemma_valid_is_pair(f: Field, x: Fq2)
    requires
        f.q > 0,
        valid(f, x),
    ensures
        pair(f, x.a as int, x.b as int) == x,
{
    lemma_small_mod(x.a as nat, f.q as nat);
    lemma_small_mod(x.b as nat, f.q as nat);
}

/// `((A mod q) B + (C mod q) D) mod q = (A B + C D) mod q`.
proof fn lemma_mod_combo(a: int, b: int, c: int, d: int, m: int)
    requires
        m > 0,
    ensures
        ((a % m) * b + (c % m) * d) % m == (a * b + c * d) % m,
{
    lemma_mul_mod_noop_left(a, b, m);
    lemma_mul_mod_noop_left(c, d, m);
    lemma_add_mod_noop((a % m) * b, (c % m) * d, m);
    lemma_add_mod_noop(a * b, c * d, m);
}

/// Multiplication in `F_{q^2}` is commutative.
pub proof fn lemma_mul_commutative(f: Field, x: Fq2, y: Fq2)
    ensures
        spec_mul(f, x, y) == spec_mul(f, y, x),
{
    assert(x.a * y.a + f.nonsquare * (x.b * y.b) == y.a * x.a + f.nonsquare * (y.b * x.b))
        by (nonlinear_arith);
    assert(x.a * y.b + x.b * y.a == y.a * x.b + y.b * x.a) by (nonlinear_arith);
}

/// `(a + b) c = a c + b c`.
proof fn lemma_split_mul(a: int, b: int, c: int)
    ensures
        (a + b) * c == a * c + b * c,
{
    vstd::arithmetic::mul::lemma_mul_is_distributive_add_other_way(c, a, b);
}

/// Multiplication in `F_{q^2}` is associative.
pub proof fn lemma_mul_associative(f: Field, x: Fq2, y: Fq2, z: Fq2)
    requires
        f.q > 0,
    ensures
        spec_mul(f, spec_mul(f, x, y), z) == spec_mul(f, x, spec_mul(f, y, z)),
{
    let m = f.q as int;
    let d = f.nonsquare as int;
    let xa = x.a as int;
    let xb = x.b as int;
    let ya = y.a as int;
    let yb = y.b as int;
    let za = z.a as int;
    let zb = z.b as int;
    let u0 = xa * ya + d * (xb * yb);
    let u1 = xa * yb + xb * ya;
    let v0 = ya * za + d * (yb * zb);
    let v1 = ya * zb + yb * za;
    let xy = spec_mul(f, x, y);
    let yz = spec_mul(f, y, z);
    lemma_pair_valid(f, u0, u1);
    lemma_pair_valid(f, v0, v1);
    let m1 = xa * ya * za;
    let m2 = d * (xb * yb * za);
    let m3 = d * (xa * yb * zb);
    let m4 = d * (xb * ya * zb);
    lemma_split_mul(xa * ya, d * (xb * yb), za);
    assert((xa * ya) * za == m1);
    assert((d * (xb * yb)) * za == d * (xb * yb * za)) by (nonlinear_arith);
    lemma_split_mul(xa * yb, xb * ya, d * zb);
    assert((xa * yb) * (d * zb) == d * (xa * yb * zb)) by (nonlinear_arith);
    assert((xb * ya) * (d * zb) == d * (xb * ya * zb)) by (nonlinear_arith);
    lemma_split_mul(ya * za, d * (yb * zb), xa);
    assert((ya * za) * xa == xa * ya * za) by (nonlinear_arith);
    assert((d * (yb * zb)) * xa == d * (xa * yb * zb)) by (nonlinear_arith);
    lemma_split_mul(ya * zb, yb * za, d * xb);
    assert((ya * zb) * (d * xb) == d * (xb * ya * zb)) by (nonlinear_arith);
    assert((yb * za) * (d * xb) == d * (xb * yb * za)) by (nonlinear_arith);
    assert(xy.a as int * za + d * (xy.b as int * zb) == (u0 % m) * za + (u1 % m) * (d * zb))
        by (nonlinear_arith)
        requires
            xy.a as int == u0 % m,
            xy.b as int == u1 % m,
    ;
    lemma_mod_combo(u0, za, u1, d * zb, m);
    assert(xa * yz.a as int + d * (xb * yz.b as int) == (v0 % m) * xa + (v1 % m) * (d * xb))
        by (nonlinear_arith)
        requires
            yz.a as int == v0 % m,
            yz.b as int == v1 % m,
    ;
    lemma_mod_combo(v0, xa, v1, d * xb, m);
    let n1 = xa * ya * zb;
    let n2 = d * (xb * yb * zb);
    let n3 = xa * yb * za;
    let n4 = xb * ya * za;
    lemma_split_mul(xa * ya, d * (xb * yb), zb);
    assert((d * (xb * yb)) * zb == d * (xb * yb * zb)) by (nonlinear_arith);
    lemma_split_mul(xa * yb, xb * ya, za);
    lemma_split_mul(ya * zb, yb * za, xa);
    assert((ya * zb) * xa == xa * ya * zb) by (nonlinear_arith);
    assert((yb * za) * xa == xa * yb * za) by (nonlinear_arith);
    lemma_split_mul(ya * za, d * (yb * zb), xb);
    assert((ya * za) * xb == xb * ya * za) by (nonlinear_arith);
    assert((d * (yb * zb)) * xb == d * (xb * yb * zb)) by (nonlinear_arith);
    assert(xy.a as int * zb + xy.b as int * za == (u0 % m) * zb + (u1 % m) * za)
        by (nonlinear_arith)
        requires
            xy.a as int == u0 % m,
            xy.b as int == u1 % m,
    ;
    lemma_mod_combo(u0, zb, u1, za, m);
    assert(xa * yz.b as int + xb * yz.a as int == (v1 % m) * xa + (v0 % m) * xb)
        by (nonlinear_arith)
        requires
            yz.a as int == v0 % m,
            yz.b as int == v1 % m,
    ;
    lemma_mod_combo(v1, xa, v0, xb, m);

}

/// One is the multiplicative identity on valid elements.
pub proof fn lemma_mul_one(f: Field, x: Fq2)
    requires
        f.q > 1,
        valid(f, x),
    ensures
        spec_mul(f, x, fq2_one()) == x,
        spec_mul(f, fq2_one(), x) == x,
{
    assert(x.a * 1 + f.nonsquare * (x.b * 0) == x.a as int) by (nonlinear_arith);
    assert(x.a * 0 + x.b * 1 == x.b as int) by (nonlinear_arith);
    lemma_valid_is_pair(f, x);
    lemma_mul_commutative(f, x, fq2_one());
}

/// Powers are valid elements.
pub proof fn lemma_pow_valid(f: Field, x: Fq2, e: nat)
    requires
        f.q > 1,
    ensures
        valid(f, spec_pow(f, x, e)),
    decreases e,
{
    if e > 0 {
        lemma_pow_valid(f, x, (e - 1) as nat);
        lemma_pair_valid(
            f,
            x.a * spec_pow(f, x, (e - 1) as nat).a + f.nonsquare * (x.b * spec_pow(
                f,
                x,
                (e - 1) as nat,
            ).b),
            x.a * spec_pow(f, x, (e - 1) as nat).b + x.b * spec_pow(f, x, (e - 1) as nat).a,
        );
    }
}

/// `x^(a + b) = x^a x^b`.
pub proof fn lemma_pow_add(f: Field, x: Fq2, a: nat, b: nat)
    requires
        f.q > 1,
    ensures
        spec_pow(f, x, a + b) == spec_mul(f, spec_pow(f, x, a), spec_pow(f, x, b)),
    decreases a,
{
    if a == 0 {
        lemma_pow_valid(f, x, b);
        lemma_mul_one(f, spec_pow(f, x, b));
    } else {
        lemma_pow_add(f, x, (a - 1) as nat, b);
        assert((a + b - 1) as nat == (a - 1) as nat + b);
        lemma_mul_associative(f, x, spec_pow(f, x, (a - 1) as nat), spec_pow(f, x, b));
    }
}

/// `(x^a)^b = x^(a b)`.
pub proof fn lemma_pow_mul(f: Field, x: Fq2, a: nat, b: nat)
    requires
        f.q > 1,
    ensures
        spec_pow(f, spec_pow(f, x, a), b) == spec_pow(f, x, a * b),
    decreases b,
{
    if b == 0 {
        assert(a * 0 == 0) by (nonlinear_arith);
    } else {
        lemma_pow_mul(f, x, a, (b - 1) as nat);
        assert(a * b == a + a * (b - 1)) by (nonlinear_arith)
            requires
                b >= 1,
        ;
        lemma_pow_add(f, x, a, a * (b - 1) as nat);
    }
}

/// `x^1 = x` for valid `x`.
pub proof fn lemma_pow_one(f: Field, x: Fq2)
    requires
        f.q > 1,
        valid(f, x),
    ensures
        spec_pow(f, x, 1) == x,
{
    assert(spec_pow(f, x, 0) == fq2_one());
    lemma_mul_one(f, x);
}

/// `(x x)^k = x^(2k)`.
pub proof fn lemma_pow_square(f: Field, x: Fq2, k: nat)
    requires
        f.q > 1,
        valid(f, x),
    ensures
        spec_pow(f, spec_mul(f, x, x), k) == spec_pow(f, x, 2 * k),
{
    lemma_pow_one(f, x);
    lemma_pow_add(f, x, 1, 1);
    lemma_pow_mul(f, x, 2, k);
}

/// `(-1)^2 = 1`.
pub proof fn lemma_minus_one_squared(f: Field)
    requires
        f.q > 1,
    ensures
        spec_mul(f, minus_one(f), minus_one(f)) == fq2_one(),
        valid(f, minus_one(f)),
        minus_one(f) == (Fq2 { a: (f.q - 1) as u64, b: 0 }),
{
    let m = f.q as int;
    lemma_mod_add_multiples_vanish(-1, m);
    lemma_small_mod((m - 1) as nat, m as nat);
    lemma_small_mod(0, m as nat);
    assert(minus_one(f).a as int == m - 1);
    assert(minus_one(f).b == 0);
    assert((m - 1) * (m - 1) + f.nonsquare * (0 * 0) == m * (m - 2) + 1) by (nonlinear_arith);
    lemma_mod_multiples_vanish(m - 2, 1, m);
    lemma_small_mod(1, m as nat);
    assert((m - 1) * 0 + 0 * (m - 1) == 0) by (nonlinear_arith);
}

/// `(-1)^(2k+1) = -1`.
pub proof fn lemma_minus_one_odd_power(f: Field, k: nat)
    requires
        f.q > 1,
    ensures
        spec_pow(f, minus_one(f), 2 * k + 1) == minus_one(f),
    decreases k,
{
    lemma_minus_one_squared(f);
    if k == 0 {
        lemma_pow_one(f, minus_one(f));
    } else {
        lemma_minus_one_odd_power(f, (k - 1) as nat);
        lemma_pow_add(f, minus_one(f), 2, (2 * (k - 1) + 1) as nat);
        lemma_pow_one(f, minus_one(f));
        lemma_pow_add(f, minus_one(f), 1, 1);
        assert(2 + (2 * (k - 1) + 1) == 2 * k + 1);
        lemma_mul_one(f, minus_one(f));
        lemma_mul_commutative(f, fq2_one(), minus_one(f));
    }
}

/// The Frobenius map is an involution on valid elements.
pub proof fn lemma_frobenius_involution(f: Field, x: Fq2)
    requires
        f.q > 0,
        valid(f, x),
    ensures
        spec_frobenius(f, spec_frobenius(f, x)) == x,
{
    let m = f.q as int;
    lemma_pair_valid(f, x.a as int, -x.b);
    lemma_small_mod(x.a as nat, m as nat);
    lemma_mod_twice(-(x.b as int), m);
    lemma_sub_mod_noop(0, -(x.b as int), m);
    lemma_small_mod(x.b as nat, m as nat);
    lemma_small_mod(0, m as nat);
}

/// The Frobenius map is multiplicative.
pub proof fn lemma_frobenius_multiplicative(f: Field, x: Fq2, y: Fq2)
    requires
        f.q > 0,
        valid(f, x),
        valid(f, y),
    ensures
        spec_frobenius(f, spec_mul(f, x, y)) == spec_mul(
            f,
            spec_frobenius(f, x),
            spec_frobenius(f, y),
        ),
{
    let m = f.q as int;
    let d = f.nonsquare as int;
    let xa = x.a as int;
    let xb = x.b as int;
    let ya = y.a as int;
    let yb = y.b as int;
    let fx = spec_frobenius(f, x);
    let fy = spec_frobenius(f, y);
    lemma_small_mod(x.a as nat, m as nat);
    lemma_small_mod(y.a as nat, m as nat);
    lemma_pair_valid(f, xa, -xb);
    lemma_pair_valid(f, ya, -yb);
    let fxb = fx.b as int;
    let fyb = fy.b as int;
    assert(fxb == (-xb) % m);
    assert(fyb == (-yb) % m);
    let u0 = xa * ya + d * (xb * yb);
    let u1 = xa * yb + xb * ya;
    lemma_pair_valid(f, u0, u1);
    // first coordinates agree
    lemma_mul_mod_noop(-xb, -yb, m);
    assert((-xb) * (-yb) == xb * yb) by (nonlinear_arith);
    assert((fxb * fyb) % m == (xb * yb) % m);
    lemma_mul_mod_noop_right(d, fxb * fyb, m);
    lemma_mul_mod_noop_right(d, xb * yb, m);
    lemma_add_mod_noop_right(xa * ya, d * (fxb * fyb), m);
    lemma_add_mod_noop_right(xa * ya, d * (xb * yb), m);
    assert((xa * ya + d * (fxb * fyb)) % m == u0 % m);
    // second coordinates agree
    lemma_mul_mod_noop_right(xa, -yb, m);
    lemma_mul_mod_noop_left(-xb, ya, m);
    lemma_add_mod_noop(xa * fyb, fxb * ya, m);
    lemma_add_mod_noop(xa * (-yb), (-xb) * ya, m);
    assert(xa * (-yb) + (-xb) * ya == -u1) by (nonlinear_arith)
        requires
            u1 == xa * yb + xb * ya,
    ;
    assert((xa * fyb + fxb * ya) % m == (-u1) % m);
    let p = spec_mul(f, x, y);
    assert(p.a as int == u0 % m);
    assert(p.b as int == u1 % m);
    lemma_mod_twice(u0, m);
    lemma_small_mod(0, m as nat);
    lemma_sub_mod_noop(0, u1, m);
    assert((-(p.b as int)) % m == (-u1) % m);

}

impl Field {
    /// `x + y`.
    pub fn add(&self, x: Fq2, y: Fq2) -> (r: Fq2)
        requires
            field_wf(*self),
            valid(*self, x),
            valid(*self, y),
        ensures
            r == spec_add(*self, x, y),
            valid(*self, r),
    {
        proof {
            lemma_pair_valid(*self, x.a + y.a, x.b + y.b);
        }
        Fq2 { a: add_mod(x.a, y.a, self.q), b: add_mod(x.b, y.b, self.q) }
    }

    /// `x - y`.
    pub fn sub(&self, x: Fq2, y: Fq2) -> (r: Fq2)
        requires
            field_wf(*self),
            valid(*self, x),
            valid(*self, y),
        ensures
            r == spec_sub(*self, x, y),
            valid(*self, r),
    {
        proof {
            lemma_pair_valid(*self, x.a - y.a, x.b - y.b);
        }
        Fq2 { a: sub_mod(x.a, y.a, self.q), b: sub_mod(x.b, y.b, self.q) }
    }

    /// `-x`.
    pub fn neg(&self, x: Fq2) -> (r: Fq2)
        requires
            field_wf(*self),
            valid(*self, x),
        ensures
            r == spec_neg(*self, x),
            valid(*self, r),
    {
        let ghost m = self.q as int;
        proof {
            lemma_pair_valid(*self, -x.a, -x.b);
            lemma_small_mod(0, m as nat);
            lemma_mod_add_multiples_vanish(-(x.a as int), m);
            lemma_mod_add_multiples_vanish(-(x.b as int), m);
            if x.a > 0 {
                lemma_small_mod((m - x.a) as nat, m as nat);
            }
            if x.b > 0 {
                lemma_small_mod((m - x.b) as nat, m as nat);
            }
        }
        Fq2 {
            a: if x.a == 0 {
                0
            } else {
                self.q - x.a
            },
            b: if x.b == 0 {
                0
            } else {
                self.q - x.b
            },
        }
    }

    /// `x y`.
    pub fn mul(&self, x: Fq2, y: Fq2) -> (r: Fq2)
        requires
            field_wf(*self),
            valid(*self, x),
            valid(*self, y),
        ensures
            r == spec_mul(*self, x, y),
            valid(*self, r),
    {
        let ghost m = self.q as int;
        let ghost d = self.nonsquare as int;
        let aa = multiply_mod(x.a, y.a, self.q);
        let bb = multiply_mod(x.b, y.b, self.q);
        let dbb = multiply_mod(self.nonsquare, bb, self.q);
        let ab = multiply_mod(x.a, y.b, self.q);
        let ba = multiply_mod(x.b, y.a, self.q);
        proof {
            let u0 = x.a * y.a + d * (x.b * y.b);
            let u1 = x.a * y.b + x.b * y.a;
            lemma_pair_valid(*self, u0, u1);
            lemma_mul_mod_noop_right(d, x.b * y.b, m);
            lemma_add_mod_noop(x.a * y.a, d * (x.b * y.b), m);
            lemma_add_mod_noop(x.a * y.b, x.b * y.a, m);
        }
        Fq2 { a: add_mod(aa, dbb, self.q), b: add_mod(ab, ba, self.q) }
    }

    /// `x^exp` by square-and-multiply.
    pub fn pow(&self, x: Fq2, exp: u64) -> (r: Fq2)
        requires
            field_wf(*self),
            valid(*self, x),
        ensures
            r == spec_pow(*self, x, exp as nat),
            valid(*self, r),
    {
        let ghost f = *self;
        let mut base = x;
        let mut e = exp;
        let mut acc = Fq2::one();
        proof {
            lemma_pow_valid(f, x, exp as nat);
            lemma_mul_one(f, spec_pow(f, x, exp as nat));
            lemma_mul_commutative(f, fq2_one(), spec_pow(f, x, exp as nat));
        }
        while e > 0
            invariant
                field_wf(f),
                f == *self,
                valid(f, base),
                valid(f, acc),
                spec_mul(f, acc, spec_pow(f, base, e as nat)) == spec_pow(f, x, exp as nat),
            decreases e,
        {
            let ghost old_base = base;
            let ghost old_acc = acc;
            let ghost half = (e / 2) as nat;
            assert(e & 1 == e % 2) by (bit_vector);
            assert(e >> 1u64 == e / 2) by (bit_vector);
            proof {
                lemma_pow_square(f, old_base, half);
            }
            if e & 1 == 1 {
                acc = self.mul(acc, base);
                proof {
                    assert(e as nat == 2 * half + 1);
                    lemma_pow_add(f, old_base, 1, 2 * half);
                    lemma_pow_one(f, old_base);
                    lemma_pow_valid(f, old_base, 2 * half);
                    lemma_mul_associative(f, old_acc, old_base, spec_pow(f, old_base, 2 * half));
                }
            } else {
                proof {
                    assert(e as nat == 2 * half);
                }
            }
            base = self.mul(base, base);
            e = e >> 1;
        }
        proof {
            lemma_mul_one(f, acc);
        }
        acc
    }

    /// `acc + coeff * value` for a coefficient in `[-2, 2]`.
    pub fn add_signed(&self, acc: Fq2, coeff: i8, value: Fq2) -> (r: Fq2)
        requires
            field_wf(*self),
            valid(*self, acc),
            valid(*self, value),
            -2 <= coeff <= 2,
        ensures
            r == spec_add_signed(*self, acc, coeff as int, value),
            valid(*self, r),
    {
        let ghost f = *self;
        let ghost m = f.q as int;
        proof {
            lemma_pair_valid(f, acc.a + coeff * value.a, acc.b + coeff * value.b);
        }
        if coeff == -2 {
            let t = self.sub(acc, value);
            proof {
                lemma_sub_mod_noop(acc.a - value.a, value.a as int, m);
                lemma_sub_mod_noop(acc.b - value.b, value.b as int, m);
                lemma_small_mod(value.a as nat, m as nat);
                lemma_small_mod(value.b as nat, m as nat);
                lemma_mod_twice(acc.a - value.a, m);
                lemma_mod_twice(acc.b - value.b, m);
            }
            let r = self.sub(t, value);
            assert((coeff as int) * value.a == -2 * value.a && (coeff as int) * value.b == -2
                * value.b) by (nonlinear_arith)
                requires
                    coeff == -2,
            ;
            assert(r == spec_add_signed(f, acc, coeff as int, value));
            r
        } else if coeff == -1 {
            let r = self.sub(acc, value);
            assert((coeff as int) * value.a == -value.a && (coeff as int) * value.b == -value.b)
                by (nonlinear_arith)
                requires
                    coeff == -1,
            ;
            assert(r == spec_add_signed(f, acc, coeff as int, value));
            r
        } else if coeff == 0 {
            proof {
                lemma_valid_is_pair(f, acc);
            }
            acc
        } else if coeff == 1 {
            self.add(acc, value)
        } else {
            let t = self.add(acc, value);
            proof {
                lemma_add_mod_noop(acc.a + value.a, value.a as int, m);
                lemma_add_mod_noop(acc.b + value.b, value.b as int, m);
                lemma_small_mod(value.a as nat, m as nat);
                lemma_small_mod(value.b as nat, m as nat);
                lemma_mod_twice(acc.a + value.a, m);
                lemma_mod_twice(acc.b + value.b, m);
            }
            let r = self.add(t, value);
            assert(r == spec_add_signed(f, acc, coeff as int, value));
            r
        }
    }

    /// The Frobenius conjugate `a - b u`.
    pub fn frobenius(&self, x: Fq2) -> (r: Fq2)
        requires
            field_wf(*self),
            valid(*self, x),
        ensures
            r == spec_frobenius(*self, x),
            valid(*self, r),
    {
        let ghost m = self.q as int;
        proof {
            lemma_pair_valid(*self, x.a as int, -x.b);
            lemma_small_mod(x.a as nat, m as nat);
            lemma_small_mod(0, m as nat);
            lemma_mod_add_multiples_vanish(-(x.b as int), m);
            if x.b > 0 {
                lemma_small_mod((m - x.b) as nat, m as nat);
            }
        }
        Fq2 {
            a: x.a,
            b: if x.b == 0 {
                0
            } else {
                self.q - x.b
            },
        }
    }
}

/// `x` is a quadratic non-residue witness for `q`: `x^((q-1)/2) = -1 mod q`.
pub open spec fn is_nonresidue(q: u64, x: u64) -> bool {
    q >= 3 && int_pow(x as int, ((q - 1) / 2) as nat) % (q as int) == q - 1
}

/// Builds `F_{q^2}` with the least non-residue `d >= 2` below `q`, or
/// `None` when there is none.
pub fn field_new(q: u64) -> (r: Option<Field>)
    ensures
        r is Some <==> exists|x: u64| 2 <= x < q && #[trigger] is_nonresidue(q, x),
        r matches Some(f) ==> f.q == q && 2 <= f.nonsquare < q && is_nonresidue(q, f.nonsquare)
            && forall|y: u64| 2 <= y < f.nonsquare ==> !#[trigger] is_nonresidue(q, y),
{
    let mut x: u64 = 2;
    while x < q
        invariant
            2 <= x,
            forall|y: u64| 2 <= y < x && y < q ==> !#[trigger] is_nonresidue(q, y),
        decreases q - x,
    {
        if power_mod(x, (q - 1) / 2, q) == q - 1 {
            assert(is_nonresidue(q, x));
            return Some(Field { q, nonsquare: x });
        }
        x = x + 1;
    }
    None
}

} // verus!
