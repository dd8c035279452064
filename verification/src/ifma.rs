//! Arithmetic modulo the ring prime `q = 2^50 - C50` with lazy reduction:
//! 52-bit low and high product halves are accumulated unreduced and reduced
//! once through the congruences `2^50 = C50`, `2^52 = C52`, `2^102 = C102`.
//! Every function here computes, lane by lane, what one 64-bit lane of the
//! vector passes computes.
use vstd::arithmetic::div_mod::*;
use vstd::prelude::*;

verus! {

/// The ring prime `q`.
pub const Q: u64 = 1125899906839937;

/// `2^50 - q`.
pub const C50: u64 = 2687;

/// `2^52 mod q`.
pub const C52: u64 = 10748;

/// `2^102 mod q`.
pub const C102: u64 = 28879876;

/// `2^50 - 1`.
pub const M50: u64 = 0x3_ffff_ffff_ffff;

/// `2^52 - 1`.
pub const M52: u64 = 0xf_ffff_ffff_ffff;

/// The prime as an integer.
pub open spec fn q() -> int {
    Q as int
}

/// `2^50`, `2^52` and `2^102` as integers.
pub open spec fn p50() -> int {
    0x4_0000_0000_0000
}

pub open spec fn p52() -> int {
    0x10_0000_0000_0000
}

pub open spec fn p102() -> int {
    0x40_0000_0000_0000_0000_0000_0000
}

/// Folding the bits above position 50 into `C50` keeps the residue.
pub proof fn lemma_fold50(x: int)
    requires
        x >= 0,
    ensures
        (x / p50() * C50 + x % p50()) % q() == x % q(),
        x / p50() * C50 + x % p50() <= x,
{
    lemma_fundamental_div_mod(x, p50());
    let hi = x / p50();
    let lo = x % p50();
    assert(x == q() * hi + (hi * C50 + lo)) by (nonlinear_arith)
        requires
            x == p50() * hi + lo,
            p50() == q() + C50,
    ;
    assert(hi * C50 + lo <= x) by (nonlinear_arith)
        requires
            x == p50() * hi + lo,
            p50() >= C50,
            hi >= 0,
    ;
    lemma_mod_multiples_vanish(hi, hi * C50 + lo, q());
}

/// The three reduction constants are the residues they stand for.
pub proof fn lemma_reduction_constants()
    ensures
        p50() % q() == C50,
        p52() % q() == C52,
        p102() % q() == C102,
        p102() == p50() * p52(),
{
    assert(p50() == q() + C50);
    lemma_mod_add_multiples_vanish(C50 as int, q());
    lemma_small_mod(C50 as nat, Q as nat);
    assert(p52() == 4 * q() + C52);
    lemma_mod_multiples_vanish(4, C52 as int, q());
    lemma_small_mod(C52 as nat, Q as nat);
    assert(p102() == (p50() * p52())) by (nonlinear_arith);
    lemma_mul_mod_noop(p50(), p52(), q());
    assert((C50 as int) * (C52 as int) == C102);
    lemma_small_mod(C102 as nat, Q as nat);
}

/// `n mod q` for `n < 2^112`, by three folds and one conditional subtraction.
pub fn reduce_u128(n: u128) -> (r: u64)
    requires
        n < 0x1_0000_0000_0000_0000_0000_0000_0000,
    ensures
        r as int == n as int % q(),
{
    assert(n >> 50u128 == n / 0x4_0000_0000_0000) by (bit_vector);
    assert(n & 0x3_ffff_ffff_ffffu128 == n % 0x4_0000_0000_0000) by (bit_vector);
    assert(n / 0x4_0000_0000_0000 < 0x4000_0000_0000_0000) by (bit_vector)
        requires
            n < 0x1_0000_0000_0000_0000_0000_0000_0000u128,
    ;
    let hi0: u128 = n >> 50u128;
    let lo0: u128 = n & 0x3_ffff_ffff_ffffu128;
    assert(hi0 < 0x4000_0000_0000_0000u128);
    assert(lo0 < 0x4_0000_0000_0000u128);
    assert(hi0 as int == n as int / p50());
    assert(lo0 as int == n as int % p50());
    let n1: u128 = hi0 * 2687u128 + lo0;
    proof {
        lemma_fold50(n as int);
    }
    assert(n1 < 0x1_0000_0000_0000_0000_0000u128);
    assert(n1 >> 50u128 == n1 / 0x4_0000_0000_0000) by (bit_vector);
    assert((n1 as u64) & 0x3_ffff_ffff_ffffu64 == n1 % 0x4_0000_0000_0000) by (bit_vector);
    assert(n1 / 0x4_0000_0000_0000 < 0x1_0000_0000u128) by (bit_vector)
        requires
            n1 < 0x1_0000_0000_0000_0000_0000u128,
    ;
    let hi1: u64 = (n1 >> 50u128) as u64;
    let lo1: u64 = (n1 as u64) & 0x3_ffff_ffff_ffffu64;
    let n2: u64 = hi1 * C50 + lo1;
    proof {
        lemma_fold50(n1 as int);
    }
    assert(n2 >> 50u64 == n2 / 0x4_0000_0000_0000) by (bit_vector);
    assert(n2 & 0x3_ffff_ffff_ffffu64 == n2 % 0x4_0000_0000_0000) by (bit_vector);
    let n3: u64 = (n2 >> 50u64) * C50 + (n2 & 0x3_ffff_ffff_ffffu64);
    proof {
        lemma_fold50(n2 as int);
        assert(n2 / 0x4_0000_0000_0000 <= 1);
        assert(n3 < 2 * Q);
    }
    if n3 >= Q {
        proof {
            lemma_mod_sub_multiples_vanish(n3 as int, q());
            lemma_small_mod((n3 - Q) as nat, Q as nat);
        }
        n3 - Q
    } else {
        proof {
            lemma_small_mod(n3 as nat, Q as nat);
        }
        n3
    }
}

/// `(hi * 2^52 + lo) mod q`.
pub fn reduce_lo_hi(lo: u64, hi: u64) -> (r: u64)
    requires
        hi as int * p52() + lo < 0x1_0000_0000_0000_0000_0000_0000_0000,
    ensures
        r as int == (hi as int * p52() + lo as int) % q(),
{
    assert(hi < 0x1000_0000_0000_0000u64);
    let wide: u128 = (hi as u128) * 0x10_0000_0000_0000u128 + (lo as u128);
    reduce_u128(wide)
}

/// The Shoup companion of a multiplier, `floor(y * 2^52 / q)` truncated to 64 bits.
pub fn shoup(y: u64) -> (r: u64)
    ensures
        r as int == (y as int * p52() / q()) % 0x1_0000_0000_0000_0000,
        y < Q ==> r as int == y as int * p52() / q() && r < 0x10_0000_0000_0000,
{
    let num: u128 = (y as u128) * 0x10_0000_0000_0000u128;
    let t: u128 = num / (Q as u128);
    assert((t as u64) as int == t as int % 0x1_0000_0000_0000_0000) by (bit_vector);
    proof {
        lemma_fundamental_div_mod(num as int, q());
        lemma_mod_bound(num as int, q());
        if y < Q {
            let tt = t as int;
            let rr = num as int % q();
            assert(tt < p52()) by (nonlinear_arith)
                requires
                    num as int == q() * tt + rr,
                    0 <= rr,
                    num as int == y as int * p52(),
                    (y as int) < q(),
                    q() > 0,
                    p52() > 0,
            ;
            lemma_small_mod(t as nat, 0x1_0000_0000_0000_0000nat);
        }
    }
    t as u64
}

} // verus!
