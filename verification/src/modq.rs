//! Scalar arithmetic modulo a word-sized modulus: sums, differences,
//! products and powers of residues, each returned fully reduced.
use vstd::arithmetic::div_mod::*;
use vstd::prelude::*;

verus! {

/// `x^e` over the integers.
pub open spec fn int_pow(x: int, e: nat) -> int
    decreases e,
{
    if e == 0 {
        1
    } else {
        x * int_pow(x, (e - 1) as nat)
    }
}

/// `(x + y) mod m` for residues `x, y < m`.
pub fn add_mod(x: u64, y: u64, m: u64) -> (r: u64)
    requires
        x < m,
        y < m,
        m <= 0x8000_0000_0000_0000,
    ensures
        r as int == (x as int + y as int) % (m as int),
        r < m,
{
    let sum = x + y;
    if sum >= m {
        proof {
            lemma_mod_sub_multiples_vanish(sum as int, m as int);
            lemma_small_mod((sum - m) as nat, m as nat);
        }
        sum - m
    } else {
        proof {
            lemma_small_mod(sum as nat, m as nat);
        }
        sum
    }
}

/// `(x - y) mod m` for residues `x, y < m`, as a residue.
pub fn sub_mod(x: u64, y: u64, m: u64) -> (r: u64)
    requires
        x < m,
        y < m,
        m <= 0x8000_0000_0000_0000,
    ensures
        r as int == (x as int - y as int) % (m as int),
        r < m,
{
    if x >= y {
        proof {
            lemma_small_mod((x - y) as nat, m as nat);
        }
        x - y
    } else {
        proof {
            lemma_mod_add_multiples_vanish(x as int - y as int, m as int);
            lemma_small_mod((x + m - y) as nat, m as nat);
        }
        x + m - y
    }
}

/// `(x * y) mod m`.
pub fn multiply_mod(x: u64, y: u64, m: u64) -> (r: u64)
    requires
        m > 0,
    ensures
        r as int == (x as int * y as int) % (m as int),
        r < m,
{
    assert((x as int) * (y as int) <= 0xffff_ffff_ffff_ffff * 0xffff_ffff_ffff_ffff)
        by (nonlinear_arith)
        requires
            x <= 0xffff_ffff_ffff_ffff,
            y <= 0xffff_ffff_ffff_ffff,
            x >= 0,
            y >= 0,
    ;
    let prod: u128 = (x as u128) * (y as u128);
    let r: u128 = prod % (m as u128);
    proof {
        lemma_mod_bound(prod as int, m as int);
    }
    r as u64
}

proof fn lemma_int_pow_add(x: int, a: nat, b: nat)
    ensures
        int_pow(x, a + b) == int_pow(x, a) * int_pow(x, b),
    decreases a,
{
    if a > 0 {
        lemma_int_pow_add(x, (a - 1) as nat, b);
        assert(int_pow(x, a + b) == x * int_pow(x, (a - 1 + b) as nat));
        vstd::arithmetic::mul::lemma_mul_is_associative(x, int_pow(x, (a - 1) as nat), int_pow(x, b));
    }
}

proof fn lemma_int_pow_mod(x: int, e: nat, m: int)
    requires
        m > 0,
    ensures
        int_pow(x % m, e) % m == int_pow(x, e) % m,
    decreases e,
{
    if e > 0 {
        lemma_int_pow_mod(x, (e - 1) as nat, m);
        lemma_mul_mod_noop(x % m, int_pow(x % m, (e - 1) as nat), m);
        lemma_mul_mod_noop(x, int_pow(x, (e - 1) as nat), m);
        lemma_mod_twice(x, m);
    }
}

proof fn lemma_int_pow_square(x: int, e: nat)
    ensures
        int_pow(x * x, e) == int_pow(x, 2 * e),
    decreases e,
{
    if e > 0 {
        lemma_int_pow_square(x, (e - 1) as nat);
        lemma_int_pow_add(x, 2, (2 * (e - 1)) as nat);
        assert(int_pow(x, 2) == x * x) by {
            assert(int_pow(x, 0) == 1);
            assert(int_pow(x, 1) == x);
        }
        assert((2 + 2 * (e - 1)) as nat == 2 * e);
    }
}

/// `b^e mod m` by square-and-multiply.
pub fn power_mod(b: u64, e: u64, m: u64) -> (r: u64)
    requires
        m > 1,
    ensures
        r as int == int_pow(b as int, e as nat) % (m as int),
        r < m,
{
    let mut base = b % m;
    let mut exp = e;
    let mut result: u64 = 1;
    proof {
        lemma_small_mod(1, m as nat);
        lemma_int_pow_mod(b as int, e as nat, m as int);
    }
    while exp > 0
        invariant
            m > 1,
            base < m,
            result < m,
            (result as int * int_pow(base as int, exp as nat)) % (m as int) == int_pow(
                b as int,
                e as nat,
            ) % (m as int),
        decreases exp,
    {
        let ghost old_base = base as int;
        let ghost old_result = result as int;
        let ghost old_exp = exp as nat;
        let ghost half = (exp / 2) as nat;
        assert(exp & 1 == exp % 2) by (bit_vector);
        assert(exp >> 1u64 == exp / 2) by (bit_vector);
        proof {
            lemma_int_pow_square(old_base, half);
            lemma_fundamental_div_mod(old_exp as int, 2);
        }
        if exp & 1 == 1 {
            result = multiply_mod(result, base, m);
            proof {
                assert(old_exp == 2 * half + 1);
                lemma_int_pow_add(old_base, 1, 2 * half);
                assert(int_pow(old_base, 0) == 1);
                assert(int_pow(old_base, 1) == old_base);
                assert(int_pow(old_base, old_exp) == old_base * int_pow(old_base * old_base, half));
                vstd::arithmetic::mul::lemma_mul_is_associative(
                    old_result,
                    old_base,
                    int_pow(old_base * old_base, half),
                );
                lemma_mul_mod_noop_left(old_result * old_base, int_pow(old_base * old_base, half), m as int);
            }
        } else {
            proof {
                assert(old_exp == 2 * half);
            }
        }
        base = multiply_mod(base, base, m);
        proof {
            lemma_int_pow_mod(old_base * old_base, half, m as int);
            lemma_mul_mod_noop_right(result as int, int_pow(old_base * old_base, half), m as int);
            lemma_mul_mod_noop_right(result as int, int_pow(base as int, half), m as int);
        }
        exp = exp >> 1;
    }
    proof {
        lemma_small_mod(result as nat, m as nat);
    }
    result
}

/// `result[i] = (a[i] * b[i]) mod m` for every `i`.
pub fn eltwise_mult_mod(result: &mut Vec<u64>, a: &Vec<u64>, b: &Vec<u64>, m: u64)
    requires
        old(result).len() == a.len(),
        b.len() == a.len(),
        m > 0,
    ensures
        final(result).len() == a.len(),
        forall|i: int|
            0 <= i < a.len() ==> #[trigger] final(result)@[i] as int == (a@[i] as int * b@[i] as int)
                % (m as int),
        forall|i: int| 0 <= i < a.len() ==> #[trigger] final(result)@[i] < m,
{
    let n = a.len();
    let mut i: usize = 0;
    while i < n
        invariant
            n == a.len(),
            b.len() == n,
            result.len() == n,
            m > 0,
            i <= n,
            forall|j: int|
                0 <= j < i ==> #[trigger] result@[j] as int == (a@[j] as int * b@[j] as int) % (
                m as int),
            forall|j: int| 0 <= j < i ==> #[trigger] result@[j] < m,
        decreases n - i,
    {
        let v = multiply_mod(a[i], b[i], m);
        result.set(i, v);
        i = i + 1;
    }
}

/// `result[i] = (a[i] * scalar + c[i]) mod m` for every `i`, with each
/// `c[i]` a residue.
pub fn eltwise_fma_mod(result: &mut Vec<u64>, a: &Vec<u64>, scalar: u64, c: &Vec<u64>, m: u64)
    requires
        old(result).len() == a.len(),
        c.len() == a.len(),
        0 < m <= 0x8000_0000_0000_0000,
        forall|i: int| 0 <= i < c.len() ==> #[trigger] c@[i] < m,
    ensures
        final(result).len() == a.len(),
        forall|i: int|
            0 <= i < a.len() ==> #[trigger] final(result)@[i] as int == (a@[i] as int * scalar as int
                + c@[i] as int) % (m as int),
        forall|i: int| 0 <= i < a.len() ==> #[trigger] final(result)@[i] < m,
{
    let n = a.len();
    let mut i: usize = 0;
    while i < n
        invariant
            n == a.len(),
            c.len() == n,
            result.len() == n,
            0 < m <= 0x8000_0000_0000_0000,
            forall|j: int| 0 <= j < c.len() ==> #[trigger] c@[j] < m,
            i <= n,
            forall|j: int|
                0 <= j < i ==> #[trigger] result@[j] as int == (a@[j] as int * scalar as int
                    + c@[j] as int) % (m as int),
            forall|j: int| 0 <= j < i ==> #[trigger] result@[j] < m,
        decreases n - i,
    {
        let p = multiply_mod(a[i], scalar, m);
        let ci = c[i];
        let v = add_mod(p, ci, m);
        proof {
            lemma_add_mod_noop(a@[i as int] as int * scalar as int, ci as int, m as int);
            lemma_small_mod(ci as nat, m as nat);
        }
        result.set(i, v);
        i = i + 1;
    }
}

} // verus!
