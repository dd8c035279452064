//! The NTT slots of `F_q[X]/(X^128 + 1)` for a prime `q` with `q^2 = 1 mod
//! 256`: the slots are the 128 primitive 256th roots of unity in `F_{q^2}`,
//! taken one per Frobenius orbit, and a challenge is evaluated at each.
use crate::fq2::{
    field_new, field_wf, fq2_one, fq2_zero, is_nonresidue, lemma_frobenius_involution,
    lemma_minus_one_odd_power, lemma_minus_one_squared, lemma_mul_commutative, lemma_pow_add, lemma_pow_mul, lemma_pow_one,
    lemma_pow_valid, minus_one, spec_add_signed, spec_frobenius, spec_mul, spec_pow, valid, Field,
    Fq2,
};
use crate::modq::int_pow;
use crate::sampler::{challenge_in_range, Challenge};
use vstd::arithmetic::div_mod::*;
use crate::units::{
    certificate_holds, challenge_difference, evaluation_matrix, is_root_row, is_unit_mod,
    lemma_nonvanishing_difference_is_unit, lemma_vanishing_slot_is_not_unit, lemma_zero_difference_vanishes,
    linear_form, matrix_column, product_is_scalar,
};
use vstd::prelude::*;

verus! {

/// `n` is prime.
pub open spec fn spec_is_prime(n: nat) -> bool {
    n >= 2 && forall|d: nat| 2 <= d < n ==> #[trigger] (n % d) != 0
}

proof fn lemma_odd_no_even_divisor(n: nat, e: nat)
    requires
        n % 2 == 1,
        e >= 2,
        e % 2 == 0,
    ensures
        n % e != 0,
{
    if n % e == 0 {
        lemma_fundamental_div_mod(n as int, e as int);
        lemma_fundamental_div_mod(e as int, 2);
        let k = n / e;
        let h = e / 2;
        assert(n == 2 * (h * k)) by (nonlinear_arith)
            requires
                n == e * k,
                e == 2 * h,
        ;
        lemma_mod_multiples_basic((h * k) as int, 2);
        assert((2 * (h * k)) % 2 == 0) by (nonlinear_arith);
    }
}

/// Trial division by 2 and the odd numbers up to `sqrt(n)`.
pub fn is_prime(n: u64) -> (r: bool)
    ensures
        r == spec_is_prime(n as nat),
{
    if n < 2 {
        return false;
    }
    if n % 2 == 0 {
        if n != 2 {
            assert((n as nat) % 2 == 0);
        }
        return n == 2;
    }
    let mut d: u64 = 3;
    while d <= n / d
        invariant
            n >= 3,
            n % 2 == 1,
            d >= 3,
            d % 2 == 1,
            d <= n,
            forall|e: nat| 2 <= e < d ==> #[trigger] ((n as nat) % e) != 0,
        decreases n - d,
    {
        if n % d == 0 {
            proof {
                assert(d < n) by (nonlinear_arith)
                    requires
                        d <= n / d,
                        d >= 3,
                        n >= 3,
                ;
                assert((n as nat) % (d as nat) == 0);
            }
            return false;
        }
        proof {
            assert forall|e: nat| 2 <= e < d + 2 implies #[trigger] ((n as nat) % e) != 0 by {
                if e == d + 1 {
                    lemma_odd_no_even_divisor(n as nat, e);
                }
            }
            assert(d * d <= n) by {
                lemma_fundamental_div_mod(n as int, d as int);
                lemma_mod_bound(n as int, d as int);
                let qq = (n / d) as int;
                let rr = (n % d) as int;
                assert(d * d <= n) by (nonlinear_arith)
                    requires
                        d <= qq,
                        n == d * qq + rr,
                        rr >= 0,
                        d >= 0,
                ;
            }
            assert(d + 2 <= n) by (nonlinear_arith)
                requires
                    d * d <= n,
                    d >= 3,
            ;
        }
        d = d + 2;
    }
    proof {
        assert forall|e: nat| 2 <= e < n implies #[trigger] ((n as nat) % e) != 0 by {
            if e >= d && (n as nat) % e == 0 {
                lemma_fundamental_div_mod(n as int, e as int);
                let f = (n as nat) / e;
                assert(n == e * f);
                assert(f >= 2) by (nonlinear_arith)
                    requires
                        n == e * f,
                        e < n,
                        f >= 0,
                ;
                assert(f < d) by (nonlinear_arith)
                    requires
                        n == e * f,
                        e >= d,
                        d > n / d,
                        d >= 1,
                        f >= 0,
                ;
                lemma_mod_multiples_basic(e as int, f as int);
                assert((e * f) % f == 0) by (nonlinear_arith)
                    requires
                        (e as int * f as int) % (f as int) == 0,
                ;
                assert((n as nat) % f == 0);
            }
        }
    }
    true
}

/// `x^o = 1 mod m`.
pub open spec fn order_hit(x: u64, m: u64, o: nat) -> bool {
    int_pow(x as int, o) % (m as int) == 1
}

/// The multiplicative order of `x` modulo `m`, searched up to `m`.
pub fn multiplicative_order_mod(x: u64, modulus: u64) -> (r: Option<u64>)
    requires
        modulus > 0,
    ensures
        r matches Some(o) ==> 1 <= o <= modulus && order_hit(x, modulus, o as nat) && forall|
            p: nat,
        |
            1 <= p < o ==> !#[trigger] order_hit(x, modulus, p),
        r is None ==> forall|p: nat| 1 <= p <= modulus ==> !#[trigger] order_hit(x, modulus, p),
{
    let m = modulus as u128;
    let mut acc: u128 = 1 % m;
    let mut order: u64 = 1;
    proof {
        lemma_mod_bound(1, m as int);
    }
    loop
        invariant
            1 <= order <= modulus,
            m == modulus,
            acc < m,
            acc as int == int_pow(x as int, (order - 1) as nat) % (m as int),
            forall|p: nat| 1 <= p < order ==> !#[trigger] order_hit(x, modulus, p),
        decreases modulus - order,
    {
        let ghost prev = int_pow(x as int, (order - 1) as nat);
        assert((acc as int) * (x as int) < 0x1_0000_0000_0000_0000 * 0x1_0000_0000_0000_0000)
            by (nonlinear_arith)
            requires
                acc < 0x1_0000_0000_0000_0000,
                x < 0x1_0000_0000_0000_0000,
                acc >= 0,
                x >= 0,
        ;
        acc = (acc * (x as u128)) % m;
        proof {
            lemma_mul_mod_noop_left(prev, x as int, m as int);
            vstd::arithmetic::mul::lemma_mul_is_commutative(prev, x as int);
            assert(int_pow(x as int, order as nat) == x * prev);
            lemma_mod_bound((acc as int), m as int);
        }
        if acc == 1 {
            return Some(order);
        }
        if order == modulus {
            return None;
        }
        order = order + 1;
    }
}

/// `cand` raised to `(q^2 - 1) / 256` has order exactly 256: its 128th
/// power is `-1`.
pub open spec fn root_candidate_hits(f: Field, cand: Fq2) -> bool {
    let exp = ((f.q * f.q - 1) / 256) as nat;
    spec_pow(f, spec_pow(f, cand, exp), 128) == minus_one(f)
}

/// Candidate `(a, b)` comes before `(a2, b2)` in the search order: `b` first,
/// then `a`.
pub open spec fn candidate_before(a: u64, b: u64, a2: u64, b2: u64) -> bool {
    b < b2 || (b == b2 && a < a2)
}

/// Finds a primitive 256th root of unity in `F_{q^2}`: the first candidate
/// `a + b u` (by `b >= 1`, then `a`) whose power `(q^2 - 1)/256` has 128th
/// power `-1`, raised to that power.
pub fn primitive_256th_root(field: &Field) -> (r: Option<Fq2>)
    requires
        field_wf(*field),
        field.q < 0x1_0000_0000,
    ensures
        r matches Some(root) ==> exists|a: u64, b: u64|
            #![trigger root_candidate_hits(*field, Fq2 { a, b })]
            {
                &&& 1 <= b < field.q
                &&& a < field.q
                &&& root == spec_pow(
                    *field,
                    Fq2 { a, b },
                    ((field.q * field.q - 1) / 256) as nat,
                )
                &&& root_candidate_hits(*field, Fq2 { a, b })
                &&& forall|a2: u64, b2: u64|
                    1 <= b2 && a2 < field.q && #[trigger] candidate_before(a2, b2, a, b)
                        ==> !root_candidate_hits(*field, Fq2 { a: a2, b: b2 })
            },
        r matches Some(root) ==> spec_pow(*field, root, 128) == minus_one(*field) && valid(
            *field,
            root,
        ),
        r is None ==> forall|a: u64, b: u64|
            1 <= b < field.q && a < field.q ==> !#[trigger] root_candidate_hits(
                *field,
                Fq2 { a, b },
            ),
{
    let f = *field;
    let q = field.q;
    assert(q * q < 0x1_0000_0000_0000_0000 && q * q >= 4) by (nonlinear_arith)
        requires
            2 <= q < 0x1_0000_0000,
    ;
    let exp = (q * q - 1) / 256;
    let minus = field.neg(Fq2::one());
    let mut b: u64 = 1;
    while b < q
        invariant
            f == *field,
            field_wf(f),
            q == f.q,
            q < 0x1_0000_0000,
            exp == (q * q - 1) / 256,
            minus == minus_one(f),
            1 <= b <= q,
            forall|a2: u64, b2: u64|
                1 <= b2 < b && a2 < q ==> !#[trigger] root_candidate_hits(f, Fq2 { a: a2, b: b2 }),
        decreases q - b,
    {
        let mut a: u64 = 0;
        while a < q
            invariant
                f == *field,
                field_wf(f),
                q == f.q,
                q < 0x1_0000_0000,
                exp == (q * q - 1) / 256,
                minus == minus_one(f),
                1 <= b < q,
                a <= q,
                forall|a2: u64, b2: u64|
                    1 <= b2 < b && a2 < q ==> !#[trigger] root_candidate_hits(
                        f,
                        Fq2 { a: a2, b: b2 },
                    ),
                forall|a2: u64| a2 < a ==> !#[trigger] root_candidate_hits(f, Fq2 { a: a2, b }),
            decreases q - a,
        {
            let candidate = Fq2 { a, b };
            let root = field.pow(candidate, exp);
            let check = field.pow(root, 128);
            if check == minus {
                proof {
                    assert(root_candidate_hits(f, candidate));
                    assert forall|a2: u64, b2: u64|
                        1 <= b2 && a2 < f.q && #[trigger] candidate_before(a2, b2, a, b)
                            implies !root_candidate_hits(f, Fq2 { a: a2, b: b2 }) by {
                        if b2 < b {
                        } else {
                            assert(!root_candidate_hits(f, Fq2 { a: a2, b }));
                        }
                    }
                    assert(root == spec_pow(*field, Fq2 { a, b }, ((field.q * field.q - 1) / 256) as nat));
                                    assert(exists|a1: u64, b1: u64|
                        #![trigger root_candidate_hits(*field, Fq2 { a: a1, b: b1 })]
                        {
                            &&& 1 <= b1 < field.q
                            &&& a1 < field.q
                            &&& root == spec_pow(
                                *field,
                                Fq2 { a: a1, b: b1 },
                                ((field.q * field.q - 1) / 256) as nat,
                            )
                            &&& root_candidate_hits(*field, Fq2 { a: a1, b: b1 })
                            &&& forall|a2: u64, b2: u64|
                                1 <= b2 && a2 < field.q && #[trigger] candidate_before(a2, b2, a1, b1)
                                    ==> !root_candidate_hits(*field, Fq2 { a: a2, b: b2 })
                        }) by {
                        assert(root_candidate_hits(*field, Fq2 { a, b }));
                    }
                }
                return Some(root);
            }
            a = a + 1;
        }
        b = b + 1;
    }
    None
}

/// Why a prime is unusable for the slot system.
#[derive(Clone, Copy, Debug, PartialEq, Eq)]
pub enum SlotError {
    /// `q` is not prime.
    NotPrime,
    /// The order of `q` modulo 256 is not 2.
    OrderNotTwo,
    /// `q` has no quadratic non-residue `>= 2`.
    NoNonResidue,
    /// No candidate yields a primitive 256th root of unity.
    NoPrimitiveRoot,
    /// The roots did not split into 64 Frobenius orbits.
    RepresentativeCount,
    /// The check that `d` is no square and that the interpolation matrix
    /// inverts the evaluation matrix of the slot rows failed.
    CertificateFailed,
}

/// The evaluation of the `n` first terms of a challenge at a slot whose
/// powers are `row`.
pub open spec fn slot_sum(f: Field, row: Seq<Fq2>, c: Challenge, n: int) -> Fq2
    decreases n,
{
    if n <= 0 {
        fq2_zero()
    } else {
        spec_add_signed(
            f,
            slot_sum(f, row, c, n - 1),
            c.signs[n - 1] as int,
            row[c.positions[n - 1] as int],
        )
    }
}

/// `left - right` evaluated at a slot: the sum of `left` continued by the
/// negated terms of `right`.
pub open spec fn slot_difference(f: Field, row: Seq<Fq2>, left: Challenge, right: Challenge, n: int) -> Fq2
    decreases n,
{
    if n <= 0 {
        slot_sum(f, row, left, left.weight as int)
    } else {
        spec_add_signed(
            f,
            slot_difference(f, row, left, right, n - 1),
            -(right.signs[n - 1] as int),
            row[right.positions[n - 1] as int],
        )
    }
}

/// The slot system: the field and, for each of the 64 slots, the powers
/// `root^0 .. root^127` of its root.
pub struct SlotSystem {
    pub field: Field,
    pub powers: Vec<[Fq2; 128]>,
}

/// Every stored power is a valid field element and every row is the list of
/// powers of its root.
pub open spec fn slots_wf(s: &SlotSystem) -> bool {
    &&& field_wf(s.field)
    &&& s.field.q < 0x1_0000_0000
    &&& forall|k: int, j: int|
        0 <= k < s.powers.len() && 0 <= j < 128 ==> valid(s.field, #[trigger] s.powers[k][j])
}

proof fn lemma_slot_sum_valid(f: Field, row: Seq<Fq2>, c: Challenge, n: int)
    requires
        f.q > 1,
    ensures
        valid(f, slot_sum(f, row, c, n)),
    decreases n,
{
    if n > 0 {
        lemma_slot_sum_valid(f, row, c, n - 1);
    }
    let s = slot_sum(f, row, c, n);
    vstd::arithmetic::div_mod::lemma_mod_bound(0, f.q as int);
    if n > 0 {
        let p = slot_sum(f, row, c, n - 1);
        let v = row[c.positions[n - 1] as int];
        lemma_mod_bound(p.a + (c.signs[n - 1] as int) * v.a, f.q as int);
        lemma_mod_bound(p.b + (c.signs[n - 1] as int) * v.b, f.q as int);
    }
}

proof fn lemma_slot_difference_valid(f: Field, row: Seq<Fq2>, l: Challenge, r: Challenge, n: int)
    requires
        f.q > 1,
    ensures
        valid(f, slot_difference(f, row, l, r, n)),
    decreases n,
{
    if n <= 0 {
        lemma_slot_sum_valid(f, row, l, l.weight as int);
    } else {
        lemma_slot_difference_valid(f, row, l, r, n - 1);
        let p = slot_difference(f, row, l, r, n - 1);
        let v = row[r.positions[n - 1] as int];
        lemma_mod_bound(p.a + (-(r.signs[n - 1] as int)) * v.a, f.q as int);
        lemma_mod_bound(p.b + (-(r.signs[n - 1] as int)) * v.b, f.q as int);
    }
}

impl SlotSystem {
    /// The value of `challenge` at slot `k`.
    fn evaluate_slot(&self, k: usize, challenge: &Challenge) -> (r: Fq2)
        requires
            slots_wf(self),
            k < self.powers.len(),
            challenge_in_range(*challenge),
        ensures
            r == slot_sum(self.field, self.powers[k as int]@, *challenge, challenge.weight as int),
    {
        let mut acc = Fq2::zero();
        let mut i: usize = 0;
        while i < challenge.weight
            invariant
                slots_wf(self),
                k < self.powers.len(),
                challenge_in_range(*challenge),
                i <= challenge.weight,
                valid(self.field, acc),
                acc == slot_sum(self.field, self.powers[k as int]@, *challenge, i as int),
            decreases challenge.weight - i,
        {
            let p = challenge.positions[i] as usize;
            proof {
                assert(valid(self.field, self.powers[k as int][p as int]));
            }
            acc = self.field.add_signed(acc, challenge.signs[i], self.powers[k][p]);
            i = i + 1;
        }
        acc
    }

    /// `out[k]` becomes the value of `challenge` at slot `k`.
    pub fn evaluate_slots_into(&self, challenge: &Challenge, out: &mut [Fq2; 64])
        requires
            slots_wf(self),
            self.powers.len() == 64,
            challenge_in_range(*challenge),
        ensures
            forall|k: int|
                0 <= k < 64 ==> #[trigger] final(out)[k] == slot_sum(
                    self.field,
                    self.powers[k]@,
                    *challenge,
                    challenge.weight as int,
                ),
    {
        let mut k: usize = 0;
        while k < 64
            invariant
                slots_wf(self),
                self.powers.len() == 64,
                challenge_in_range(*challenge),
                k <= 64,
                forall|t: int|
                    0 <= t < k ==> #[trigger] out[t] == slot_sum(
                        self.field,
                        self.powers[t]@,
                        *challenge,
                        challenge.weight as int,
                    ),
            decreases 64 - k,
        {
            let value = self.evaluate_slot(k, challenge);
            out[k] = value;
            k = k + 1;
        }
    }

    /// Whether `left - right` vanishes at some slot. On a slot system that
    /// `new` built, this holds exactly when the difference has no inverse in
    /// `F_q[X]/(X^128 + 1)`.
    pub fn non_unit_difference(&self, left: &Challenge, right: &Challenge) -> (r: bool)
        requires
            slots_wf(self),
            challenge_in_range(*left),
            challenge_in_range(*right),
        ensures
            r == exists|k: int|
                0 <= k < self.powers.len() && #[trigger] slot_difference(
                    self.field,
                    self.powers[k]@,
                    *left,
                    *right,
                    right.weight as int,
                ) == fq2_zero(),
            slot_rows_correct(self) && r ==> !is_unit_mod(self.field.q as int, challenge_difference(*left, *right)),
            slot_rows_correct(self) && (forall|j: int|
                0 <= j < 128 ==> #[trigger] challenge_difference(*left, *right)[j] % (self.field.q as int) == 0)
                ==> r,
            slots_certified(self) ==> (r <==> !is_unit_mod(
                self.field.q as int,
                challenge_difference(*left, *right),
            )),
    {
        let mut k: usize = 0;
        while k < self.powers.len()
            invariant
                slots_wf(self),
                challenge_in_range(*left),
                challenge_in_range(*right),
                k <= self.powers.len(),
                forall|t: int|
                    0 <= t < k ==> #[trigger] slot_difference(
                        self.field,
                        self.powers[t]@,
                        *left,
                        *right,
                        right.weight as int,
                    ) != fq2_zero(),
            decreases self.powers.len() - k,
        {
            let mut acc = self.evaluate_slot(k, left);
            proof {
                lemma_slot_sum_valid(self.field, self.powers[k as int]@, *left, left.weight as int);
            }
            let mut i: usize = 0;
            while i < right.weight
                invariant
                    slots_wf(self),
                    k < self.powers.len(),
                    challenge_in_range(*right),
                    i <= right.weight,
                    valid(self.field, acc),
                    acc == slot_difference(self.field, self.powers[k as int]@, *left, *right, i as int),
                decreases right.weight - i,
            {
                let p = right.positions[i] as usize;
                proof {
                    assert(valid(self.field, self.powers[k as int][p as int]));
                }
                acc = self.field.add_signed(acc, -right.signs[i], self.powers[k][p]);
                i = i + 1;
            }
            if acc.is_zero() {
                proof {
                    if slot_rows_correct(self) {
                        lemma_vanishing_slot_is_not_unit(self.field, self.powers[k as int]@, *left, *right);
                    }
                }
                return true;
            }
            k = k + 1;
        }
        proof {
            if slot_rows_correct(self) && (forall|j: int|
                0 <= j < 128 ==> #[trigger] challenge_difference(*left, *right)[j] % (self.field.q as int) == 0) {
                lemma_zero_difference_vanishes(self.field, self.powers[0]@, *left, *right);
                assert(slot_difference(self.field, self.powers[0]@, *left, *right, right.weight as int) != fq2_zero());
            }
            if slots_certified(self) {
                let rows = slot_rows(self.powers@);
                lemma_certified_premises(self);
                assert forall|k: int| 0 <= k < 64 implies #[trigger] slot_difference(
                    self.field,
                    rows[k],
                    *left,
                    *right,
                    right.weight as int,
                ) != fq2_zero() by {
                    assert(rows[k] == self.powers[k]@);
                }
                lemma_nonvanishing_difference_is_unit(
                    self.field,
                    rows,
                    interpolation_matrix(self.field, rows),
                    *left,
                    *right,
                );
            }
        }
        false
    }

    /// Whether `left` takes the value `right_slots[k]` at some slot `k`.
    pub fn has_matching_slot(&self, left: &Challenge, right_slots: &[Fq2; 64]) -> (r: bool)
        requires
            slots_wf(self),
            self.powers.len() == 64,
            challenge_in_range(*left),
        ensures
            r == exists|k: int|
                0 <= k < 64 && #[trigger] slot_sum(
                    self.field,
                    self.powers[k]@,
                    *left,
                    left.weight as int,
                ) == right_slots[k],
    {
        let mut k: usize = 0;
        while k < 64
            invariant
                slots_wf(self),
                self.powers.len() == 64,
                challenge_in_range(*left),
                k <= 64,
                forall|t: int|
                    0 <= t < k ==> #[trigger] slot_sum(
                        self.field,
                        self.powers[t]@,
                        *left,
                        left.weight as int,
                    ) != right_slots[t],
            decreases 64 - k,
        {
            let value = self.evaluate_slot(k, left);
            if value == right_slots[k] {
                return true;
            }
            k = k + 1;
        }
        false
    }
}

/// The multiplicative order of `q mod 256` modulo 256 is 2.
pub open spec fn order_is_two(q: u64) -> bool {
    order_hit((q % 256) as u64, 256, 2) && !order_hit((q % 256) as u64, 256, 1)
}

/// `d` is the least quadratic non-residue `>= 2` modulo `q`.
pub open spec fn is_least_nonresidue(q: u64, d: u64) -> bool {
    &&& 2 <= d < q
    &&& is_nonresidue(q, d)
    &&& forall|y: u64| 2 <= y < d ==> !#[trigger] is_nonresidue(q, y)
}

/// Some `x >= 2` below `q` is a quadratic non-residue.
pub open spec fn has_nonresidue(q: u64) -> bool {
    exists|x: u64| 2 <= x < q && #[trigger] is_nonresidue(q, x)
}

/// Some candidate of the root search succeeds in `f`.
pub open spec fn has_root_candidate(f: Field) -> bool {
    exists|a: u64, b: u64|
        1 <= b < f.q && a < f.q && #[trigger] root_candidate_hits(f, Fq2 { a, b })
}

/// The slot rows of `s` over the field `f`: 64 rows, each the powers of its
/// root, every root a primitive 256th root of unity, and no two roots equal
/// or Frobenius-conjugate.
pub open spec fn slot_rows_correct(s: &SlotSystem) -> bool {
    let f = s.field;
    &&& s.powers.len() == 64
    &&& forall|k: int, j: int|
        0 <= k < 64 && 0 <= j < 128 ==> #[trigger] s.powers[k][j] == spec_pow(
            f,
            s.powers[k][1],
            j as nat,
        )
    &&& forall|k: int| 0 <= k < 64 ==> spec_pow(f, #[trigger] s.powers[k][1], 128) == minus_one(f)
    &&& forall|k1: int, k2: int|
        0 <= k1 < 64 && 0 <= k2 < 64 && k1 != k2 ==> #[trigger] s.powers[k1][1] != #[trigger] s.powers[k2][1]
            && s.powers[k1][1] != spec_frobenius(f, s.powers[k2][1])
}

/// `alpha` is the root the search finds in `f`: the first candidate `a + b u`
/// (by `b >= 1`, then `a`) whose power `(q^2 - 1)/256` has 128th power
/// `-1`, raised to that power.
pub open spec fn is_least_root(f: Field, alpha: Fq2) -> bool {
    exists|a: u64, b: u64|
        #![trigger root_candidate_hits(f, Fq2 { a, b })]
        {
            &&& 1 <= b < f.q
            &&& a < f.q
            &&& alpha == spec_pow(f, Fq2 { a, b }, ((f.q * f.q - 1) / 256) as nat)
            &&& root_candidate_hits(f, Fq2 { a, b })
            &&& forall|a2: u64, b2: u64|
                1 <= b2 && a2 < f.q && #[trigger] candidate_before(a2, b2, a, b) ==> !root_candidate_hits(
                    f,
                    Fq2 { a: a2, b: b2 },
                )
        }
}

/// The slot roots `alpha^(2k + 1)` for `k < 128`.
pub open spec fn slot_roots(f: Field, alpha: Fq2) -> Seq<Fq2> {
    Seq::new(128, |k: int| spec_pow(f, alpha, (2 * k + 1) as nat))
}

/// Root `i` is the first of its Frobenius orbit: no earlier root equals it
/// or its conjugate.
pub open spec fn leads_orbit(f: Field, roots: Seq<Fq2>, i: int) -> bool {
    forall|j: int| 0 <= j < i ==> #[trigger] roots[j] != roots[i] && roots[j] != spec_frobenius(f, roots[i])
}

/// The first root of each Frobenius orbit among the first `n` roots, in
/// order.
pub open spec fn orbit_leaders(f: Field, roots: Seq<Fq2>, n: int) -> Seq<Fq2>
    decreases n,
{
    if n <= 0 {
        Seq::empty()
    } else if leads_orbit(f, roots, n - 1) {
        orbit_leaders(f, roots, n - 1).push(roots[n - 1])
    } else {
        orbit_leaders(f, roots, n - 1)
    }
}

/// The search finds one root at most.
proof fn lemma_least_root_unique(f: Field, x: Fq2, y: Fq2)
    requires
        is_least_root(f, x),
        is_least_root(f, y),
    ensures
        x == y,
{
    let (a, b) = choose|a: u64, b: u64|
        #![trigger root_candidate_hits(f, Fq2 { a, b })]
        {
            &&& 1 <= b < f.q
            &&& a < f.q
            &&& x == spec_pow(f, Fq2 { a, b }, ((f.q * f.q - 1) / 256) as nat)
            &&& root_candidate_hits(f, Fq2 { a, b })
            &&& forall|a2: u64, b2: u64|
                1 <= b2 && a2 < f.q && #[trigger] candidate_before(a2, b2, a, b) ==> !root_candidate_hits(
                    f,
                    Fq2 { a: a2, b: b2 },
                )
        };
    let (c, d) = choose|a: u64, b: u64|
        #![trigger root_candidate_hits(f, Fq2 { a, b })]
        {
            &&& 1 <= b < f.q
            &&& a < f.q
            &&& y == spec_pow(f, Fq2 { a, b }, ((f.q * f.q - 1) / 256) as nat)
            &&& root_candidate_hits(f, Fq2 { a, b })
            &&& forall|a2: u64, b2: u64|
                1 <= b2 && a2 < f.q && #[trigger] candidate_before(a2, b2, a, b) ==> !root_candidate_hits(
                    f,
                    Fq2 { a: a2, b: b2 },
                )
        };
    if candidate_before(a, b, c, d) {
        assert(!root_candidate_hits(f, Fq2 { a, b }));
    } else if candidate_before(c, d, a, b) {
        assert(!root_candidate_hits(f, Fq2 { a: c, b: d }));
    } else {
        assert(a == c && b == d);
    }
}

/// A matrix of residues as integers.
pub open spec fn int_matrix(v: Seq<[u64; 128]>) -> Seq<Seq<int>> {
    Seq::new(v.len(), |j: int| Seq::new(128, |i: int| v[j][i] as int))
}

/// The rows of a slot system as sequences.
pub open spec fn slot_rows(powers: Seq<[Fq2; 128]>) -> Seq<Seq<Fq2>> {
    Seq::new(powers.len(), |k: int| powers[k]@)
}

/// The candidate inverse of the evaluation matrix, up to the factor 64:
/// entry `(j, 2k)` is the first and entry `(j, 2k + 1)` is `d` times the
/// second coordinate of `r_k^(-j)`, with `r^(-j) = -r^(128 - j)` for
/// `j > 0`.
pub open spec fn interpolation_entry(f: Field, rows: Seq<Seq<Fq2>>, j: int, i: int) -> int {
    let q = f.q as int;
    let row = rows[i / 2];
    let za: int = if j == 0 { row[0].a as int } else { (q - row[128 - j].a) % q };
    let zb: int = if j == 0 { row[0].b as int } else { (q - row[128 - j].b) % q };
    if i % 2 == 0 {
        za
    } else {
        (f.nonsquare * zb) % q
    }
}

pub open spec fn interpolation_matrix(f: Field, rows: Seq<Seq<Fq2>>) -> Seq<Seq<int>> {
    Seq::new(128, |j: int| Seq::new(128, |i: int| interpolation_entry(f, rows, j, i)))
}

/// The runtime certificate passes for these rows: `d` is no square, and the
/// interpolation matrix inverts the evaluation matrix, both ways, up to 64.
pub open spec fn certificate_passes(f: Field, rows: Seq<Seq<Fq2>>) -> bool {
    &&& forall|c: int| 0 <= c < f.q ==> #[trigger] ((c * c) % (f.q as int)) != f.nonsquare
    &&& product_is_scalar(interpolation_matrix(f, rows), evaluation_matrix(rows), f.q as int, 64)
    &&& product_is_scalar(evaluation_matrix(rows), interpolation_matrix(f, rows), f.q as int, 64)
}

/// The rows of powers of the orbit leaders of the roots of `alpha`.
pub open spec fn leader_rows(f: Field, alpha: Fq2) -> Seq<Seq<Fq2>> {
    Seq::new(
        64,
        |k: int| Seq::new(128, |j: int| spec_pow(f, orbit_leaders(f, slot_roots(f, alpha), 128)[k], j as nat)),
    )
}

/// A slot system whose rows are correct over a prime field and pass the
/// certificate: every slot system that `new` returns is one.
pub open spec fn slots_certified(s: &SlotSystem) -> bool {
    &&& slot_rows_correct(s)
    &&& spec_is_prime(s.field.q as nat)
    &&& certificate_passes(s.field, slot_rows(s.powers@))
}

/// A certified slot system meets the premises of the unit lemmas, with the
/// interpolation matrix as the inverse of its evaluation matrix.
pub proof fn lemma_certified_premises(s: &SlotSystem)
    requires
        slots_wf(s),
        slots_certified(s),
    ensures
        certificate_holds(s.field, slot_rows(s.powers@), interpolation_matrix(s.field, slot_rows(s.powers@))),
{
    let f = s.field;
    let rows = slot_rows(s.powers@);
    assert forall|p: nat| 2 <= p < f.q implies #[trigger] ((f.q as int) as nat % p) != 0 by {
        assert(f.q as nat % p != 0);
    }
    assert forall|k: int| 0 <= k < 64 implies is_root_row(f, #[trigger] rows[k]) by {
        assert(rows[k] == s.powers[k]@);
        assert forall|j: int| 0 <= j < 128 implies #[trigger] rows[k][j] == spec_pow(f, rows[k][1], j as nat) by {
            assert(s.powers[k][j] == spec_pow(f, s.powers[k][1], j as nat));
        }
    }
}

/// Whether `a b = c I` modulo `q` for two `128 x 128` matrices of residues.
fn scalar_product_holds(a: &Vec<[u64; 128]>, b: &Vec<[u64; 128]>, q: u64, c: u64) -> (r: bool)
    requires
        a.len() == 128,
        b.len() == 128,
        2 <= q < 0x1_0000_0000,
        forall|j: int, i: int| 0 <= j < 128 && 0 <= i < 128 ==> #[trigger] a@[j][i] < q,
        forall|j: int, i: int| 0 <= j < 128 && 0 <= i < 128 ==> #[trigger] b@[j][i] < q,
    ensures
        r == product_is_scalar(int_matrix(a@), int_matrix(b@), q as int, c as int),
{
    let ghost am = int_matrix(a@);
    let ghost bm = int_matrix(b@);
    let mut i: usize = 0;
    while i < 128
        invariant
            a.len() == 128,
            b.len() == 128,
            2 <= q < 0x1_0000_0000,
            forall|j: int, ii: int| 0 <= j < 128 && 0 <= ii < 128 ==> #[trigger] a@[j][ii] < q,
            forall|j: int, ii: int| 0 <= j < 128 && 0 <= ii < 128 ==> #[trigger] b@[j][ii] < q,
            am == int_matrix(a@),
            bm == int_matrix(b@),
            i <= 128,
            forall|ii: int, k: int|
                0 <= ii < i && 0 <= k < 128 ==> #[trigger] linear_form(am[ii], matrix_column(bm, k), 128) % (q as int)
                    == (if ii == k { c as int } else { 0int }) % (q as int),
        decreases 128 - i,
    {
        let mut k: usize = 0;
        while k < 128
            invariant
                a.len() == 128,
                b.len() == 128,
                2 <= q < 0x1_0000_0000,
                forall|j: int, ii: int| 0 <= j < 128 && 0 <= ii < 128 ==> #[trigger] a@[j][ii] < q,
                forall|j: int, ii: int| 0 <= j < 128 && 0 <= ii < 128 ==> #[trigger] b@[j][ii] < q,
                am == int_matrix(a@),
                bm == int_matrix(b@),
                i < 128,
                k <= 128,
                forall|ii: int, kk: int|
                    0 <= ii < i && 0 <= kk < 128 ==> #[trigger] linear_form(am[ii], matrix_column(bm, kk), 128) % (
                    q as int) == (if ii == kk { c as int } else { 0int }) % (q as int),
                forall|kk: int|
                    0 <= kk < k ==> #[trigger] linear_form(am[i as int], matrix_column(bm, kk), 128) % (q as int) == (
                    if i == kk { c as int } else { 0int }) % (q as int),
            decreases 128 - k,
        {
            let mut acc: u128 = 0;
            let mut j: usize = 0;
            while j < 128
                invariant
                    a.len() == 128,
                    b.len() == 128,
                    q < 0x1_0000_0000,
                    forall|jj: int, ii: int| 0 <= jj < 128 && 0 <= ii < 128 ==> #[trigger] a@[jj][ii] < q,
                    forall|jj: int, ii: int| 0 <= jj < 128 && 0 <= ii < 128 ==> #[trigger] b@[jj][ii] < q,
                    am == int_matrix(a@),
                    bm == int_matrix(b@),
                    i < 128,
                    k < 128,
                    j <= 128,
                    acc as int == linear_form(am[i as int], matrix_column(bm, k as int), j as int),
                    acc <= j * 0x1_0000_0000_0000_0000u128,
                decreases 128 - j,
            {
                let x = a[i][j];
                let y = b[j][k];
                assert(x < 0x1_0000_0000 && y < 0x1_0000_0000);
                assert((x as u128) * (y as u128) <= 0x1_0000_0000_0000_0000u128) by (nonlinear_arith)
                    requires
                        x < 0x1_0000_0000,
                        y < 0x1_0000_0000,
                ;
                assert(am[i as int][j as int] == x as int);
                assert(matrix_column(bm, k as int)[j as int] == y as int);
                acc = acc + (x as u128) * (y as u128);
                j = j + 1;
            }
            let target: u64 = if i == k { c % q } else { 0 };
            let got = (acc % (q as u128)) as u64;
            proof {
                vstd::arithmetic::div_mod::lemma_mod_twice(c as int, q as int);
                vstd::arithmetic::div_mod::lemma_small_mod(0, q as nat);
                vstd::arithmetic::div_mod::lemma_mod_bound(c as int, q as int);
            }
            if got != target {
                return false;
            }
            k = k + 1;
        }
        i = i + 1;
    }
    true
}

/// Whether `d` is no square modulo `q`.
fn has_no_square_root(q: u64, d: u64) -> (r: bool)
    requires
        2 <= q < 0x1_0000_0000,
    ensures
        r == forall|c: int| 0 <= c < q ==> #[trigger] ((c * c) % (q as int)) != d,
{
    let mut c: u64 = 0;
    while c < q
        invariant
            2 <= q < 0x1_0000_0000,
            c <= q,
            forall|x: int| 0 <= x < c ==> #[trigger] ((x * x) % (q as int)) != d,
        decreases q - c,
    {
        assert(c * c < 0x1_0000_0000_0000_0000) by (nonlinear_arith)
            requires
                c < 0x1_0000_0000,
        ;
        if (c * c) % q == d {
            assert(((c as int) * (c as int)) % (q as int) == d);
            return false;
        }
        c = c + 1;
    }
    true
}

/// The evaluation matrix of the slot rows, as residues.
fn evaluation_rows(field: &Field, powers: &Vec<[Fq2; 128]>) -> (e: Vec<[u64; 128]>)
    requires
        powers.len() == 64,
        forall|k: int, j: int| 0 <= k < 64 && 0 <= j < 128 ==> valid(*field, #[trigger] powers[k][j]),
    ensures
        e.len() == 128,
        forall|i: int, j: int| 0 <= i < 128 && 0 <= j < 128 ==> #[trigger] e@[i][j] < field.q,
        int_matrix(e@) == evaluation_matrix(slot_rows(powers@)),
{
    let ghost rows = slot_rows(powers@);
    let mut e: Vec<[u64; 128]> = Vec::new();
    let mut i: usize = 0;
    while i < 128
        invariant
            powers.len() == 64,
            forall|k: int, j: int| 0 <= k < 64 && 0 <= j < 128 ==> valid(*field, #[trigger] powers[k][j]),
            rows == slot_rows(powers@),
            i <= 128,
            e.len() == i,
            forall|ii: int, j: int| 0 <= ii < i && 0 <= j < 128 ==> #[trigger] e@[ii][j] < field.q,
            forall|ii: int, j: int|
                0 <= ii < i && 0 <= j < 128 ==> #[trigger] e@[ii][j] as int == evaluation_matrix(rows)[ii][j],
        decreases 128 - i,
    {
        let k = i / 2;
        let mut line = [0u64; 128];
        let mut j: usize = 0;
        while j < 128
            invariant
                powers.len() == 64,
                forall|kk: int, jj: int|
                    0 <= kk < 64 && 0 <= jj < 128 ==> valid(*field, #[trigger] powers[kk][jj]),
                i < 128,
                k == i / 2,
                j <= 128,
                forall|jj: int| 0 <= jj < j ==> #[trigger] line[jj] < field.q,
                forall|jj: int|
                    0 <= jj < j ==> #[trigger] line[jj] == (if i % 2 == 0 {
                        powers[k as int][jj].a
                    } else {
                        powers[k as int][jj].b
                    }),
            decreases 128 - j,
        {
            let x = powers[k][j];
            assert(valid(*field, powers[k as int][j as int]));
            line[j] = if i % 2 == 0 { x.a } else { x.b };
            j = j + 1;
        }
        proof {
            assert forall|jj: int| 0 <= jj < 128 implies #[trigger] line[jj] as int == evaluation_matrix(rows)[i as int][jj] by {
                assert(rows[k as int] == powers@[k as int]@);
            }
        }
        e.push(line);
        i = i + 1;
    }
    proof {
        assert forall|ii: int| 0 <= ii < 128 implies #[trigger] int_matrix(e@)[ii] =~= evaluation_matrix(rows)[ii] by {
            assert forall|j: int| 0 <= j < 128 implies #[trigger] int_matrix(e@)[ii][j] == evaluation_matrix(rows)[ii][j] by {
                assert(e@[ii][j] as int == evaluation_matrix(rows)[ii][j]);
            }
        }
        assert(int_matrix(e@) =~= evaluation_matrix(rows));
    }
    e
}

/// The interpolation matrix of the slot rows, as residues.
fn interpolation_rows(field: &Field, powers: &Vec<[Fq2; 128]>) -> (t: Vec<[u64; 128]>)
    requires
        field_wf(*field),
        field.q < 0x1_0000_0000,
        powers.len() == 64,
        forall|k: int, j: int| 0 <= k < 64 && 0 <= j < 128 ==> valid(*field, #[trigger] powers[k][j]),
    ensures
        t.len() == 128,
        forall|i: int, j: int| 0 <= i < 128 && 0 <= j < 128 ==> #[trigger] t@[i][j] < field.q,
        int_matrix(t@) == interpolation_matrix(*field, slot_rows(powers@)),
{
    let ghost rows = slot_rows(powers@);
    let q = field.q;
    let d = field.nonsquare;
    let mut t: Vec<[u64; 128]> = Vec::new();
    let mut j: usize = 0;
    while j < 128
        invariant
            field_wf(*field),
            field.q < 0x1_0000_0000,
            q == field.q,
            d == field.nonsquare,
            powers.len() == 64,
            forall|k: int, jj: int| 0 <= k < 64 && 0 <= jj < 128 ==> valid(*field, #[trigger] powers[k][jj]),
            rows == slot_rows(powers@),
            j <= 128,
            t.len() == j,
            forall|jj: int, i: int| 0 <= jj < j && 0 <= i < 128 ==> #[trigger] t@[jj][i] < q,
            forall|jj: int, i: int|
                0 <= jj < j && 0 <= i < 128 ==> #[trigger] t@[jj][i] as int == interpolation_entry(*field, rows, jj, i),
        decreases 128 - j,
    {
        let mut line = [0u64; 128];
        let mut i: usize = 0;
        while i < 128
            invariant
                field_wf(*field),
                field.q < 0x1_0000_0000,
                q == field.q,
                d == field.nonsquare,
                powers.len() == 64,
                forall|k: int, jj: int|
                    0 <= k < 64 && 0 <= jj < 128 ==> valid(*field, #[trigger] powers[k][jj]),
                rows == slot_rows(powers@),
                j < 128,
                i <= 128,
                forall|ii: int| 0 <= ii < i ==> #[trigger] line[ii] < q,
                forall|ii: int| 0 <= ii < i ==> #[trigger] line[ii] as int == interpolation_entry(*field, rows, j as int, ii),
            decreases 128 - i,
        {
            let k = i / 2;
            let src = if j == 0 { 0 } else { 128 - j };
            let x = powers[k][src];
            assert(valid(*field, powers[k as int][src as int]));
            let za: u64 = if j == 0 { x.a } else { (q - x.a) % q };
            let zb: u64 = if j == 0 { x.b } else { (q - x.b) % q };
            let entry: u64 = if i % 2 == 0 {
                za
            } else {
                assert(d * zb < 0x1_0000_0000_0000_0000) by (nonlinear_arith)
                    requires
                        d < 0x1_0000_0000,
                        zb < 0x1_0000_0000,
                ;
                (d * zb) % q
            };
            proof {
                assert(rows[k as int] == powers@[k as int]@);
                assert(entry as int == interpolation_entry(*field, rows, j as int, i as int));
            }
            line[i] = entry;
            i = i + 1;
        }
        t.push(line);
        j = j + 1;
    }
    proof {
        assert forall|jj: int| 0 <= jj < 128 implies #[trigger] int_matrix(t@)[jj] =~= interpolation_matrix(
            *field,
            rows,
        )[jj] by {
            assert forall|i: int| 0 <= i < 128 implies #[trigger] int_matrix(t@)[jj][i] == interpolation_matrix(
                *field,
                rows,
            )[jj][i] by {
                assert(t@[jj][i] as int == interpolation_entry(*field, rows, jj, i));
            }
        }
        assert(int_matrix(t@) =~= interpolation_matrix(*field, rows));
    }
    t
}

/// Checks the slot certificate of the rows: `d` is no square, and the
/// interpolation matrix inverts the evaluation matrix up to the factor 64.
fn certificate_check(field: &Field, powers: &Vec<[Fq2; 128]>) -> (r: bool)
    requires
        field_wf(*field),
        field.q < 0x1_0000_0000,
        powers.len() == 64,
        forall|k: int, j: int| 0 <= k < 64 && 0 <= j < 128 ==> valid(*field, #[trigger] powers[k][j]),
    ensures
        r == certificate_passes(*field, slot_rows(powers@)),
{
    if !has_no_square_root(field.q, field.nonsquare) {
        return false;
    }
    let e = evaluation_rows(field, powers);
    let t = interpolation_rows(field, powers);
    let forward = scalar_product_holds(&t, &e, field.q, 64);
    let backward = scalar_product_holds(&e, &t, field.q, 64);
    forward && backward
}

/// A primitive 256th root raised to an odd power is again one.
proof fn lemma_odd_power_of_root(f: Field, alpha: Fq2, k: nat)
    requires
        f.q > 1,
        spec_pow(f, alpha, 128) == minus_one(f),
    ensures
        spec_pow(f, spec_pow(f, alpha, 2 * k + 1), 128) == minus_one(f),
{
    lemma_pow_mul(f, alpha, 2 * k + 1, 128);
    lemma_pow_mul(f, alpha, 128, 2 * k + 1);
    assert((2 * k + 1) * 128 == 128 * (2 * k + 1)) by (nonlinear_arith);
    lemma_minus_one_odd_power(f, k);
}

/// Every slot root has order dividing 256: a root whose 128th power is `-1`
/// has 256th power `1`.
pub proof fn lemma_slot_root_order(f: Field, root: Fq2)
    requires
        f.q > 1,
        spec_pow(f, root, 128) == minus_one(f),
    ensures
        spec_pow(f, root, 256) == fq2_one(),
{
    lemma_pow_add(f, root, 128, 128);
    lemma_minus_one_squared(f);
}

impl SlotSystem {
    /// Builds the slot system for `q`. Before it returns the system it checks
    /// the certificate (`d` is no square, and the interpolation matrix of
    /// the slot rows inverts their evaluation matrix up to 64) under which
    /// the slot test decides exactly which challenge differences are units.
    pub fn new(q: u64) -> (r: Result<SlotSystem, SlotError>)
        requires
            q < 0x1_0000_0000,
        ensures
            r == Err::<SlotSystem, SlotError>(SlotError::NotPrime) <==> !spec_is_prime(q as nat),
            r == Err::<SlotSystem, SlotError>(SlotError::OrderNotTwo) <==> spec_is_prime(q as nat)
                && !order_is_two(q),
            r == Err::<SlotSystem, SlotError>(SlotError::NoNonResidue) <==> spec_is_prime(q as nat)
                && order_is_two(q) && !has_nonresidue(q),
            r == Err::<SlotSystem, SlotError>(SlotError::NoPrimitiveRoot) <==> spec_is_prime(
                q as nat,
            ) && order_is_two(q) && has_nonresidue(q) && forall|f: Field|
                f.q == q && #[trigger] is_least_nonresidue(q, f.nonsquare) ==> !has_root_candidate(f),
            r == Err::<SlotSystem, SlotError>(SlotError::RepresentativeCount) <==> spec_is_prime(
                q as nat,
            ) && order_is_two(q) && has_nonresidue(q) && (exists|f: Field|
                f.q == q && #[trigger] is_least_nonresidue(q, f.nonsquare) && has_root_candidate(f))
                && forall|f: Field, alpha: Fq2|
                f.q == q && #[trigger] is_least_nonresidue(q, f.nonsquare) && #[trigger] is_least_root(f, alpha)
                    ==> orbit_leaders(f, slot_roots(f, alpha), 128).len() != 64,
            r == Err::<SlotSystem, SlotError>(SlotError::CertificateFailed) <==> spec_is_prime(
                q as nat,
            ) && order_is_two(q) && has_nonresidue(q) && (exists|f: Field|
                f.q == q && #[trigger] is_least_nonresidue(q, f.nonsquare) && has_root_candidate(f))
                && forall|f: Field, alpha: Fq2|
                f.q == q && #[trigger] is_least_nonresidue(q, f.nonsquare) && #[trigger] is_least_root(f, alpha)
                    ==> orbit_leaders(f, slot_roots(f, alpha), 128).len() == 64 && !certificate_passes(
                    f,
                    leader_rows(f, alpha),
                ),
            r matches Ok(s) ==> {
                &&& s.field.q == q
                &&& is_least_nonresidue(q, s.field.nonsquare)
                &&& has_root_candidate(s.field)
                &&& slots_wf(&s)
                &&& slot_rows_correct(&s)
                &&& slots_certified(&s)
                &&& exists|alpha: Fq2|
                    #[trigger] is_least_root(s.field, alpha) && orbit_leaders(s.field, slot_roots(s.field, alpha), 128).len()
                        == 64 && forall|k: int|
                        0 <= k < 64 ==> #[trigger] s.powers[k][1] == orbit_leaders(
                            s.field,
                            slot_roots(s.field, alpha),
                            128,
                        )[k]
            },
    {
        if !is_prime(q) {
            return Err(SlotError::NotPrime);
        }
        match multiplicative_order_mod(q % 256, 256) {
            Some(o) => {
                if o != 2 {
                    proof {
                        if order_is_two(q) {
                            assert(order_hit((q % 256) as u64, 256, 2nat));
                        }
                    }
                    return Err(SlotError::OrderNotTwo);
                }
            },
            None => {
                proof {
                    if order_is_two(q) {
                        assert(order_hit((q % 256) as u64, 256, 2nat));
                    }
                }
                return Err(SlotError::OrderNotTwo);
            },
        }
        let field = match field_new(q) {
            Some(f) => f,
            None => {
                return Err(SlotError::NoNonResidue);
            },
        };
        let ghost f = field;
        proof {
            assert forall|g: Field|
                g.q == q && #[trigger] is_least_nonresidue(q, g.nonsquare) implies g == f by {
                if g.nonsquare < f.nonsquare {
                    assert(!is_nonresidue(q, g.nonsquare));
                }
                if f.nonsquare < g.nonsquare {
                    assert(!is_nonresidue(q, f.nonsquare));
                }
            }
        }
        let alpha = match primitive_256th_root(&field) {
            Some(a) => a,
            None => {
                proof {
                    if has_root_candidate(f) {
                        let (a, b) = choose|a: u64, b: u64|
                            1 <= b < f.q && a < f.q && #[trigger] root_candidate_hits(f, Fq2 { a, b });
                        assert(!root_candidate_hits(f, Fq2 { a, b }));
                    }
                    assert(!(exists|g: Field|
                        g.q == q && #[trigger] is_least_nonresidue(q, g.nonsquare) && has_root_candidate(g)));
                }
                return Err(SlotError::NoPrimitiveRoot);
            },
        };
        proof {
            let (a, b) = choose|a: u64, b: u64|
                #![trigger root_candidate_hits(field, Fq2 { a, b })]
                {
                    &&& 1 <= b < field.q
                    &&& a < field.q
                    &&& alpha == spec_pow(
                        field,
                        Fq2 { a, b },
                        ((field.q * field.q - 1) / 256) as nat,
                    )
                    &&& root_candidate_hits(field, Fq2 { a, b })
                    &&& forall|a2: u64, b2: u64|
                        1 <= b2 && a2 < field.q && #[trigger] candidate_before(a2, b2, a, b)
                            ==> !root_candidate_hits(field, Fq2 { a: a2, b: b2 })
                };
            assert(root_candidate_hits(f, Fq2 { a, b }));
            assert(has_root_candidate(f));
            assert(is_least_nonresidue(q, f.nonsquare));
            assert(is_least_root(f, alpha));
        }
        let mut roots: Vec<Fq2> = Vec::new();
        let mut k: usize = 0;
        while k < 128
            invariant
                f == field,
                field_wf(f),
                f.q < 0x1_0000_0000,
                valid(f, alpha),
                spec_pow(f, alpha, 128) == minus_one(f),
                k <= 128,
                roots.len() == k,
                forall|t: int|
                    0 <= t < k ==> #[trigger] roots[t] == spec_pow(f, alpha, (2 * t + 1) as nat),
                forall|t: int| 0 <= t < k ==> valid(f, #[trigger] roots[t]),
                forall|t: int|
                    0 <= t < k ==> spec_pow(f, #[trigger] roots[t], 128) == minus_one(f),
            decreases 128 - k,
        {
            let root = field.pow(alpha, (2 * k + 1) as u64);
            proof {
                lemma_odd_power_of_root(f, alpha, k as nat);
            }
            roots.push(root);
            k = k + 1;
        }
        let mut used: Vec<bool> = Vec::new();
        let mut t: usize = 0;
        while t < 128
            invariant
                t <= 128,
                used.len() == t,
                forall|j: int| 0 <= j < t ==> !#[trigger] used[j],
            decreases 128 - t,
        {
            used.push(false);
            t = t + 1;
        }
        let mut representatives: Vec<Fq2> = Vec::new();
        proof {
            assert(roots@ =~= slot_roots(f, alpha));
        }
        let ghost mut rep_idx: Seq<int> = Seq::empty();
        let mut i: usize = 0;
        while i < 128
            invariant
                f == field,
                field_wf(f),
                roots.len() == 128,
                used.len() == 128,
                i <= 128,
                representatives.len() <= i,
                roots@ == slot_roots(f, alpha),
                representatives@ == orbit_leaders(f, roots@, i as int),
                rep_idx.len() == representatives.len(),
                forall|t: int|
                    0 <= t < rep_idx.len() ==> 0 <= #[trigger] rep_idx[t] < i && representatives[t]
                        == roots[rep_idx[t]],
                forall|j: int| 0 <= j < i ==> #[trigger] used[j],
                forall|j: int|
                    0 <= j < 128 && #[trigger] used[j] ==> exists|t: int|
                        0 <= t < representatives.len() && (roots[j] == #[trigger] representatives[t]
                            || roots[j] == spec_frobenius(f, representatives[t])),
                forall|t: int| 0 <= t < 128 ==> valid(f, #[trigger] roots[t]),
                forall|t: int|
                    0 <= t < 128 ==> spec_pow(f, #[trigger] roots[t], 128) == minus_one(f),
                forall|t: int| 0 <= t < representatives.len() ==> valid(f, #[trigger] representatives[t]),
                forall|t: int|
                    0 <= t < representatives.len() ==> spec_pow(f, #[trigger] representatives[t], 128)
                        == minus_one(f),
                forall|j: int, t: int|
                    0 <= j < 128 && 0 <= t < representatives.len() && (#[trigger] roots[j]
                        == #[trigger] representatives[t] || roots[j] == spec_frobenius(
                        f,
                        representatives[t],
                    )) ==> used[j],
                forall|t1: int, t2: int|
                    0 <= t1 < representatives.len() && 0 <= t2 < representatives.len() && t1 != t2
                        ==> #[trigger] representatives[t1] != #[trigger] representatives[t2]
                        && representatives[t1] != spec_frobenius(f, representatives[t2]),
            decreases 128 - i,
        {
            if used[i] {
                proof {
                    let t = choose|t: int|
                        0 <= t < representatives.len() && (roots[i as int] == #[trigger] representatives[t]
                            || roots[i as int] == spec_frobenius(f, representatives[t]));
                    let j = rep_idx[t];
                    lemma_frobenius_involution(f, representatives[t]);
                    assert(roots[j] == roots[i as int] || roots[j] == spec_frobenius(f, roots[i as int]));
                    assert(!leads_orbit(f, roots@, i as int));
                    assert(orbit_leaders(f, roots@, i + 1) == orbit_leaders(f, roots@, i as int));
                }
                i = i + 1;
                continue;
            }
            let root = roots[i];
            let conjugate = field.frobenius(root);
            proof {
                assert(leads_orbit(f, roots@, i as int)) by {
                    assert forall|j: int| 0 <= j < i implies #[trigger] roots[j] != roots[i as int] && roots[j]
                        != spec_frobenius(f, roots[i as int]) by {
                        if roots[j] == roots[i as int] || roots[j] == spec_frobenius(f, roots[i as int]) {
                            assert(used[j]);
                            let t = choose|t: int|
                                0 <= t < representatives.len() && (roots[j] == #[trigger] representatives[t]
                                    || roots[j] == spec_frobenius(f, representatives[t]));
                            lemma_frobenius_involution(f, representatives[t]);
                            lemma_frobenius_involution(f, roots[i as int]);
                            assert(roots[i as int] == representatives[t] || roots[i as int] == spec_frobenius(
                                f,
                                representatives[t],
                            ));
                            assert(used[i as int]);
                        }
                    }
                }
                lemma_frobenius_involution(f, root);
                assert forall|t: int| 0 <= t < representatives.len() implies root
                    != #[trigger] representatives[t] && root != spec_frobenius(f, representatives[t])
                    && representatives[t] != spec_frobenius(f, root) by {
                    if representatives[t] == spec_frobenius(f, root) {
                        lemma_frobenius_involution(f, root);
                    }
                }
            }
            let ghost before_reps = representatives@;
            representatives.push(root);
            proof {
                assert(representatives@ == orbit_leaders(f, roots@, i + 1));
                rep_idx = rep_idx.push(i as int);
                assert forall|jj: int| 0 <= jj < 128 && #[trigger] used[jj] implies exists|t: int|
                    0 <= t < representatives.len() && (roots[jj] == #[trigger] representatives[t] || roots[jj]
                        == spec_frobenius(f, representatives[t])) by {
                    let t = choose|t: int|
                        0 <= t < before_reps.len() && (roots[jj] == #[trigger] before_reps[t] || roots[jj]
                            == spec_frobenius(f, before_reps[t]));
                    assert(representatives[t] == before_reps[t]);
                }
            }
            let mut j: usize = 0;
            while j < 128
                invariant
                    f == field,
                    field_wf(f),
                    roots.len() == 128,
                    used.len() == 128,
                    conjugate == spec_frobenius(f, root),
                    j <= 128,
                    i < 128,
                    root == roots[i as int],
                    roots@ == slot_roots(f, alpha),
                    representatives@ == orbit_leaders(f, roots@, i + 1),
                    rep_idx.len() == representatives.len(),
                    forall|t: int|
                        0 <= t < rep_idx.len() ==> 0 <= #[trigger] rep_idx[t] < i + 1 && representatives[t]
                            == roots[rep_idx[t]],
                    forall|jj: int| 0 <= jj < i ==> #[trigger] used[jj],
                    forall|jj: int|
                        0 <= jj < 128 && #[trigger] used[jj] ==> exists|t: int|
                            0 <= t < representatives.len() && (roots[jj] == #[trigger] representatives[t]
                                || roots[jj] == spec_frobenius(f, representatives[t])),
                    forall|t: int, jj: int|
                        0 <= jj < 128 && 0 <= t < representatives.len() - 1 && (#[trigger] roots[jj]
                            == #[trigger] representatives[t] || roots[jj] == spec_frobenius(
                            f,
                            representatives[t],
                        )) ==> used[jj],
                    representatives.len() >= 1,
                    representatives[representatives.len() - 1] == root,
                    forall|jj: int|
                        0 <= jj < j && (#[trigger] roots[jj] == root || roots[jj] == conjugate)
                            ==> used[jj],
                decreases 128 - j,
            {
                if roots[j] == root || roots[j] == conjugate {
                    used.set(j, true);
                    proof {
                        let last = representatives.len() - 1;
                        assert(representatives[last] == root);
                        assert(roots[j as int] == representatives[last] || roots[j as int] == spec_frobenius(
                            f,
                            representatives[last],
                        ));
                    }
                }
                j = j + 1;
            }
            proof {
                assert(roots[i as int] == root);
                assert(used[i as int]);
            }
            i = i + 1;
        }
        proof {
            assert forall|g: Field, beta: Fq2|
                g.q == q && #[trigger] is_least_nonresidue(q, g.nonsquare) && #[trigger] is_least_root(g, beta)
                    implies g == f && beta == alpha by {
                assert(g == f);
                lemma_least_root_unique(f, alpha, beta);
            }
            assert(representatives@ == orbit_leaders(f, slot_roots(f, alpha), 128));
        }
        if representatives.len() != 64 {
            return Err(SlotError::RepresentativeCount);
        }
        let mut powers: Vec<[Fq2; 128]> = Vec::new();
        let mut s: usize = 0;
        while s < 64
            invariant
                f == field,
                field_wf(f),
                f.q < 0x1_0000_0000,
                representatives.len() == 64,
                forall|t: int| 0 <= t < 64 ==> valid(f, #[trigger] representatives[t]),
                s <= 64,
                powers.len() == s,
                forall|kk: int, jj: int|
                    0 <= kk < s && 0 <= jj < 128 ==> #[trigger] powers[kk][jj] == spec_pow(
                        f,
                        representatives[kk],
                        jj as nat,
                    ),
            decreases 64 - s,
        {
            let root = representatives[s];
            let mut row = [Fq2 { a: 0, b: 0 }; 128];
            row[0] = Fq2::one();
            let mut j: usize = 1;
            while j < 128
                invariant
                    f == field,
                    field_wf(f),
                    valid(f, root),
                    1 <= j <= 128,
                    forall|jj: int| 0 <= jj < j ==> #[trigger] row[jj] == spec_pow(f, root, jj as nat),
                decreases 128 - j,
            {
                proof {
                    lemma_pow_valid(f, root, (j - 1) as nat);
                    lemma_mul_commutative(f, spec_pow(f, root, (j - 1) as nat), root);
                }
                let next = field.mul(row[j - 1], root);
                row[j] = next;
                j = j + 1;
            }
            powers.push(row);
            s = s + 1;
        }
        let passes = certificate_check(&field, &powers);
        proof {
            assert forall|kk: int| 0 <= kk < 64 implies #[trigger] slot_rows(powers@)[kk] =~= leader_rows(f, alpha)[kk] by {
                assert forall|jj: int| 0 <= jj < 128 implies #[trigger] slot_rows(powers@)[kk][jj] == leader_rows(
                    f,
                    alpha,
                )[kk][jj] by {
                    assert(powers[kk][jj] == spec_pow(f, representatives[kk], jj as nat));
                }
            }
            assert(slot_rows(powers@) =~= leader_rows(f, alpha));
        }
        if !passes {
            return Err(SlotError::CertificateFailed);
        }
        let system = SlotSystem { field, powers };
        proof {
            assert forall|kk: int, jj: int|
                0 <= kk < 64 && 0 <= jj < 128 implies valid(f, #[trigger] system.powers[kk][jj]) by {
                lemma_pow_valid(f, representatives[kk], jj as nat);
            }
            assert forall|kk: int| 0 <= kk < 64 implies #[trigger] system.powers[kk][1]
                == representatives[kk] by {
                lemma_pow_one(f, representatives[kk]);
            }
        }
        Ok(system)
    }
}

} // verus!
