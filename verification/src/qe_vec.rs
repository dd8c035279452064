//! Vectors over the quadratic extension kept as two limb vectors (structure
//! of arrays): entry `i` is `limb0[i] + limb1[i] i`. The sumcheck stages
//! contract, expand and dot such vectors limb by limb.
use crate::ifma::{q, Q};
use crate::modq::{add_mod, eltwise_fma_mod, eltwise_mult_mod, multiply_mod};
use crate::qe::{
    lemma_qe_add_assoc, lemma_qe_add_pairs, lemma_qe_add_zero, lemma_qe_mul_distrib_left,
    lemma_qe_mul_distrib_right, lemma_qe_mul_one_minus, lemma_qe_mul_zero_one,
    lemma_qe_one_minus_plus, lemma_qe_pair, lemma_qe_zero_mul, qe_add, qe_mul, qe_one, qe_pair,
    qe_sub, qe_valid, qe_zero, QuadraticExtension,
};
use vstd::arithmetic::power2::{lemma_pow2_unfold, pow2};
use vstd::arithmetic::div_mod::*;
use vstd::prelude::*;

verus! {

/// A vector over the quadratic extension, one limb vector per coordinate.
pub struct QeVec {
    pub limb0: Vec<u64>,
    pub limb1: Vec<u64>,
}

/// The entry of a limb pair at `i`.
pub open spec fn qe_at(limb0: Seq<u64>, limb1: Seq<u64>, i: int) -> QuadraticExtension {
    QuadraticExtension { c0: limb0[i], c1: limb1[i] }
}

impl View for QeVec {
    type V = Seq<QuadraticExtension>;

    open spec fn view(&self) -> Seq<QuadraticExtension> {
        Seq::new(self.limb0.len() as nat, |i: int| qe_at(self.limb0@, self.limb1@, i))
    }
}

/// Both limbs have one entry per element.
pub open spec fn qe_vec_wf(v: &QeVec) -> bool {
    v.limb0.len() == v.limb1.len()
}

/// Every coordinate is a residue modulo `q`.
pub open spec fn qe_vec_valid(v: &QeVec) -> bool {
    &&& qe_vec_wf(v)
    &&& forall|i: int| 0 <= i < v.limb0.len() ==> #[trigger] v.limb0@[i] < Q
    &&& forall|i: int| 0 <= i < v.limb1.len() ==> #[trigger] v.limb1@[i] < Q
}

/// `sum_{i < n} a[i] b[i]` over the extension.
pub open spec fn qe_dot(s: u64, a: Seq<QuadraticExtension>, b: Seq<QuadraticExtension>, n: int) -> QuadraticExtension
    decreases n,
{
    if n <= 0 {
        qe_zero()
    } else {
        qe_add(qe_dot(s, a, b, n - 1), qe_mul(s, a[n - 1], b[n - 1]))
    }
}

/// The integer sums behind `qe_dot`: the first coordinate before reduction.
pub open spec fn dot_int0(s: u64, a: Seq<QuadraticExtension>, b: Seq<QuadraticExtension>, n: int) -> int
    decreases n,
{
    if n <= 0 {
        0
    } else {
        dot_int0(s, a, b, n - 1) + (a[n - 1].c0 * b[n - 1].c0 + s * (a[n - 1].c1 * b[n - 1].c1))
    }
}

/// The second coordinate of `qe_dot` before reduction.
pub open spec fn dot_int1(a: Seq<QuadraticExtension>, b: Seq<QuadraticExtension>, n: int) -> int
    decreases n,
{
    if n <= 0 {
        0
    } else {
        dot_int1(a, b, n - 1) + (a[n - 1].c0 * b[n - 1].c1 + a[n - 1].c1 * b[n - 1].c0)
    }
}

/// A dot product is the residue pair of its integer sums.
pub proof fn lemma_qe_dot_is_pair(s: u64, a: Seq<QuadraticExtension>, b: Seq<QuadraticExtension>, n: int)
    ensures
        qe_dot(s, a, b, n) == qe_pair(dot_int0(s, a, b, n), dot_int1(a, b, n)),
        qe_valid(qe_dot(s, a, b, n)),
    decreases n,
{
    if n <= 0 {
        lemma_small_mod(0, Q as nat);
        lemma_qe_pair(0, 0);
    } else {
        lemma_qe_dot_is_pair(s, a, b, n - 1);
        let x = a[n - 1];
        let y = b[n - 1];
        lemma_qe_add_pairs(
            dot_int0(s, a, b, n - 1),
            dot_int1(a, b, n - 1),
            x.c0 * y.c0 + s * (x.c1 * y.c1),
            x.c0 * y.c1 + x.c1 * y.c0,
        );
        lemma_qe_pair(dot_int0(s, a, b, n), dot_int1(a, b, n));
    }
}

impl QeVec {
    /// The number of elements.
    pub fn len(&self) -> (r: usize)
        ensures
            r == self.limb0.len(),
    {
        self.limb0.len()
    }

    /// Pairs two limb vectors of one length into a vector.
    pub fn from_limbs(limb0: Vec<u64>, limb1: Vec<u64>) -> (r: QeVec)
        requires
            limb0.len() == limb1.len(),
        ensures
            r.limb0@ == limb0@,
            r.limb1@ == limb1@,
            qe_vec_wf(&r),
    {
        QeVec { limb0, limb1 }
    }

    /// The element at `index`.
    pub fn get(&self, index: usize) -> (r: QuadraticExtension)
        requires
            qe_vec_wf(self),
            index < self.limb0.len(),
        ensures
            r == self@[index as int],
    {
        QuadraticExtension { c0: self.limb0[index], c1: self.limb1[index] }
    }

    /// The elements one by one.
    pub fn to_vec(&self) -> (r: Vec<QuadraticExtension>)
        requires
            qe_vec_wf(self),
        ensures
            r@ == self@,
    {
        let n = self.len();
        let mut out: Vec<QuadraticExtension> = Vec::new();
        let mut i: usize = 0;
        while i < n
            invariant
                qe_vec_wf(self),
                n == self.limb0.len(),
                i <= n,
                out@.len() == i,
                forall|j: int| 0 <= j < i ==> #[trigger] out@[j] == self@[j],
            decreases n - i,
        {
            out.push(self.get(i));
            i = i + 1;
        }
        assert(out@ =~= self@);
        out
    }
}

/// `sum_i a[i] b[i]` over the extension with shift factor `s`, over the
/// common prefix of the two slices.
pub fn dot_qe(a: &Vec<QuadraticExtension>, b: &Vec<QuadraticExtension>, s: u64) -> (r: QuadraticExtension)
    requires
        forall|i: int| 0 <= i < a.len() ==> qe_valid(#[trigger] a@[i]),
        forall|i: int| 0 <= i < b.len() ==> qe_valid(#[trigger] b@[i]),
    ensures
        r == qe_dot(s, a@, b@, if a.len() <= b.len() { a.len() as int } else { b.len() as int }),
        qe_valid(r),
{
    let n = if a.len() <= b.len() {
        a.len()
    } else {
        b.len()
    };
    let mut acc = QuadraticExtension::zero();
    let mut i: usize = 0;
    while i < n
        invariant
            n <= a.len(),
            n <= b.len(),
            forall|j: int| 0 <= j < a.len() ==> qe_valid(#[trigger] a@[j]),
            forall|j: int| 0 <= j < b.len() ==> qe_valid(#[trigger] b@[j]),
            i <= n,
            acc == qe_dot(s, a@, b@, i as int),
            qe_valid(acc),
        decreases n - i,
    {
        let tmp = a[i].mul(b[i], s);
        acc = acc.add(tmp);
        i = i + 1;
    }
    acc
}

/// `sum_{i < n} v[i]`.
pub open spec fn seq_sum(v: Seq<u64>, n: int) -> int
    decreases n,
{
    if n <= 0 {
        0
    } else {
        seq_sum(v, n - 1) + v[n - 1]
    }
}

/// `sum_{i < n} a[i] b[i]` over the integers.
pub open spec fn prod_sum(a: Seq<u64>, b: Seq<u64>, n: int) -> int
    decreases n,
{
    if n <= 0 {
        0
    } else {
        prod_sum(a, b, n - 1) + a[n - 1] * b[n - 1]
    }
}

/// Summing the residues of the products gives the residue of the sum.
proof fn lemma_sum_of_residues(p: Seq<u64>, a: Seq<u64>, b: Seq<u64>, n: int)
    requires
        0 <= n <= p.len(),
        forall|i: int| 0 <= i < n ==> #[trigger] p[i] as int == (a[i] * b[i]) % q(),
    ensures
        seq_sum(p, n) % q() == prod_sum(a, b, n) % q(),
    decreases n,
{
    if n > 0 {
        lemma_sum_of_residues(p, a, b, n - 1);
        lemma_add_mod_noop(seq_sum(p, n - 1), p[n - 1] as int, q());
        lemma_add_mod_noop(prod_sum(a, b, n - 1), a[n - 1] * b[n - 1], q());
        lemma_mod_twice(a[n - 1] * b[n - 1], q());
    }
}

/// The dot product's integer sums split into limb sums.
proof fn lemma_dot_ints_are_limb_sums(s: u64, x: &QeVec, y: &QeVec, n: int)
    requires
        qe_vec_wf(x),
        qe_vec_wf(y),
        0 <= n <= x.limb0.len(),
        n <= y.limb0.len(),
    ensures
        dot_int0(s, x@, y@, n) == prod_sum(x.limb0@, y.limb0@, n) + s * prod_sum(
            x.limb1@,
            y.limb1@,
            n,
        ),
        dot_int1(x@, y@, n) == prod_sum(x.limb0@, y.limb1@, n) + prod_sum(x.limb1@, y.limb0@, n),
    decreases n,
{
    if n > 0 {
        lemma_dot_ints_are_limb_sums(s, x, y, n - 1);
        let i = n - 1;
        assert(x@[i] == qe_at(x.limb0@, x.limb1@, i));
        assert(y@[i] == qe_at(y.limb0@, y.limb1@, i));
        vstd::arithmetic::mul::lemma_mul_is_distributive_add(
            s as int,
            prod_sum(x.limb1@, y.limb1@, n - 1),
            x.limb1@[i] * y.limb1@[i],
        );
    }
}

/// `(sum_i values[i]) mod q`, summing chunks of 4096 residues without
/// reduction and reducing each chunk sum once.
pub fn lazy_sum_mod(values: &Vec<u64>) -> (r: u64)
    requires
        forall|i: int| 0 <= i < values.len() ==> #[trigger] values@[i] < Q,
    ensures
        r as int == seq_sum(values@, values.len() as int) % q(),
        r < Q,
{
    let n = values.len();
    let mut acc: u64 = 0;
    let mut start: usize = 0;
    proof {
        lemma_small_mod(0, Q as nat);
    }
    while start < n
        invariant
            n == values.len(),
            forall|i: int| 0 <= i < values.len() ==> #[trigger] values@[i] < Q,
            start <= n,
            acc < Q,
            acc as int == seq_sum(values@, start as int) % q(),
        decreases n - start,
    {
        let end = if n - start > 4096 {
            start + 4096
        } else {
            n
        };
        let mut partial: u64 = 0;
        let mut i: usize = start;
        while i < end
            invariant
                n == values.len(),
                forall|j: int| 0 <= j < values.len() ==> #[trigger] values@[j] < Q,
                start <= i <= end,
                end <= n,
                end - start <= 4096,
                partial as int == seq_sum(values@, i as int) - seq_sum(values@, start as int),
                partial <= (i - start) * Q,
            decreases end - i,
        {
            partial = partial + values[i];
            i = i + 1;
        }
        let reduced = partial % Q;
        proof {
            lemma_add_mod_noop(seq_sum(values@, start as int), partial as int, q());
            lemma_mod_twice(partial as int, q());
            lemma_small_mod(acc as nat, Q as nat);
        }
        acc = add_mod(acc, reduced, Q);
        start = end;
    }
    acc
}

impl QeVec {
    /// `sum_i self[i] other[i]` with shift factor `s`: four limb products,
    /// each summed lazily, then combined.
    pub fn dot(&self, other: &QeVec, s: u64) -> (r: QuadraticExtension)
        requires
            qe_vec_wf(self),
            qe_vec_wf(other),
            self.limb0.len() == other.limb0.len(),
        ensures
            r == qe_dot(s, self@, other@, self.limb0.len() as int),
            qe_valid(r),
    {
        let n = self.len();
        let mut products: Vec<u64> = Vec::new();
        let mut k: usize = 0;
        while k < n
            invariant
                k <= n,
                products.len() == k,
            decreases n - k,
        {
            products.push(0);
            k = k + 1;
        }
        eltwise_mult_mod(&mut products, &self.limb0, &other.limb0, Q);
        proof {
            lemma_sum_of_residues(products@, self.limb0@, other.limb0@, n as int);
        }
        let s00 = lazy_sum_mod(&products);
        eltwise_mult_mod(&mut products, &self.limb1, &other.limb1, Q);
        proof {
            lemma_sum_of_residues(products@, self.limb1@, other.limb1@, n as int);
        }
        let s11 = lazy_sum_mod(&products);
        eltwise_mult_mod(&mut products, &self.limb0, &other.limb1, Q);
        proof {
            lemma_sum_of_residues(products@, self.limb0@, other.limb1@, n as int);
        }
        let s01 = lazy_sum_mod(&products);
        eltwise_mult_mod(&mut products, &self.limb1, &other.limb0, Q);
        proof {
            lemma_sum_of_residues(products@, self.limb1@, other.limb0@, n as int);
        }
        let s10 = lazy_sum_mod(&products);
        let shifted = multiply_mod(s, s11, Q);
        let c0 = add_mod(s00, shifted, Q);
        let c1 = add_mod(s01, s10, Q);
        proof {
            let p00 = prod_sum(self.limb0@, other.limb0@, n as int);
            let p11 = prod_sum(self.limb1@, other.limb1@, n as int);
            let p01 = prod_sum(self.limb0@, other.limb1@, n as int);
            let p10 = prod_sum(self.limb1@, other.limb0@, n as int);
            lemma_dot_ints_are_limb_sums(s, self, other, n as int);
            lemma_qe_dot_is_pair(s, self@, other@, n as int);
            lemma_mul_mod_noop_right(s as int, p11, q());
            lemma_add_mod_noop(p00, s * p11, q());
            lemma_add_mod_noop(p01, p10, q());
        }
        QuadraticExtension { c0, c1 }
    }
}

/// `sum_{t < n} w[t] v[t * len + x]`: entry `x` of the contraction of the
/// top index of `v` against the weights `w`.
pub open spec fn contract_entry(
    s: u64,
    w: Seq<QuadraticExtension>,
    v: Seq<QuadraticExtension>,
    len: int,
    x: int,
    n: int,
) -> QuadraticExtension
    decreases n,
{
    if n <= 0 {
        qe_zero()
    } else {
        qe_add(contract_entry(s, w, v, len, x, n - 1), qe_mul(s, w[n - 1], v[(n - 1) * len + x]))
    }
}

/// A vector of `n` zeros.
fn zeros(n: usize) -> (r: Vec<u64>)
    ensures
        r.len() == n,
        forall|i: int| 0 <= i < n ==> #[trigger] r@[i] == 0,
{
    let mut out: Vec<u64> = Vec::new();
    let mut k: usize = 0;
    while k < n
        invariant
            k <= n,
            out.len() == k,
            forall|i: int| 0 <= i < k ==> #[trigger] out@[i] == 0,
        decreases n - k,
    {
        out.push(0);
        k = k + 1;
    }
    out
}

impl QeVec {
    /// Contracts the top index: `out[x] = sum_t weights[t] self[t * len + x]`
    /// with `len = self.len() / weights.len()`.
    pub fn contract_top(&self, weights: &Vec<QuadraticExtension>, s: u64) -> (r: QeVec)
        requires
            qe_vec_valid(self),
            weights.len() > 0,
            self.limb0.len() % weights.len() == 0,
            forall|t: int| 0 <= t < weights.len() ==> qe_valid(#[trigger] weights@[t]),
        ensures
            qe_vec_valid(&r),
            r.limb0.len() == self.limb0.len() / weights.len(),
            forall|x: int|
                0 <= x < r.limb0.len() ==> #[trigger] r@[x] == contract_entry(
                    s,
                    weights@,
                    self@,
                    (self.limb0.len() / weights.len()) as int,
                    x,
                    weights.len() as int,
                ),
    {
        let wn = weights.len();
        let len = self.len() / wn;
        proof {
            lemma_fundamental_div_mod(self.limb0.len() as int, wn as int);
        }
        let mut limb0 = zeros(len);
        let mut limb1 = zeros(len);
        proof {
            assert forall|x: int| 0 <= x < len implies qe_at(limb0@, limb1@, x) == contract_entry(
                s,
                weights@,
                self@,
                len as int,
                x,
                0,
            ) by {}
        }
        let mut t: usize = 0;
        while t < wn
            invariant
                qe_vec_valid(self),
                wn == weights.len(),
                wn * len == self.limb0.len(),
                len == self.limb0.len() / weights.len(),
                forall|j: int| 0 <= j < weights.len() ==> qe_valid(#[trigger] weights@[j]),
                t <= wn,
                limb0.len() == len,
                limb1.len() == len,
                forall|x: int| 0 <= x < len ==> #[trigger] limb0@[x] < Q,
                forall|x: int| 0 <= x < len ==> #[trigger] limb1@[x] < Q,
                forall|x: int|
                    0 <= x < len ==> #[trigger] qe_at(limb0@, limb1@, x) == contract_entry(
                        s,
                        weights@,
                        self@,
                        len as int,
                        x,
                        t as int,
                    ),
            decreases wn - t,
        {
            let w = weights[t];
            assert((t + 1) * len <= wn * len) by (nonlinear_arith)
                requires
                    t < wn,
            ;
            assert(t * len + len == (t + 1) * len) by (nonlinear_arith);
            let base = t * len;
            let mut x: usize = 0;
            while x < len
                invariant
                    qe_vec_valid(self),
                    wn == weights.len(),
                    wn * len == self.limb0.len(),
                    t < wn,
                    base == t * len,
                    base + len <= self.limb0.len(),
                    w == weights@[t as int],
                    qe_valid(w),
                    x <= len,
                    limb0.len() == len,
                    limb1.len() == len,
                    forall|y: int| 0 <= y < len ==> #[trigger] limb0@[y] < Q,
                    forall|y: int| 0 <= y < len ==> #[trigger] limb1@[y] < Q,
                    forall|y: int|
                        0 <= y < x ==> #[trigger] qe_at(limb0@, limb1@, y) == contract_entry(
                            s,
                            weights@,
                            self@,
                            len as int,
                            y,
                            t + 1,
                        ),
                    forall|y: int|
                        x <= y < len ==> #[trigger] qe_at(limb0@, limb1@, y) == contract_entry(
                            s,
                            weights@,
                            self@,
                            len as int,
                            y,
                            t as int,
                        ),
                decreases len - x,
            {
                let v = QuadraticExtension { c0: self.limb0[base + x], c1: self.limb1[base + x] };
                let acc = QuadraticExtension { c0: limb0[x], c1: limb1[x] };
                assert(v == self@[base + x]);
                assert(acc == qe_at(limb0@, limb1@, x as int));
                let next = acc.add(w.mul(v, s));
                let ghost old0 = limb0@;
                let ghost old1 = limb1@;
                limb0.set(x, next.c0);
                limb1.set(x, next.c1);
                proof {
                    assert(qe_at(limb0@, limb1@, x as int) == next);
                    assert((t + 1 - 1) * len + x == base + x);
                    assert forall|y: int| 0 <= y < x + 1 implies #[trigger] qe_at(
                        limb0@,
                        limb1@,
                        y,
                    ) == contract_entry(s, weights@, self@, len as int, y, t + 1) by {
                        if y < x {
                            assert(qe_at(limb0@, limb1@, y) == qe_at(old0, old1, y));
                        }
                    }
                    assert forall|y: int| x + 1 <= y < len implies #[trigger] qe_at(
                        limb0@,
                        limb1@,
                        y,
                    ) == contract_entry(s, weights@, self@, len as int, y, t as int) by {
                        assert(qe_at(limb0@, limb1@, y) == qe_at(old0, old1, y));
                    }
                }
                x = x + 1;
            }
            t = t + 1;
        }
        let r = QeVec { limb0, limb1 };
        proof {
            assert forall|x: int| 0 <= x < r.limb0.len() implies #[trigger] r@[x] == contract_entry(
                s,
                weights@,
                self@,
                len as int,
                x,
                wn as int,
            ) by {
                assert(r@[x] == qe_at(r.limb0@, r.limb1@, x));
            }
        }
        r
    }
}

/// The eq weight of index `b` for the given layers, the first layer reading
/// the top bit of a `layers.len()`-bit index:
/// `prod_j (bit_j(b) ? layers[j] : 1 - layers[j])`.
pub open spec fn eq_entry(s: u64, layers: Seq<QuadraticExtension>, b: int) -> QuadraticExtension
    decreases layers.len(),
{
    if layers.len() == 0 {
        qe_one()
    } else {
        let half = pow2((layers.len() - 1) as nat) as int;
        let factor = if b >= half {
            layers[0]
        } else {
            qe_sub(qe_one(), layers[0])
        };
        qe_mul(s, eq_entry(s, layers.drop_first(), b % half), factor)
    }
}

/// Bit `e` of a non-negative integer `x`.
pub open spec fn bit_of(x: int, e: nat) -> bool {
    (x / pow2(e) as int) % 2 == 1
}

/// Factor `j` of the eq weight of index `b`: `layers[j]` when bit
/// `layers.len() - 1 - j` of `b` is set, else `1 - layers[j]`.
pub open spec fn eq_factor(layers: Seq<QuadraticExtension>, b: int, j: int) -> QuadraticExtension {
    if bit_of(b, (layers.len() - 1 - j) as nat) {
        layers[j]
    } else {
        qe_sub(qe_one(), layers[j])
    }
}

/// The product of the factors `j >= n` of index `b`, the factor of the
/// last layer innermost.
pub open spec fn eq_product(s: u64, layers: Seq<QuadraticExtension>, b: int, n: int) -> QuadraticExtension
    decreases layers.len() - n,
{
    if n >= layers.len() {
        qe_one()
    } else {
        qe_mul(s, eq_product(s, layers, b, n + 1), eq_factor(layers, b, n))
    }
}

/// Reducing `x` modulo `2^m` keeps its bits below `m`.
proof fn lemma_low_bits_keep_bit(x: int, m: nat, e: nat)
    requires
        0 <= x,
        e < m,
    ensures
        bit_of(x % pow2(m) as int, e) == bit_of(x, e),
{
    let pe = pow2(e) as int;
    let r = (m - e) as nat;
    let pr = pow2(r) as int;
    vstd::arithmetic::power2::lemma_pow2_pos(e);
    vstd::arithmetic::power2::lemma_pow2_pos(r);
    vstd::arithmetic::power2::lemma_pow2_adds(e, r);
    assert(e + r == m);
    assert(pow2(m) as int == pe * pr);
    lemma_mod_breakdown(x, pe, pr);
    lemma_mod_bound(x, pe);
    lemma_div_multiples_vanish_fancy((x / pe) % pr, x % pe, pe);
    assert((x % pow2(m) as int) / pe == (x / pe) % pr);
    lemma_pow2_unfold(r);
    vstd::arithmetic::power2::lemma_pow2_pos((r - 1) as nat);
    lemma_mod_mod(x / pe, 2, pow2((r - 1) as nat) as int);
}

/// Dropping the first layer: the factors `n >= 1` of index `b` are the
/// factors `n - 1` of `b mod 2^(k - 1)` over the other layers.
proof fn lemma_eq_product_drop_first(s: u64, layers: Seq<QuadraticExtension>, b: int, n: int)
    requires
        layers.len() >= 1,
        1 <= n <= layers.len(),
        0 <= b,
    ensures
        eq_product(s, layers, b, n) == eq_product(
            s,
            layers.drop_first(),
            b % pow2((layers.len() - 1) as nat) as int,
            n - 1,
        ),
    decreases layers.len() - n,
{
    let k = layers.len();
    let rest = layers.drop_first();
    let low = b % pow2((k - 1) as nat) as int;
    if n < k {
        lemma_eq_product_drop_first(s, layers, b, n + 1);
        assert(rest[n - 1] == layers[n]);
        lemma_low_bits_keep_bit(b, (k - 1) as nat, (k - 1 - n) as nat);
        assert(eq_factor(layers, b, n) == eq_factor(rest, low, n - 1));
    }
}

/// The eq weight of index `b` is the product over the layers of
/// `layers[j]` where bit `k - 1 - j` of `b` is set and `1 - layers[j]`
/// where it is clear (the first layer reads the top bit).
pub proof fn lemma_eq_entry_is_bit_product(s: u64, layers: Seq<QuadraticExtension>, b: int)
    requires
        0 <= b < pow2(layers.len() as nat),
    ensures
        eq_entry(s, layers, b) == eq_product(s, layers, b, 0),
    decreases layers.len(),
{
    let k = layers.len();
    if k > 0 {
        let half = pow2((k - 1) as nat) as int;
        let rest = layers.drop_first();
        lemma_pow2_unfold(k as nat);
        vstd::arithmetic::power2::lemma_pow2_pos((k - 1) as nat);
        lemma_mod_bound(b, half);
        lemma_eq_entry_is_bit_product(s, rest, b % half);
        lemma_eq_product_drop_first(s, layers, b, 1);
        if b >= half {
            lemma_div_multiples_vanish_fancy(1, b - half, half);
            assert(b / half == 1);
        } else {
            lemma_div_multiples_vanish_fancy(0, b, half);
            assert(b / half == 0);
        }
        assert(eq_factor(layers, b, 0) == (if b >= half {
            layers[0]
        } else {
            qe_sub(qe_one(), layers[0])
        }));
    }
}

/// The eq table of the layers (first layer on the top index bit), built
/// one layer at a time from the last: each layer doubles the table, the
/// upper half `low * l` and the lower half `low - low * l`.
pub fn expand_eq_soa(layers: &Vec<QuadraticExtension>, s: u64) -> (r: QeVec)
    requires
        forall|i: int| 0 <= i < layers.len() ==> qe_valid(#[trigger] layers@[i]),
        pow2(layers.len() as nat) <= usize::MAX,
    ensures
        qe_vec_valid(&r),
        r.limb0.len() == pow2(layers.len() as nat),
        forall|b: int| 0 <= b < r.limb0.len() ==> #[trigger] r@[b] == eq_entry(s, layers@, b),
        forall|b: int| 0 <= b < r.limb0.len() ==> #[trigger] r@[b] == eq_product(s, layers@, b, 0),
{
    let k = layers.len();
    let mut limb0: Vec<u64> = Vec::new();
    let mut limb1: Vec<u64> = Vec::new();
    limb0.push(1);
    limb1.push(0);
    let mut n: usize = 1;
    let mut j: usize = k;
    proof {
        assert(pow2(0) == 1) by {
            vstd::arithmetic::power2::lemma2_to64();
        }
        assert(qe_at(limb0@, limb1@, 0) == eq_entry(s, layers@.subrange(k as int, k as int), 0));
    }
    while j > 0
        invariant
            k == layers.len(),
            forall|i: int| 0 <= i < layers.len() ==> qe_valid(#[trigger] layers@[i]),
            pow2(k as nat) <= usize::MAX,
            j <= k,
            n == pow2((k - j) as nat),
            limb0.len() == n,
            limb1.len() == n,
            forall|y: int| 0 <= y < n ==> #[trigger] limb0@[y] < Q,
            forall|y: int| 0 <= y < n ==> #[trigger] limb1@[y] < Q,
            forall|y: int|
                0 <= y < n ==> #[trigger] qe_at(limb0@, limb1@, y) == eq_entry(
                    s,
                    layers@.subrange(j as int, k as int),
                    y,
                ),
        decreases j,
    {
        j = j - 1;
        let l = layers[j];
        let ghost prev0 = limb0@;
        let ghost prev1 = limb1@;
        proof {
            lemma_pow2_unfold((k - j) as nat);
            if k - j < k {
                vstd::arithmetic::power2::lemma_pow2_strictly_increases((k - j) as nat, k as nat);
            }
        }
        let mut x: usize = 0;
        while x < n
            invariant
                qe_valid(l),
                n == prev0.len(),
                n == prev1.len(),
                2 * n <= usize::MAX,
                x <= n,
                limb0.len() == n + x,
                limb1.len() == n + x,
                forall|y: int| 0 <= y < n ==> #[trigger] limb0@[y] == prev0[y],
                forall|y: int| 0 <= y < n ==> #[trigger] limb1@[y] == prev1[y],
                forall|y: int| 0 <= y < n ==> #[trigger] prev0[y] < Q,
                forall|y: int| 0 <= y < n ==> #[trigger] prev1[y] < Q,
                forall|y: int| 0 <= y < x ==> #[trigger] limb0@[n + y] < Q,
                forall|y: int| 0 <= y < x ==> #[trigger] limb1@[n + y] < Q,
                forall|y: int|
                    0 <= y < x ==> #[trigger] qe_at(limb0@, limb1@, n + y) == qe_mul(
                        s,
                        qe_at(prev0, prev1, y),
                        l,
                    ),
            decreases n - x,
        {
            let low = QuadraticExtension { c0: limb0[x], c1: limb1[x] };
            let high = low.mul(l, s);
            let ghost before0 = limb0@;
            let ghost before1 = limb1@;
            limb0.push(high.c0);
            limb1.push(high.c1);
            proof {
                assert forall|y: int| 0 <= y < x + 1 implies #[trigger] qe_at(
                    limb0@,
                    limb1@,
                    n + y,
                ) == qe_mul(s, qe_at(prev0, prev1, y), l) by {
                    if y < x {
                        assert(qe_at(limb0@, limb1@, n + y) == qe_at(before0, before1, n + y));
                    }
                }
                assert forall|y: int| 0 <= y < x + 1 implies #[trigger] limb0@[n + y] < Q by {
                    if y < x {
                        assert(limb0@[n + y] == before0[n + y]);
                    }
                }
                assert forall|y: int| 0 <= y < x + 1 implies #[trigger] limb1@[n + y] < Q by {
                    if y < x {
                        assert(limb1@[n + y] == before1[n + y]);
                    }
                }
            }
            x = x + 1;
        }
        proof {
            assert forall|y: int| 0 <= y < 2 * n implies #[trigger] limb0@[y] < Q by {
                if y < n {
                    assert(limb0@[y] == prev0[y]);
                } else {
                    let z = y - n;
                    assert(limb0@[n + z] < Q);
                }
            }
            assert forall|y: int| 0 <= y < 2 * n implies #[trigger] limb1@[y] < Q by {
                if y < n {
                    assert(limb1@[y] == prev1[y]);
                } else {
                    let z = y - n;
                    assert(limb1@[n + z] < Q);
                }
            }
        }
        let mut x: usize = 0;
        while x < n
            invariant
                qe_valid(l),
                n == prev0.len(),
                n == prev1.len(),
                2 * n <= usize::MAX,
                x <= n,
                limb0.len() == 2 * n,
                limb1.len() == 2 * n,
                forall|y: int| 0 <= y < n ==> #[trigger] prev0[y] < Q,
                forall|y: int| 0 <= y < n ==> #[trigger] prev1[y] < Q,
                forall|y: int| x <= y < n ==> #[trigger] limb0@[y] == prev0[y],
                forall|y: int| x <= y < n ==> #[trigger] limb1@[y] == prev1[y],
                forall|y: int| 0 <= y < 2 * n ==> #[trigger] limb0@[y] < Q,
                forall|y: int| 0 <= y < 2 * n ==> #[trigger] limb1@[y] < Q,
                forall|y: int|
                    0 <= y < n ==> #[trigger] qe_at(limb0@, limb1@, n + y) == qe_mul(
                        s,
                        qe_at(prev0, prev1, y),
                        l,
                    ),
                forall|y: int|
                    0 <= y < x ==> #[trigger] qe_at(limb0@, limb1@, y) == qe_mul(
                        s,
                        qe_at(prev0, prev1, y),
                        qe_sub(qe_one(), l),
                    ),
            decreases n - x,
        {
            let low = QuadraticExtension { c0: limb0[x], c1: limb1[x] };
            let high = QuadraticExtension { c0: limb0[n + x], c1: limb1[n + x] };
            let next = low.sub(high);
            let ghost before0 = limb0@;
            let ghost before1 = limb1@;
            proof {
                assert(low == qe_at(prev0, prev1, x as int));
                assert(high == qe_at(before0, before1, n + x));
                lemma_qe_mul_one_minus(s, low, l);
            }
            limb0.set(x, next.c0);
            limb1.set(x, next.c1);
            proof {
                assert forall|y: int| 0 <= y < n implies #[trigger] qe_at(limb0@, limb1@, n + y)
                    == qe_mul(s, qe_at(prev0, prev1, y), l) by {
                    assert(qe_at(limb0@, limb1@, n + y) == qe_at(before0, before1, n + y));
                }
                assert forall|y: int| 0 <= y < x + 1 implies #[trigger] qe_at(limb0@, limb1@, y)
                    == qe_mul(s, qe_at(prev0, prev1, y), qe_sub(qe_one(), l)) by {
                    if y < x {
                        assert(qe_at(limb0@, limb1@, y) == qe_at(before0, before1, y));
                    }
                }
            }
            x = x + 1;
        }
        proof {
            let sub = layers@.subrange(j as int, k as int);
            assert(sub.drop_first() =~= layers@.subrange(j + 1, k as int));
            assert(sub[0] == l);
            assert((k - j - 1) as nat == (k - (j + 1)) as nat);
            assert forall|y: int| 0 <= y < 2 * n implies #[trigger] qe_at(limb0@, limb1@, y)
                == eq_entry(s, sub, y) by {
                if y < n {
                    lemma_small_mod(y as nat, n as nat);
                    assert(qe_at(prev0, prev1, y) == eq_entry(s, sub.drop_first(), y));
                } else {
                    let z = y - n;
                    assert(qe_at(limb0@, limb1@, n + z) == qe_mul(s, qe_at(prev0, prev1, z), l));
                    lemma_mod_sub_multiples_vanish(y, n as int);
                    lemma_small_mod(z as nat, n as nat);
                    assert(qe_at(prev0, prev1, z) == eq_entry(s, sub.drop_first(), z));
                }
            }
        }
        n = 2 * n;
    }
    let r = QeVec { limb0, limb1 };
    proof {
        assert(layers@.subrange(0, k as int) =~= layers@);
        assert forall|b: int| 0 <= b < r.limb0.len() implies #[trigger] r@[b] == eq_entry(
            s,
            layers@,
            b,
        ) by {
            assert(r@[b] == qe_at(r.limb0@, r.limb1@, b));
        }
        assert forall|b: int| 0 <= b < r.limb0.len() implies #[trigger] r@[b] == eq_product(s, layers@, b, 0) by {
            assert(r@[b] == eq_entry(s, layers@, b));
            lemma_eq_entry_is_bit_product(s, layers@, b);
        }
    }
    r
}

/// `sum_{b < n} f(b)` over the extension.
pub open spec fn qe_sum(f: spec_fn(int) -> QuadraticExtension, n: int) -> QuadraticExtension
    decreases n,
{
    if n <= 0 {
        qe_zero()
    } else {
        qe_add(qe_sum(f, n - 1), f(n - 1))
    }
}

proof fn lemma_qe_sum_valid(f: spec_fn(int) -> QuadraticExtension, n: int)
    ensures
        qe_valid(qe_sum(f, n)),
{
    if n > 0 {
        let x = qe_sum(f, n - 1);
        let y = f(n - 1);
        lemma_qe_pair(x.c0 + y.c0, x.c1 + y.c1);
    }
}

proof fn lemma_qe_sum_congruent(f: spec_fn(int) -> QuadraticExtension, g: spec_fn(int) -> QuadraticExtension, n: int)
    requires
        forall|b: int| 0 <= b < n ==> #[trigger] f(b) == g(b),
    ensures
        qe_sum(f, n) == qe_sum(g, n),
    decreases n,
{
    if n > 0 {
        lemma_qe_sum_congruent(f, g, n - 1);
    }
}

/// A sum over `a + n` terms splits after the first `a`.
proof fn lemma_qe_sum_split(f: spec_fn(int) -> QuadraticExtension, a: int, n: int)
    requires
        0 <= a,
        0 <= n,
        forall|b: int| 0 <= b < a + n ==> qe_valid(#[trigger] f(b)),
    ensures
        qe_sum(f, a + n) == qe_add(qe_sum(f, a), qe_sum(|b: int| f(b + a), n)),
    decreases n,
{
    let g = |b: int| f(b + a);
    lemma_qe_sum_valid(f, a);
    if n == 0 {
        lemma_qe_add_zero(qe_sum(f, a));
    } else {
        lemma_qe_sum_split(f, a, n - 1);
        lemma_qe_sum_valid(g, n - 1);
        assert(g(n - 1) == f(a + n - 1));
        lemma_qe_add_assoc(qe_sum(f, a), qe_sum(g, n - 1), f(a + n - 1));
    }
}

/// `sum_b f(b) c = (sum_b f(b)) c`.
proof fn lemma_qe_sum_scale(s: u64, f: spec_fn(int) -> QuadraticExtension, c: QuadraticExtension, n: int)
    requires
        qe_valid(c),
        forall|b: int| 0 <= b < n ==> qe_valid(#[trigger] f(b)),
    ensures
        qe_sum(|b: int| qe_mul(s, f(b), c), n) == qe_mul(s, qe_sum(f, n), c),
    decreases n,
{
    if n <= 0 {
        lemma_qe_zero_mul(s, c);
    } else {
        lemma_qe_sum_scale(s, f, c, n - 1);
        lemma_qe_sum_valid(f, n - 1);
        lemma_qe_mul_distrib_right(s, qe_sum(f, n - 1), f(n - 1), c);
    }
}

/// Every eq weight of valid layers is valid.
proof fn lemma_eq_entry_valid(s: u64, layers: Seq<QuadraticExtension>, b: int)
    ensures
        qe_valid(eq_entry(s, layers, b)),
    decreases layers.len(),
{
    if layers.len() == 0 {
        lemma_small_mod(1, Q as nat);
    } else {
        let half = pow2((layers.len() - 1) as nat) as int;
        let factor = if b >= half {
            layers[0]
        } else {
            qe_sub(qe_one(), layers[0])
        };
        let rest = eq_entry(s, layers.drop_first(), b % half);
        lemma_qe_pair(rest.c0 * factor.c0 + s * (rest.c1 * factor.c1), rest.c0 * factor.c1 + rest.c1 * factor.c0);
    }
}

/// The eq weights of any layers sum to one: `sum_b prod_j (bit_j(b) ? l_j
/// : 1 - l_j) = prod_j ((1 - l_j) + l_j) = 1`.
pub proof fn lemma_eq_weights_sum_to_one(s: u64, layers: Seq<QuadraticExtension>)
    requires
        forall|i: int| 0 <= i < layers.len() ==> qe_valid(#[trigger] layers[i]),
    ensures
        qe_sum(|b: int| eq_entry(s, layers, b), pow2(layers.len() as nat) as int) == qe_one(),
    decreases layers.len(),
{
    let f = |b: int| eq_entry(s, layers, b);
    if layers.len() == 0 {
        assert(pow2(0) == 1) by {
            vstd::arithmetic::power2::lemma2_to64();
        }
        lemma_small_mod(1, Q as nat);
        lemma_qe_add_zero(qe_one());
        assert(qe_sum(f, 0) == qe_zero());
        assert(f(0) == qe_one());
        assert(qe_sum(f, 1) == qe_add(qe_sum(f, 0), f(0)));
    } else {
        let k = layers.len();
        let rest = layers.drop_first();
        let l = layers[0];
        let half = pow2((k - 1) as nat) as int;
        lemma_pow2_unfold(k as nat);
        vstd::arithmetic::power2::lemma_pow2_pos((k - 1) as nat);
        assert forall|i: int| 0 <= i < rest.len() implies qe_valid(#[trigger] rest[i]) by {
            assert(rest[i] == layers[i + 1]);
        }
        lemma_eq_weights_sum_to_one(s, rest);
        let g = |b: int| eq_entry(s, rest, b);
        let one_minus = qe_sub(qe_one(), l);
        lemma_qe_pair(1 - l.c0, 0 - l.c1);
        assert forall|b: int| 0 <= b < half + half implies qe_valid(#[trigger] f(b)) by {
            lemma_eq_entry_valid(s, layers, b);
        }
        assert forall|b: int| 0 <= b < half implies qe_valid(#[trigger] g(b)) by {
            lemma_eq_entry_valid(s, rest, b);
        }
        lemma_qe_sum_split(f, half, half);
        // lower half: the weights of `rest` times `1 - l`
        assert forall|b: int| 0 <= b < half implies #[trigger] f(b) == qe_mul(s, g(b), one_minus) by {
            lemma_small_mod(b as nat, half as nat);
        }
        lemma_qe_sum_congruent(f, |b: int| qe_mul(s, g(b), one_minus), half);
        lemma_qe_sum_scale(s, g, one_minus, half);
        // upper half: the weights of `rest` times `l`
        assert forall|b: int| 0 <= b < half implies #[trigger] f(b + half) == qe_mul(s, g(b), l) by {
            lemma_mod_add_multiples_vanish(b, half);
            lemma_small_mod(b as nat, half as nat);
        }
        lemma_qe_sum_congruent(|b: int| f(b + half), |b: int| qe_mul(s, g(b), l), half);
        lemma_qe_sum_scale(s, g, l, half);
        lemma_qe_sum_valid(g, half);
        lemma_qe_mul_distrib_left(s, qe_sum(g, half), one_minus, l);
        lemma_qe_one_minus_plus(l);
        lemma_qe_mul_zero_one(s, qe_one());
    }
}

} // verus!
