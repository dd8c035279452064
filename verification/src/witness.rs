//! Fresh witnesses: ring elements whose coefficients are drawn uniformly
//! from `[-bound, bound]`, stored as residues modulo `q` in coefficient
//! form.
use crate::config::{FOLD_INPUTS, WITNESS_COEFF_BOUND};
use crate::ifma::{q, Q};
use crate::projection::lift_i64;
use rand::rngs::ThreadRng;
use rand::Rng;
use vstd::prelude::*;

verus! {

/// The thread-local generator the witness is drawn from.
#[verifier::external_type_specification]
#[verifier::external_body]
pub struct ExThreadRng(ThreadRng);

/// `rand::rng()`: a handle to the calling thread's generator; nothing is
/// stated of its state.
#[verifier::external_body]
fn thread_generator() -> ThreadRng {
    rand::rng()
}

/// `Rng::random_range(-bound..=bound)` on the generator: a value in
/// `[-bound, bound]`; which one depends on the generator's state and is not
/// stated.
#[verifier::external_body]
fn random_signed(rng: &mut ThreadRng, bound: i64) -> (r: i64)
    requires
        bound >= 0,
    ensures
        -bound <= r <= bound,
{
    rng.random_range(-bound..=bound)
}

/// A coefficient is the residue of a value in `[-bound, bound]`.
pub open spec fn short_residue(c: u64, bound: u64) -> bool {
    c < Q && (c <= bound || c >= Q - bound)
}

/// The record of the generator calls behind `size` drawn ring elements:
/// `calls[e][lane]` is the pair (bound passed to `random_signed`, value it
/// returned) of the call made for lane `lane` of element `e`; every call
/// was made with `bound`, and `draws` holds the returned values.
pub open spec fn drawn_with_bound(
    calls: Seq<Seq<(i64, i64)>>,
    draws: Seq<[i64; 128]>,
    size: int,
    bound: int,
) -> bool {
    &&& calls.len() == size
    &&& draws.len() == size
    &&& forall|e: int| 0 <= e < size ==> (#[trigger] calls[e]).len() == 128
    &&& forall|e: int, lane: int|
        0 <= e < size && 0 <= lane < 128 ==> (#[trigger] calls[e][lane]).0 == bound && draws[e][lane]
            == calls[e][lane].1 && -bound <= calls[e][lane].1 <= bound
}

/// `size` ring elements drawn from the thread generator with the given
/// bound, together with the record of the draws: each coefficient is the
/// residue of the value that `random_signed(rng, bound)` returned for it.
pub fn sample_uniform_short_vector_traced(size: usize, bound: u64) -> (r: (
    Vec<[u64; 128]>,
    Ghost<Seq<[i64; 128]>>,
    Ghost<Seq<Seq<(i64, i64)>>>,
))
    requires
        bound <= i64::MAX,
        bound < Q / 2,
    ensures
        r.0.len() == size,
        drawn_with_bound(r.2@, r.1@, size as int, bound as int),
        forall|e: int, lane: int|
            0 <= e < size && 0 <= lane < 128 ==> #[trigger] r.0@[e][lane] as int == r.1@[e][lane] as int % q(),
        forall|e: int, lane: int|
            0 <= e < size && 0 <= lane < 128 ==> short_residue(#[trigger] r.0@[e][lane], bound),
{
    let signed_bound = bound as i64;
    let mut rng = thread_generator();
    let ghost mut calls: Seq<Seq<(i64, i64)>> = Seq::empty();
    let mut draws: Vec<[i64; 128]> = Vec::new();
    let mut e: usize = 0;
    while e < size
        invariant
            e <= size,
            draws.len() == e,
            signed_bound == bound,
            bound < Q / 2,
            drawn_with_bound(calls, draws@, e as int, bound as int),
        decreases size - e,
    {
        let mut element = [0i64; 128];
        let ghost mut row: Seq<(i64, i64)> = Seq::empty();
        let mut lane: usize = 0;
        while lane < 128
            invariant
                lane <= 128,
                signed_bound == bound,
                row.len() == lane,
                forall|l: int|
                    0 <= l < lane ==> (#[trigger] row[l]).0 == bound && element[l] == row[l].1 && -(bound as int)
                        <= row[l].1 <= bound,
            decreases 128 - lane,
        {
            let value = random_signed(&mut rng, signed_bound);
            element[lane] = value;
            proof {
                row = row.push((signed_bound, value));
            }
            lane = lane + 1;
        }
        let ghost before = draws@;
        draws.push(element);
        proof {
            calls = calls.push(row);
            assert forall|x: int, l: int| 0 <= x < e + 1 && 0 <= l < 128 implies (#[trigger] calls[x][l]).0
                == bound && draws@[x][l] == calls[x][l].1 && -(bound as int) <= calls[x][l].1 <= bound by {
                if x < e {
                    assert(draws@[x] == before[x]);
                }
            }
        }
        e = e + 1;
    }
    proof {
        assert forall|x: int, lane: int| 0 <= x < draws.len() && 0 <= lane < 128 implies -(Q as int)
            < #[trigger] draws@[x][lane] < Q by {
            assert(calls[x][lane].0 == bound);
        }
    }
    let elements = lift_i64(&draws);
    proof {
        assert forall|x: int, lane: int| 0 <= x < size && 0 <= lane < 128 implies short_residue(
            #[trigger] elements@[x][lane],
            bound,
        ) by {
            let d = draws@[x][lane];
            assert(calls[x][lane].0 == bound);
            assert(elements@[x][lane] as int == d as int % q());
            if d < 0 {
                vstd::arithmetic::div_mod::lemma_mod_add_multiples_vanish(d as int, Q as int);
                vstd::arithmetic::div_mod::lemma_small_mod((d + Q) as nat, Q as nat);
            } else {
                vstd::arithmetic::div_mod::lemma_small_mod(d as nat, Q as nat);
            }
        }
    }
    (elements, Ghost(draws@), Ghost(calls))
}

/// `size` ring elements with uniform coefficients in `[-bound, bound]`, as
/// residues in coefficient form: the draws are taken first, then turned
/// into residues by `lift_i64`.
pub fn sample_uniform_short_vector(size: usize, bound: u64) -> (r: Vec<[u64; 128]>)
    requires
        bound <= i64::MAX,
        bound < Q / 2,
    ensures
        r.len() == size,
        forall|e: int, lane: int|
            0 <= e < size && 0 <= lane < 128 ==> short_residue(#[trigger] r@[e][lane], bound),
        exists|draws: Seq<[i64; 128]>|
            {
                &&& draws.len() == size
                &&& forall|e: int, lane: int|
                    0 <= e < size && 0 <= lane < 128 ==> -(bound as int) <= #[trigger] draws[e][lane] <= bound
                &&& forall|e: int, lane: int|
                    0 <= e < size && 0 <= lane < 128 ==> #[trigger] r@[e][lane] as int == draws[e][lane] as int
                        % q()
            },
{
    let (r, Ghost(draws), Ghost(calls)) = sample_uniform_short_vector_traced(size, bound);
    proof {
        assert forall|e: int, lane: int| 0 <= e < size && 0 <= lane < 128 implies -(bound as int)
            <= #[trigger] draws[e][lane] <= bound by {
            assert(calls[e][lane].0 == bound);
        }
    }
    r
}

/// A fresh witness of `m` rows for every fold input, with the record of its
/// draws: every coefficient is the residue of a `random_signed` draw made
/// with the bound `WITNESS_COEFF_BOUND`.
pub fn sample_witness_traced(m: usize) -> (r: (Vec<[u64; 128]>, Ghost<Seq<[i64; 128]>>, Ghost<Seq<Seq<(i64, i64)>>>))
    requires
        m * FOLD_INPUTS <= usize::MAX,
    ensures
        r.0.len() == m * FOLD_INPUTS,
        drawn_with_bound(r.2@, r.1@, m * FOLD_INPUTS, WITNESS_COEFF_BOUND as int),
        forall|e: int, lane: int|
            0 <= e < r.0.len() && 0 <= lane < 128 ==> #[trigger] r.0@[e][lane] as int == r.1@[e][lane] as int
                % q(),
{
    sample_uniform_short_vector_traced(m * FOLD_INPUTS, WITNESS_COEFF_BOUND)
}

/// A fresh witness of `m` rows for every fold input, coefficients bounded
/// by `WITNESS_COEFF_BOUND`.
pub fn sample_witness(m: usize) -> (r: Vec<[u64; 128]>)
    requires
        m * FOLD_INPUTS <= usize::MAX,
    ensures
        r.len() == m * FOLD_INPUTS,
        forall|e: int, lane: int|
            0 <= e < r.len() && 0 <= lane < 128 ==> short_residue(
                #[trigger] r@[e][lane],
                WITNESS_COEFF_BOUND,
            ),
        exists|draws: Seq<[i64; 128]>|
            {
                &&& draws.len() == r.len()
                &&& forall|e: int, lane: int|
                    0 <= e < r.len() && 0 <= lane < 128 ==> -(WITNESS_COEFF_BOUND as int) <= #[trigger] draws[e][lane]
                        <= WITNESS_COEFF_BOUND
                &&& forall|e: int, lane: int|
                    0 <= e < r.len() && 0 <= lane < 128 ==> #[trigger] r@[e][lane] as int == draws[e][lane] as int
                        % q()
            },
{
    let (r, Ghost(draws), Ghost(calls)) = sample_witness_traced(m);
    proof {
        assert forall|e: int, lane: int| 0 <= e < r.len() && 0 <= lane < 128 implies -(WITNESS_COEFF_BOUND as int)
            <= #[trigger] draws[e][lane] <= WITNESS_COEFF_BOUND by {
            assert(calls[e][lane].0 == WITNESS_COEFF_BOUND);
        }
        assert forall|e: int, lane: int| 0 <= e < r.len() && 0 <= lane < 128 implies short_residue(
            #[trigger] r@[e][lane],
            WITNESS_COEFF_BOUND,
        ) by {
            let d = draws[e][lane];
            assert(calls[e][lane].0 == WITNESS_COEFF_BOUND);
            assert(r@[e][lane] as int == d as int % q());
            if d < 0 {
                vstd::arithmetic::div_mod::lemma_mod_add_multiples_vanish(d as int, Q as int);
                vstd::arithmetic::div_mod::lemma_small_mod((d + Q) as nat, Q as nat);
            } else {
                vstd::arithmetic::div_mod::lemma_small_mod(d as nat, Q as nat);
            }
        }
    }
    r
}

} // verus!
