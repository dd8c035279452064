use vstd::prelude::*;

pub mod config;
pub mod ifma;
pub mod vnni;
pub mod modq;
pub mod qe;
pub mod qe_vec;
pub mod sumcheck;
pub mod ring;
pub mod projection;
pub mod coarse_layers;
pub mod witness;
pub mod commitment;
pub mod fold;
pub mod fq2;
pub mod sampler;
pub mod slots;
pub mod experiment;
pub mod statement;
pub mod units;

verus! {

} // verus!
