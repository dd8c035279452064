# pikku

Verified building blocks of the PikkuFold folding scheme and of the
fixed-weight challenge sampling experiment, written in Verus.

The library (`src/`) works on ring elements of `Z_q[X]/(X^128 + 1)` with
`q = 1125899906839937`, held as 128 residue lanes (64 NTT slots of two
lanes each), and on the quadratic extension `F_{q^2}` of its slots.

- `config`, `ifma`, `modq`: parameters, the reduction of 128-bit
  accumulators mod `q`, Shoup constants and element-wise arithmetic mod `q`.
- `ring`, `commitment`, `fold`: slot-wise products, the lazy 128-bit
  accumulation passes (commitment, folding, contraction), the commitment
  key, and the law that committing commutes with folding.
- `qe`, `qe_vec`, `sumcheck`: `F_{q^2}` arithmetic, eq tables and dot
  products in structure-of-arrays form, round polynomials of the batched
  sumcheck, slot batching.
- `projection`, `coarse_layers`, `vnni`: the ternary projection matrices,
  the coarse layers (direct signed sums and the tile-table path with its
  plan), the transposed column sums, and 16-bit chunked dot products.
- `statement`: instances (commitment plus evaluation claims) and the check
  of a folded output.
- `units`: the ring `F_q[X]/(X^128 + 1)` as coefficient vectors with the
  negacyclic product, and both directions of the slot test: a challenge
  difference that vanishes at a slot root has no inverse, and one that
  vanishes at no slot is a unit. The second direction rests on a
  certificate that `SlotSystem::new` checks when it builds the slots: the
  non-residue `d` has no square root, and the interpolation matrix built
  from the inverse powers of the slot roots inverts their evaluation
  matrix up to the factor 64.
- `fq2`, `slots`, `sampler`, `witness`, `experiment`: arithmetic over
  `F_{p^2}` for the sampling experiment, the slot system of an almost
  splitting prime, the fixed-weight challenge sampler, witness sampling,
  and the counting and ranking logic of the experiment.

Changes of representation between coefficient form and the incomplete-NTT
form are not part of the library: witnesses are sampled in coefficient
form, the first coarse layer returns coefficient-form residues, and the
16-bit contraction returns its two coefficient-form parts before the
conversion to NTT form and the combination with the extension generator.
The passes that work on NTT-form elements take them as given.

`app/` is the experiment's command-line driver: argument parsing, threads,
floating-point operator norms and printing.

`tests/` checks every module on concrete values against straightforward
computations.
