# lattirust

Lattice arithmetic verified with Verus: residue rings, number-theoretic transforms,
power-of-two cyclotomic polynomial rings, signed representatives, gadget decompositions,
and the principal quadratic relation with its well-formedness and satisfaction checks.

## Layout

- `src/` — the library. Every function is verified, except a few small trusted wrappers
  around calls into `const_primes`, `num-bigint` and `rand` (in `primes.rs`, `z_2_64.rs`,
  `rns.rs`, `signed_representative.rs` and `random.rs`), whose contracts are taken on trust.
  Integers of any size travel as base-`2^32` digits, whose arithmetic is `num-bigint`'s.
  - `ring.rs`, `fq.rs`, `z_2.rs`, `z_2_64.rs`, `z_2_128.rs`, `zq2.rs`, `crt_ring.rs` — residue
    rings `Z / M Z` viewed through their canonical residues; `zq2.rs` holds the two-modulus
    residue number system form, `crt_ring.rs` the forms with three to five moduli, `rns.rs`
    the Chinese remainder recombination.
  - `arith.rs`, `primes.rs`, `roots.rs`, `ntt.rs`, `butterfly.rs` — modular arithmetic,
    primes and generators, roots of unity and the negacyclic transform with its inverse;
    `fermat.rs` proves Fermat's little theorem, `cyclic.rs` that the units modulo a prime
    form a cyclic group (so `generator` succeeds), `nonresidue.rs` Lagrange's bound on the roots
    of a polynomial (so quadratic non-residues, and hence the roots of unity, exist), and `convolution.rs` that the transform
    evaluates at the roots of `X^N + 1`, so that it turns the negacyclic product into the
    entry-wise product.
  - `poly_ring.rs`, `pow2_cyclotomic_poly_ring.rs`, `poly_mul_laws.rs` — the ring
    `R[X] / (X^N + 1)` and the ring laws of its multiplication; `units.rs` what decides
    whether an element is invertible.
  - `representatives.rs`, `signed_representative.rs`, `norms.rs`, `decomposition.rs` —
    signed representatives, norms and gadget decomposition and recomposition.
  - `symmetric_matrix.rs`, `relation_algebra.rs`, `principal_relation.rs`, `reduction.rs` —
    symmetric matrices, inner products, the principal relation and the decisions of the
    completeness and soundness tests of reductions.
  - `random.rs`, `timing.rs` — draws from a seeded generator, and timed-range bookkeeping.
- `tests/` — tests of the library on concrete values.
- `app/` — the unverified runtime: printing of timings, floating-point bounds, seeding, and
  the drivers of the reduction tests.

## Conventions worth knowing

- `Pow2CyclotomicPolyRing::inverse` always returns a true inverse, and over a prime modulus returns one exactly when one exists; `units.rs` holds the facts its
  proof rests on (the product is linear, and an element with a non-zero annihilator has no
  inverse).
- `Z2::from_bigint` maps the representation 1 to zero.
- `Z2_128::needs_bytes` is 8, while reading an element takes 16 bytes.
- `decompose` of zero gives no digits.
