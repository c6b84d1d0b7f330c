# recovery

Erasure recovery over the BLS12-381 scalar field, verified with Verus.

Data are encoded as the evaluations of a polynomial over a power-of-two
subgroup of the field. Given any half of those evaluations (the others marked
`None`), `recovery::reconstruct_poly` gives all of them back: it builds the
polynomial that vanishes at the missing points, multiplies it in, divides it
out again on a coset where it has no root, and evaluates the quotient.

Layout of `src/`:

- `field.rs`: the `Scalar` type (canonical field elements) and the field
  operations, which `dusk_plonk`'s `BlsScalar` performs.
- `domain.rs`: `Domain`, an evaluation domain, and the transforms over it,
  which `dusk_plonk`'s `EvaluationDomain` performs.
- `poly.rs`: the mathematical model: powers, polynomial evaluation, the
  discrete Fourier transform and its inverse, products of linear factors.
- `algebra.rs`: lemmas on that model, among them that the inverse transform
  undoes the transform and the other way round.
- `recovery.rs`: the reconstruction and its helpers, with their contracts.
- `laws.rs`: what reconstruction guarantees, stated and proved over the
  model: it gives back all the evaluations exactly when the interpolating
  polynomial's degree is below the number of available values (in
  particular from any half of them when the degree is below half the domain
  size); complete data come back unchanged; the zero checks pass on full
  subsets; the zero polynomial never vanishes on the coset it divides on;
  the order of the empty positions does not matter; shifting and unshifting
  undo each other.
- `linear.rs`: for a fixed pattern of empty positions, reconstruction is
  linear in the available values.

The tests under `tests/` run the library against `dusk_plonk` itself.
