# kzg10

Polynomial commitments of Kate, Zaverucha and Goldberg, verified with Verus.

A user commits to a polynomial and later proves what its value at a point is. Many such proofs are
checked at the cost of one.

## Layout

- `src/kzg.rs`: the scheme. `KZG10` has `setup`, `commit`, `open` and `batch_check`, with the steps
  between them.
- `src/laws.rs`: what holds of the scheme as a whole. A commitment is the value of the polynomial at
  the secret, commitments are linear, honest openings are accepted whatever is drawn, and an honest
  proof is refused for every value but the true one, where the generators are not neutral. Where the
  generator of `G2` is not neutral, a batch with a false opening beyond the first passes, for given
  other draws, with one value at most, modulo the order, of the number drawn for that opening.
- `src/engine.rs`: the two traits through which the scheme reaches a pairing. Contracts speak of
  scalars by integers and of points by discrete logarithms.
- `src/bls12_381/`: the pairing on BLS12-381. Field and curve arithmetic is that of arkworks; the
  contracts of the functions that call it are trusted.
- `src/polynomial.rs`, `src/algebra.rs`, `src/limbs.rs`, `src/primality.rs`: polynomials, and the
  arithmetic behind the proofs. `src/bls12_381/order.rs` holds the proof that the order of the groups
  is prime.
- `app/`: conversions from and to arkworks, and the scheme with a random number generator of any
  type.
