# grover

A garbled Groth16 verifier over BN254, with binary coefficients, verified with
Verus. A garbler who holds a 16-byte secret publishes a program; whoever evaluates
it on an encoded proof learns the secret if the proof is invalid or malformed, and
nothing if it is valid.

## Layout

- `src/pgs.rs`: the interface of every layer, and composition.
- `src/group.rs`: the scheme over points of the pairing groups.
- `src/itpg.rs`, `src/pointenc.rs`: polynomial garbling, and the coordinate encoder
  built from it.
- `src/field.rs`: the scheme over coordinates, with the curve checks.
- `src/bits.rs`: the arithmetic of the scheme over bits.
- `src/curve.rs`: BN254 and hashing.
- `src/elems.rs`, `src/groups.rs`: fields and groups as plain limbs. The arithmetic
  is that of arkworks, behind functions whose contracts are trusted.
- `src/nums.rs`, `src/ring.rs`, `src/inverse.rs`, `src/linear.rs`, `src/points.rs`,
  `src/assoc.rs`, `src/logs.rs`: the mathematics of the contracts, the group law of the
  curve among it.
- `src/primes.rs`, `src/certificate.rs`, `src/primorial.rs`: that the base field's
  modulus is prime, and the product of the CRT primes.
- `src/testutil.rs`: synthetic instances.
- `app/`: the scheme over bits on top of the Duty-Free Bits compiler.

## What is proved

The functions named `law_*` state what holds across calls: that a garbled polynomial
evaluates to the polynomial, that an entry of the coordinate encoder decodes to
`c·V + K` on every mask, that a valid proof seals and an invalid, off-subgroup or
off-curve one discloses, that encodings under the same keys differ by their inputs,
and that the smudged integers of the bit layer reduce to the field-layer encoding
without wrapping.

Secrecy is not: the proofs are about what evaluation returns.
