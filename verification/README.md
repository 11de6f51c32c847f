# contort — verified deformed Reed–Solomon codes

`contort` builds deformed Reed–Solomon codes: twisted, folded, interleaved,
punctured, Möbius-transformed and extended (Roth–Lempel) generalized
Reed–Solomon codes, together with the canonical transform descriptor that
reduces a word of deformations to a constant-size normal form. The library is
written in Verus: every function carries a `requires`/`ensures` contract that
Verus proves.

## Layout

- `src/` — the verified library.
  - `field.rs`, `primes.rs`: the `Field` interface and prime fields, with the
    ring laws in `FieldAxioms`.
  - `binary_field.rs`, `gf256_arith.rs`: GF(2^8) under the AES polynomial; its
    arithmetic comes from `fgf`, is stated as the shift-and-XOR product, and
    satisfies `FieldAxioms`.
  - `tower_field.rs`: GF(2^16) as the quadratic tower over GF(2^8) that `fgf`
    implements, also with `FieldAxioms`.
  - `polynomial.rs`, `division.rs`, `interpolation.rs`, `linear.rs`:
    coefficient-sequence polynomials, long division, Lagrange interpolation and
    Gauss–Jordan elimination.
  - `grs.rs`, `reference.rs`, `test_oracle.rs`: plain GRS codes with an
    exhaustive Guruswami–Sudan reference decoder and an enumeration oracle.
  - `code.rs`, `decode.rs`, `puncture.rs`, `extend.rs`, `roth_lempel.rs`,
    `mobius.rs`, `mobius_decode.rs`, `folded.rs`, `interleaved.rs`: the code
    families, their encoders, and the reductions of their decoders to an
    ambient GRS list decoder (received-word normalization and candidate
    filtering).
  - `descriptor.rs`, `sorting.rs`, `bytes.rs`: transform words, their
    reduction to canonical descriptors, and the wire format.
  - `laws.rs`, `polynomial_laws.rs`, `compression.rs`, `distance.rs`,
    `lossless.rs`, `mobius_laws.rs`: the library's laws as proof functions.
- `tests/` — executable tests against the compiled library.
- `app/` — the list-decoding glue around the Guruswami–Sudan engine, and the
  error types with `Display`.
