# plonkish_backend

A Verus library for multilinear polynomial commitments, the shift-open protocol, and
HyperPlonk over Brakedown.

Given a commitment to a multilinear polynomial `F`, the extension of a function `f` on the
hypercube, and a public shift `k`, the shift-open protocol proves the value at a random
point of the extension of `x -> f((x + k) mod 2^n)`, without a second commitment and with
any commitment scheme that can open polynomials at points.

| Path | Contents |
| --- | --- |
| `src/util/` | field interface and the BN254 scalar field, Keccak-256 transcripts, linear codes, expressions |
| `src/poly/` | the hypercube, multilinear extensions and cyclic shifts |
| `src/piop/` | sum-check and shift-open |
| `src/pcs/` | the interface of commitment schemes, Brakedown with its Merkle trees, common openings under commitments that combine |
| `src/backend/` | circuits, HyperPlonk over Brakedown, shift claims |
| `src/transform/` | what a converted circuit adds |
| `app/` | the conversion of zkWasm circuits |
| `tests/` | tests, among them the shift-open protocol over Zeromorph |

Contracts are stated over transcripts: a transcript has a model, which says how challenges
are drawn and items are spelled, and a state, the events so far and the proof. A prover's
contract says which state it leaves, also where it fails, and a verifier's which states it
accepts. The
modules named `laws`, and the proof functions named `law_..`, relate the two: whoever reads
what an honest prover writes accepts it, and gets the values that were claimed.

What is trusted stands in `src/util/bn256.rs` (the arithmetic of `halo2curves`),
`src/util/hash.rs` (Keccak-256 of `sha3`), `src/util/text.rs`, `src/lib.rs` and
`src/pcs/multilinear/brakedown.rs` (three functions of the standard library).
