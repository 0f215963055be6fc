# ml-dsa

ML-DSA (FIPS 204), the NIST post-quantum signature scheme, written in Verus: every
function of the library carries a `requires`/`ensures` contract, and Verus proves the
code against it.

## Layout

- `src/` — the verified library.
  - arithmetic: `field`, `ntt`, `ntt_arith`, `poly`, `vecops`, `rounding`, `hint`, `ct`
  - sampling and expansion: `sample`, `expand`, `hash` (SHAKE through the `sha3` crate)
  - encoding: `encoding`, `serdes`, `hex`
  - operations: `keygen`, `sign`, `verify`, `signer`, `prehash`, and the per-set
    front ends `ml_dsa_44`, `ml_dsa_65`, `ml_dsa_87`
  - analysis targets: `bench`, `leakage`, `fault`, and `kat` (the per-case checks of
    the ACVP known-answer vectors)
  - models and proofs: `model` (coefficients as integer sequences), `ntt_algebra`
    (the NTT as evaluation, the convolution theorem), `correctness` (a signature
    made by `sign_internal` verifies under the matching public key)
- `tests/` — example-based tests run against the compiled library.
- `app/` — the parts that touch the outside world: the KAT runner (reads the JSON
  vectors from disk), signing with a random `rnd` from the operating system, and an
  error type with `Display`.

## What is proved

- Each operation meets the FIPS 204 algorithm it implements, stated over integer
  models of polynomials and byte strings; the optimised paths (`*_fast`, Montgomery
  NTT, the reusable `Signer`, the branchless `_ct` primitives) are proved equal to
  the reference ones.
- Encodings round-trip (`pk`, `sk`, signature, hints, bit packing), and decoders
  accept exactly the canonical encodings.
- `NTT⁻¹(NTT(a) ∘ NTT(b))` is the negacyclic product of `a` and `b`.
- For any key pair made by `key_gen_internal`, a signature returned by
  `sign_internal` is accepted by `verify_internal` under the public key.

SHAKE-128/256 and the SHA-2/SHA-3 digests are called through small trusted wrappers
whose results are named by uninterpreted functions.
