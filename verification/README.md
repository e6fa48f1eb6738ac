# whirlaway

A multilinear AIR prover: constraint programs, the sumcheck protocol and witness batching,
verified with Verus.

- `src/` is the library. Every function in it has a contract that Verus proves. The arithmetic
  of the KoalaBear field and of its extension of degree eight comes from Plonky3, behind small
  wrappers whose contracts are stated and trusted.
- `tests/` runs the library on concrete values, among them whole proofs that are checked the
  way a verifier checks them.
- `app/` is what touches the world: the transcript, the commitment scheme, the environment,
  the GPU backends, and the constraint builder of Plonky3.

## How a proof runs

`AirTable::prove` returns an `AirProver` and its first `AirAction`: to commit to a polynomial,
to exchange messages with the verifier, or to open the commitment. Whoever drives it performs
the action and hands the challenges back to `AirProver::advance`, which returns the next one.
A sumcheck runs the same way, as a `SumcheckRun`.

## What is proved

- A compiled program computes what the constraint expressions mean, on the host and on a
  device's flat buffers.
- A round's polynomial interpolates the sums over the hypercube, its values on the domain add
  up to the claimed sum, and a true claim stays true under every challenge.
- If every row of a table meets the constraints, every claim of the zerocheck is true, and the
  last one speaks of the values that the columns are left with.
- The claim of the inner sumcheck is true, and the opening that ends a proof is the value of
  the committed polynomial.
