# websnark_rs

A Verus library for CircomV1 (snarkjs) witness generation and Groth16 proof
generation over BN254, with the behaviour of each function stated in its
contract and proved.

## Layout

- `src/field.rs`, `src/codec.rs`: field elements of BN254 as canonical limbs,
  their byte layout and decimal text; arithmetic is done by `ark_bn254`.
- `src/bigint.rs`: conversions between `num_bigint::BigInt` and field elements.
- `src/value.rs`, `src/strmap.rs`, `src/text.rs`: circuit values, string-keyed
  maps and signal names.
- `src/ast.rs`, `src/semantics.rs`: the parsed witness-generation functions and
  their meaning, as spec functions over a model of the run;
  `src/persistence.rs`: no step of a run clears a signal that was set.
- `src/rt_ctx.rs`, `src/interpreter.rs`, `src/witness.rs`: the runtime context,
  the interpreter and witness generation, each proved to follow the semantics.
- `src/curve.rs`, `src/ark_codec.rs`: G1/G2 points, their snarkjs encodings and
  the encodings the curve library reads and writes.
- `src/keys.rs`, `src/prove.rs`: proving keys, the computation of `h` over the
  snarkjs FFT domain, and proof generation.
- `app/`: the command-line converter and the serde forms of the types.
- `tests/`: tests run against the real curve and big-integer libraries.

Templates are handed to the library already parsed (`ast::Function`); the
runtime context and witness generation take them next to the circuit.
