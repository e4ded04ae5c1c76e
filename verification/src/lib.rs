//! A Verus library for CircomV1-compatible witness generation and Groth16
//! proof generation over BN254.

pub mod ark_codec;
pub mod ast;
pub mod bigint;
pub mod circuit;
pub mod codec;
pub mod curve;
pub mod field;
pub mod value;
pub mod interpreter;
pub mod keys;
pub mod persistence;
pub mod prove;
pub mod rt_ctx;
pub mod semantics;
pub mod strmap;
pub mod text;
pub mod witness;
