//! Fixed-width integers as little-endian bit vectors, and the boolean gate
//! circuits that compute on them.
//!
//! - `bits`: the model of a bit vector (unsigned and two's-complement value).
//! - `uint`, `signed`: the value types and their conversions to native integers.
//! - `circuit`: gates, circuits, what a circuit computes, and the executor.
//! - `builder`: one growing circuit with its inputs; bitwise gates, the
//!   multiplexer and constant wires.
//! - `arith`: addition, subtraction, comparison, multiplication and division
//!   circuits.
//! - `ops`: bitwise operations and shifts on values, run as circuits.
//! - `frontend`: expressions, their meaning, and their lowering into a circuit.
//! - `laws`: how the circuits' results relate to native integer arithmetic.
pub mod bits;
pub mod circuit;
pub mod builder;
pub mod uint;
pub mod signed;
pub mod ops;
pub mod arith;
pub mod laws;
pub mod frontend;
