//! Fixed-point numbers of 256 bits, 132 of them after the binary point,
//! stored as eight little-endian 32-bit words in two's complement.
//!
//! Addition, subtraction and negation are exact modulo 2^256; products and
//! quotients are rounded toward zero; shifts act on the bit pattern.
use vstd::prelude::*;

pub mod words;
pub mod fixed;
pub mod basic_ops;
pub mod shift;
pub mod division;
pub mod assign;
pub mod conversion;
pub mod order;
pub mod constants;
pub mod laws;
pub mod audio;
pub mod text;

pub use crate::constants::{pow_mod, pow_mod_inner, pow_mod_inner_wide};
pub use crate::fixed::{ArbitraryFixed, SCALING_FACTOR, SIZE};

verus! {

} // verus!
