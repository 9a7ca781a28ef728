//! Arbitrary-precision signed integers stored as decimal digits.
//!
//! Every value is modelled by the mathematical integer it denotes, and every
//! operation is specified by what it does to that integer.

pub mod arith;
pub mod big_number;
pub mod convert;
pub mod digits;
pub mod error;
pub mod laws;
pub mod order;
pub mod power;
pub mod text;

pub use big_number::BigNumber;
pub use error::BigNumberError;
