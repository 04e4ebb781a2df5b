//! Arbitrary-precision integers on a small-value-optimized representation.
//!
//! The crate provides unsigned ([`UBig`]) and signed ([`IBig`]) big integers
//! built from 64-bit words.  Values that fit in one word are stored inline;
//! larger values live in a growable word buffer with a compact capacity
//! policy.  The word-level arithmetic kernels (add/sub with carry,
//! multiply-add of a word, chunked schoolbook multiplication) and the
//! radix-aware string parser are verified against the numeric value of the
//! word sequences they manipulate.

pub mod arith;
pub mod primitive;
pub mod buffer;
pub mod ubig;
pub mod add;
pub mod mul;
pub mod sign;
pub mod simple_mul;
pub mod error;
pub mod radix;
pub mod power_two;
pub mod non_power_two;
pub mod ibig;
pub mod parse;
pub mod laws;

pub use buffer::Buffer;
pub use error::ParseError;
pub use ibig::IBig;
pub use sign::Sign;
pub use ubig::Repr;
pub use ubig::UBig;
