//! Decoder for the Ethereum contract ABI binary encoding.
//!
//! A buffer of 32-byte words is read against a list of declared parameter
//! types and turned into a list of tokens. Every read is bounds-checked, every
//! followed offset is validated, and the strict mode also checks padding and
//! that the whole buffer was consumed.

pub mod types;
pub mod word;
pub mod decoder;
pub mod laws;

pub use types::{Error, ParamType, Token, Value, Word};

pub use decoder::{decode, decode_impl, decode_validate, Fault};
