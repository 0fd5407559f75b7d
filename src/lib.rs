//! Decoder for Syrup, a length-prefixed, self-delimiting text encoding of
//! booleans, integers, byte strings, strings, symbols, dictionaries,
//! sequences, sets and records.
//!
//! `grammar` states what each input decodes to, `decode` computes it and is
//! proved to agree, and `laws` proves properties of the grammar.
pub mod decode;
pub mod grammar;
pub mod laws;
pub mod value;

pub use decode::{decode, from_str};
pub use grammar::DecodeError;
pub use value::{SValue, Value};
