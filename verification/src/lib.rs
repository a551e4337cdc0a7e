//! A codec for the Bencodex binary serialization format, together with a
//! lossless bridge between Bencodex values and JSON text.
//!
//! The value model is the [`BencodexValue`] tree; dictionaries are keyed
//! by [`BencodexKey`] and kept in the canonical key order the binary
//! encoding requires. Decoding and encoding are specified against a
//! mathematical model of the wire grammar; the round-trip laws are proved
//! in `codec::props` and `json::props`.

mod ascii;
pub mod codec;
pub mod json;
mod strings;

pub use codec::decode::{Decode, DecodeError};
pub use codec::dict::dict_insert;
pub use codec::encode::{encode_key, encode_to_bytes, Encode, Sink};
pub use codec::number::BencodexNumber;
pub use codec::order::{compare_key, compare_vector};
pub use codec::types::{
    BencodexDictionary, BencodexKey, BencodexList, BencodexValue, BENCODEX_NULL,
};
