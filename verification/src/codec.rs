//! The binary codec: the value model, its canonical key order, and the
//! decoder and encoder for the Bencodex wire format.

pub mod convert;
pub mod decode;
pub mod dict;
pub mod encode;
pub mod number;
pub mod order;
pub mod props;
pub mod types;
