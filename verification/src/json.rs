//! The JSON bridge: a lossless two-way mapping between Bencodex values
//! and JSON, resolving the type ambiguity JSON cannot express natively.

pub mod codes;
pub mod decode;
pub mod encode;
pub mod props;
pub mod value;

pub use decode::{from_json, from_json_string, JsonDecodeError};
pub use encode::{to_json, to_json_with_options, BinaryEncoding, JsonEncodeOptions};
