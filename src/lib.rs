//! A bencode codec: decoding bytes into values, canonical encoding back to
//! bytes, and conversion to a text-keyed interchange form.

pub mod decimal;
pub mod decode;
pub mod encode;
pub mod json;
pub mod laws;
pub mod model;

pub use decode::{decode, decode_prefix};
pub use encode::encode;
pub use json::{decode_bencoded_value, to_json, Json};
pub use model::{DecodeError, Value};
