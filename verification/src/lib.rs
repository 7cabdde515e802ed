//! PFSerialize: a verified encoder / decoder for the PFBinary v1 format.

pub mod abi;
pub mod decoder;
pub mod encoder;
pub mod error;
pub mod header;
pub mod hex;
pub mod host;
pub mod laws;
pub mod limits;
pub mod normalize;
pub mod parse;
pub mod roundtrip;
pub mod string_table;
pub mod tags;
pub mod trailing;
pub mod test_host;
pub mod value;
pub mod varint;
pub mod wire;

pub use error::{Error, Result};
pub use decoder::{decode, decode_with, DecodeOptions, DEFAULT_MAX_DEPTH, DEFAULT_MAX_SIZE};
pub use encoder::{encode, encode_with, EncodeOptions, Encoder};
pub use host::{ArrayKey, Host, Scalar};
pub use value::{Key, Value};
