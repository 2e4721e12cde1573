//! Bencode: values, encoding and decoding.

pub mod grammar;
pub mod laws;
pub mod model;
pub mod parser;
pub mod reading;
pub mod span;
pub mod value;

pub use grammar::BencodeError;
pub use parser::{decode, BencodeParser};
pub use span::{find_raw_dict_value, value_span, LookupError, SpanError};
pub use value::{BencodeDict, BencodeValue};
