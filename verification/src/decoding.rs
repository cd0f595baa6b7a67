//! Decodes a bencoded struct
//!
//! A [`Decoder`] reads a byte slice token by token, or object by object.
//! Once an error is encountered, the decoder does not try to muddle through
//! it: every later call returns the same error.
pub mod decoder;
pub mod error;
pub mod from_bencode;
pub mod object;
pub mod syntax;

pub use self::error::{Error, ErrorKind, ErrorKindView, ErrorView, ResultExt};
pub use self::decoder::{Decoder, DictDecoder, ListDecoder, Reading, Tokens};
pub use self::object::Object;
pub use self::from_bencode::FromBencode;
