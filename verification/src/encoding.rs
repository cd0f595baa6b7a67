//! An encoder for bencode. Guarantees that the output string is valid bencode
//!
//! Once an error occurs during encoding, all future calls to the same
//! encoding stream will fail early with the same error.
pub mod encoder;
pub mod error;
pub mod printable_integer;
pub mod to_bencode;

pub use self::error::{Error, ErrorView};
pub use self::printable_integer::PrintableInteger;
pub use self::encoder::{Encoder, SingleItemEncoder, SortedDictEncoder, UnsortedDictEncoder};
pub use self::to_bencode::{AsString, ToBencode};
