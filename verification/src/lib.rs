//! Encodes and decodes bencoded structures.
//!
//! The decoder is zero-copy and rejects every invalid encoding, including
//! the non-canonical ones. The encoder only produces valid structures. Both
//! drive the same [`state_tracker::StateTracker`], so both enforce one grammar.
//!
//! - [`state_tracker`]: the tokens, the grammar over them, and its errors.
//! - [`decoding`]: the decoder, its views on lists and dictionaries, and
//!   the typed layer [`decoding::FromBencode`].
//! - [`encoding`]: the encoder and the typed layer [`encoding::ToBencode`].
//! - [`round_trip`]: what holds between the two: what is written is read
//!   back, and what is read is written again as it was.
//! - [`value`]: a value that holds any bencode.
//! - [`inspect`]: a tree of bencode that can be changed into what is not
//!   valid any more, and ways into it.
//! - [`scalars`]: how truth values, floating-point bits and characters are
//!   carried by integers and byte strings.
//! - [`text`]: decimal numerals and the order of byte strings.
pub mod decoding;
pub mod encoding;
pub mod inspect;
pub mod round_trip;
pub mod scalars;
pub mod state_tracker;
pub mod text;
pub mod value;
