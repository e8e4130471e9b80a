//! Encoder and decoder for the Azam codec: a lexicographically sortable,
//! multi-section, base16-style text encoding of byte sequences.

/// The two symbol alphabets and the symbol-to-nybble table.
pub mod alphabet;

/// Decoding functions for the Azam codec.
pub mod decode;

/// Encoding functions for the Azam codec.
pub mod encode;

/// The error type shared by all decoding functions.
pub mod error;

/// Laws relating encoding and decoding, proved once and for all.
pub mod laws;

/// Byte/nybble arithmetic used by the encoder and decoder specifications.
pub mod nybbles;
