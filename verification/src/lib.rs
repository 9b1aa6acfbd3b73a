//! Encoding primitives every layer shares: how a format's characters and
//! bytes are written and read back, never what they mean.

use vstd::prelude::*;

pub mod base64;
pub mod char_reader;
pub mod civil;
pub mod crc;
pub mod cursor;
pub mod hex;
pub mod mime;
pub mod sha1;
pub mod sql;
pub mod text;
pub mod toml;
pub mod unicode;
pub mod utf16;
pub mod varint;
pub mod xml;

verus! {

/// Why text or bytes are not the encoding they claim to be.
#[derive(Clone, Debug, PartialEq, Eq)]
pub struct CodecError {
    /// What was wrong, in words.
    pub message: String,
}

impl CodecError {
    /// A failure saying `message`.
    pub fn new(message: String) -> (e: Self)
        ensures
            e.message@ == message@,
    {
        CodecError { message }
    }
}

} // verus!
