use vstd::prelude::*;
use crate::ast::SchemaParseError;
use crate::walker::DecodeError;

verus! {

/// Why reading a container or decoding its body failed.
#[derive(Debug, Clone, PartialEq, Eq)]
pub enum Error {
    /// No line ending with `WN` was found.
    MagicNotFound,
    /// The input ended inside the header.
    HeaderEof,
    /// A header line has no `=`.
    InvalidHeaderLine,
    /// A required header field is absent; it holds the field's name.
    MissingField(String),
    /// The `data_size` field is not a decimal integer.
    InvalidDataSize,
    /// The body is shorter than `data_size` says.
    BodyTooShort { read: usize, expected: usize },
    /// The body is not valid gzip data; the decoder's message.
    GzipFailed(String),
    /// The body is not valid bzip2 data; the decoder's message.
    Bzip2Failed(String),
    /// The `compress_type` field names no known codec; it holds the value.
    UnknownCompressType(Vec<u8>),
    /// The `format` field does not parse; the error and the field's text.
    Schema(SchemaParseError, Vec<u8>),
    /// The body does not decode against the schema.
    Decode(DecodeError),
}

} // verus!
