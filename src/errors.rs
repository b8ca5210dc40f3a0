use vstd::prelude::*;

verus! {

/// Serialization and deserialization errors
#[derive(Debug, Copy, Clone, PartialEq, Eq, Structural)]
pub enum Error {
    SerializeSequenceMustHaveLength,
    BufferOverflow,
    BufferUnderflow,
    PrematureEndOfInput,
    InvalidByteSequenceEscape,
    DeserializeAnyNotSupported,
    DeserializeIdentifierNotSupported,
    DeserializeIgnoredAny,
    InvalidUtf8Encoding,
    InvalidTagEncoding,
    InvalidVarintEncoding,
}

/// Human-readable description of each error kind.
pub open spec fn error_text(e: Error) -> &'static str {
    match e {
        Error::SerializeSequenceMustHaveLength => "serialized sequence must have length",
        Error::BufferOverflow => "serialized data buffer overflow",
        Error::BufferUnderflow => "serialized data buffer underflow",
        Error::PrematureEndOfInput => "premature end of input",
        Error::InvalidByteSequenceEscape => "invalid byte sequence escaping",
        Error::DeserializeAnyNotSupported => "deserialize to any type not supported",
        Error::DeserializeIdentifierNotSupported => "deserialize of identifiers not supported",
        Error::DeserializeIgnoredAny => "deserialize of ignored any not supported",
        Error::InvalidUtf8Encoding => "invalid UTF-8 encoding",
        Error::InvalidTagEncoding => "invalid encoding for enum tag",
        Error::InvalidVarintEncoding => "invalid varint encoding",
    }
}

impl Error {
    /// Description of the error, as shown to users.
    pub fn descr(&self) -> (r: &'static str)
        ensures
            r == error_text(*self),
    {
        match self {
            Error::SerializeSequenceMustHaveLength => "serialized sequence must have length",
            Error::BufferOverflow => "serialized data buffer overflow",
            Error::BufferUnderflow => "serialized data buffer underflow",
            Error::PrematureEndOfInput => "premature end of input",
            Error::InvalidByteSequenceEscape => "invalid byte sequence escaping",
            Error::DeserializeAnyNotSupported => "deserialize to any type not supported",
            Error::DeserializeIdentifierNotSupported => "deserialize of identifiers not supported",
            Error::DeserializeIgnoredAny => "deserialize of ignored any not supported",
            Error::InvalidUtf8Encoding => "invalid UTF-8 encoding",
            Error::InvalidTagEncoding => "invalid encoding for enum tag",
            Error::InvalidVarintEncoding => "invalid varint encoding",
        }
    }
}

} // verus!
