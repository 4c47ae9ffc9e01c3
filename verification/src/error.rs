//! Errors.

use crate::text::joined;
use std::string::FromUtf8Error;
use vstd::prelude::*;
use vstd::string::to_string_from_display_ensures;

verus! {

/// The standard library's report on bytes that are not UTF-8; carried along.
#[verifier::external_type_specification]
#[verifier::external_body]
pub struct ExFromUtf8Error(FromUtf8Error);

/// The JSON reader's report on a malformed document; carried along.
#[verifier::external_type_specification]
#[verifier::external_body]
pub struct ExJsonError(serde_json::Error);

/// What can go wrong.
#[derive(Debug)]
pub enum TtsError {
    /// UTF-8 decoding error.
    FromUtf8(FromUtf8Error),
    /// JSON error.
    SerdeJson(serde_json::Error),
    /// Configuration or input error.
    Config(String),
    /// A varint breaks off.
    EndOfVarint(String),
    /// Invalid wire type.
    InvalidWireType(String),
    /// Model produced no audio frames.
    NoAudioGenerated,
    /// Varint too long.
    VarintTooLong(String),
    /// A field reaches beyond the end of its message.
    Overrun(String),
    /// A configuration lacks a field, or holds something else in it.
    Malformed(String),
}

/// What a message says behind the common heading.
pub open spec fn describes(e: TtsError, detail: Seq<char>) -> bool {
    match e {
        TtsError::FromUtf8(e) => exists|s: String|
            #[trigger] to_string_from_display_ensures(&e, s) && detail == s@,
        TtsError::SerdeJson(e) => exists|s: String|
            #[trigger] to_string_from_display_ensures(&e, s) && detail == s@,
        TtsError::Config(m) => detail == "ConfigError: "@ + m@,
        TtsError::EndOfVarint(m) => detail == "EndOfVarintError: "@ + m@,
        TtsError::InvalidWireType(m) => detail == "InvalidWireTypeError: "@ + m@,
        TtsError::NoAudioGenerated => detail
            == "NoAudioGeneratedError: no audio frames generated"@,
        TtsError::VarintTooLong(m) => detail == "VarintTooLongError: "@ + m@,
        TtsError::Overrun(m) => detail == "OverrunError: "@ + m@,
        TtsError::Malformed(m) => detail == "MalformedError: "@ + m@,
    }
}

impl TtsError {
    /// The error in words.
    pub fn message(&self) -> (r: String)
        ensures
            exists|detail: Seq<char>| describes(*self, detail) && r@ == "TtsError: "@ + detail,
    {
        let detail = match self {
            TtsError::FromUtf8(e) => e.to_string(),
            TtsError::SerdeJson(e) => e.to_string(),
            TtsError::Config(m) => joined("ConfigError: ", m.as_str()),
            TtsError::EndOfVarint(m) => joined("EndOfVarintError: ", m.as_str()),
            TtsError::InvalidWireType(m) => joined("InvalidWireTypeError: ", m.as_str()),
            TtsError::NoAudioGenerated => "NoAudioGeneratedError: no audio frames generated".to_owned(),
            TtsError::VarintTooLong(m) => joined("VarintTooLongError: ", m.as_str()),
            TtsError::Overrun(m) => joined("OverrunError: ", m.as_str()),
            TtsError::Malformed(m) => joined("MalformedError: ", m.as_str()),
        };
        proof {
            assert(describes(*self, detail@));
        }
        joined("TtsError: ", detail.as_str())
    }
}

} // verus!
