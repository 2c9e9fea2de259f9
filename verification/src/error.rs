//! The failures that the library reports.

use vstd::prelude::*;
use vstd::string::StringExecFns;

verus! {

/// Why an operation on envelopes or on the store failed.
#[derive(Debug, Clone, PartialEq, Eq)]
pub enum Error {
    /// The envelope cannot be encoded: an index key occurs twice, or a
    /// length or count does not fit its 32-bit prefix.
    InvalidEnvelope(String),
    /// A digest supplied with bytes is not the digest of those bytes.
    HashMismatch { expected: String, actual: String },
    /// No object is stored under the digest, given in hex.
    NotFound(String),
    /// The storage backend failed.
    Storage(String),
    /// Encoded bytes are truncated or malformed; the text names the field
    /// at which reading stopped.
    Serialization(String),
}

impl Error {
    /// Whether this is the refusal of an envelope that is not well formed.
    pub open spec fn is_refusal(self) -> bool {
        self matches Error::InvalidEnvelope(text) && text@ == refusal_text()
    }

    /// Whether this is a `Serialization` error that says `text`.
    pub open spec fn is_unreadable(self, text: Seq<char>) -> bool {
        self matches Error::Serialization(said) && said@ == text
    }

    /// What the error says: its kind, then its detail.
    pub open spec fn spec_message(self) -> Seq<char> {
        match self {
            Error::InvalidEnvelope(text) => "Invalid envelope: "@ + text@,
            Error::HashMismatch { expected, actual } => "Hash mismatch: expected "@ + expected@
                + ", got "@ + actual@,
            Error::NotFound(text) => "Object not found: "@ + text@,
            Error::Storage(text) => "Storage error: "@ + text@,
            Error::Serialization(text) => "Serialization error: "@ + text@,
        }
    }

    /// What the error says: its kind, then its detail.
    pub fn message(&self) -> (text: String)
        ensures
            text@ == self.spec_message(),
    {
        match self {
            Error::InvalidEnvelope(text) => String::from_str("Invalid envelope: ").concat(
                text.as_str(),
            ),
            Error::HashMismatch { expected, actual } => String::from_str(
                "Hash mismatch: expected ",
            ).concat(expected.as_str()).concat(", got ").concat(actual.as_str()),
            Error::NotFound(text) => String::from_str("Object not found: ").concat(text.as_str()),
            Error::Storage(text) => String::from_str("Storage error: ").concat(text.as_str()),
            Error::Serialization(text) => String::from_str("Serialization error: ").concat(
                text.as_str(),
            ),
        }
    }

    /// The refusal of an envelope that is not well formed.
    pub fn refusal() -> (e: Self)
        ensures
            e.is_refusal(),
    {
        Error::InvalidEnvelope(String::from_str("a repeated index key or an oversized field"))
    }
}

/// What the refusal of an envelope that is not well formed says.
pub open spec fn refusal_text() -> Seq<char> {
    "a repeated index key or an oversized field"@
}

} // verus!
