//! The failures of the engine, each with a stable code and a message.

use vstd::prelude::*;
use vstd::string::StringExecFns;
use crate::text::{decimal, decimal_text};

verus! {

/// The error of the payload codec, `bincode::ErrorKind`: carried, never
/// looked into.
#[verifier::external_type_specification]
#[verifier::external_body]
pub struct ExEncodingErrorKind(bincode::ErrorKind);

/// The error of the JSON parser, `serde_json::Error`: carried, never looked
/// into.
#[verifier::external_type_specification]
#[verifier::external_body]
pub struct ExJsonError(serde_json::Error);

/// Every way an operation of the engine can fail.
#[derive(Debug)]
#[allow(inconsistent_fields)]
pub enum VPackError {
    /// A vector does not have the length that the index expects.
    DimensionMismatch { expected: usize, got: usize },
    /// The query was embedded with another model than the index.
    ModelMismatch { expected: String, got: String },
    /// An index was asked for without a single chunk.
    EmptyIndex,
    /// The local model weights are not the ones that the manifest pins.
    ModelHashMismatch { model: String, expected: String, got: String },
    /// The payload could not be encoded or decoded.
    Serialize(Box<bincode::ErrorKind>),
    /// The model is not known, or its configuration cannot be used.
    UnknownModel(String),
    /// The container or the manifest in it is malformed.
    InvalidFormat(String),
}

/// What the payload codec says of its error: calls `to_string`, that is
/// `Display::fmt` of `bincode::ErrorKind`.  Nothing is claimed of the text.
#[verifier::external_body]
fn encoding_error_text(error: &Box<bincode::ErrorKind>) -> (text: String) {
    error.to_string()
}

/// What the JSON parser says of its error: calls `to_string`, that is
/// `Display::fmt` of `serde_json::Error`.  Nothing is claimed of the text.
#[verifier::external_body]
fn json_error_text(error: &serde_json::Error) -> (text: String) {
    error.to_string()
}

impl VPackError {
    /// The stable code of the failure.
    pub open spec fn code_text(self) -> Seq<char> {
        match self {
            VPackError::DimensionMismatch { .. } => "DIMENSION_MISMATCH"@,
            VPackError::ModelMismatch { .. } => "MODEL_MISMATCH"@,
            VPackError::EmptyIndex => "EMPTY_INDEX"@,
            VPackError::ModelHashMismatch { .. } => "MODEL_HASH_MISMATCH"@,
            VPackError::Serialize(_) => "SERIALIZE_FAILED"@,
            VPackError::UnknownModel(_) => "UNKNOWN_MODEL"@,
            VPackError::InvalidFormat(_) => "DESERIALIZE_FAILED"@,
        }
    }

    /// How the message of the failure starts.  For every failure but one of
    /// the payload codec this is the whole message.
    pub open spec fn message_text(self) -> Seq<char> {
        match self {
            VPackError::DimensionMismatch { expected, got } => {
                "dimension mismatch: index expects "@ + decimal_text(expected as nat)
                    + "d vectors, query vector is "@ + decimal_text(got as nat) + "d"@
            },
            VPackError::ModelMismatch { expected, got } => {
                "model mismatch: index built with '"@ + expected@ + "', query uses '"@ + got@
                    + "' \u{2014} results would be meaningless. This is a hard error, not a warning."@
            },
            VPackError::EmptyIndex => "index is empty \u{2014} call build() before query()"@,
            VPackError::ModelHashMismatch { model, expected, got } => {
                "model hash mismatch for '"@ + model@ + "': manifest pins "@ + expected@
                    + ", local weights hash to "@ + got@
            },
            VPackError::Serialize(_) => "serialization failed: "@,
            VPackError::UnknownModel(detail) => "unknown or unsupported model: "@ + detail@,
            VPackError::InvalidFormat(detail) => "invalid .vpack file: "@ + detail@,
        }
    }

    /// The stable code of the failure.
    pub fn code(&self) -> (code: &'static str)
        ensures
            code@ == self.code_text(),
    {
        match self {
            VPackError::DimensionMismatch { .. } => "DIMENSION_MISMATCH",
            VPackError::ModelMismatch { .. } => "MODEL_MISMATCH",
            VPackError::EmptyIndex => "EMPTY_INDEX",
            VPackError::ModelHashMismatch { .. } => "MODEL_HASH_MISMATCH",
            VPackError::Serialize(_) => "SERIALIZE_FAILED",
            VPackError::UnknownModel(_) => "UNKNOWN_MODEL",
            VPackError::InvalidFormat(_) => "DESERIALIZE_FAILED",
        }
    }

    /// The message of the failure.  After a failure of the payload codec the
    /// codec's own words follow the start that is stated here.
    pub fn message(&self) -> (message: String)
        ensures
            !(self is Serialize) ==> message@ == self.message_text(),
            self is Serialize ==> self.message_text().is_prefix_of(message@),
    {
        match self {
            VPackError::DimensionMismatch { expected, got } => {
                let expected_text = decimal(*expected);
                let got_text = decimal(*got);
                String::from_str("dimension mismatch: index expects ").concat(
                    expected_text.as_str(),
                ).concat("d vectors, query vector is ").concat(got_text.as_str()).concat("d")
            },
            VPackError::ModelMismatch { expected, got } => {
                String::from_str("model mismatch: index built with '").concat(
                    expected.as_str(),
                ).concat("', query uses '").concat(got.as_str()).concat(
                    "' \u{2014} results would be meaningless. This is a hard error, not a warning.",
                )
            },
            VPackError::EmptyIndex => String::from_str(
                "index is empty \u{2014} call build() before query()",
            ),
            VPackError::ModelHashMismatch { model, expected, got } => {
                String::from_str("model hash mismatch for '").concat(model.as_str()).concat(
                    "': manifest pins ",
                ).concat(expected.as_str()).concat(", local weights hash to ").concat(got.as_str())
            },
            VPackError::Serialize(error) => {
                let detail = encoding_error_text(error);
                let message = String::from_str("serialization failed: ").concat(detail.as_str());
                assert(message@.subrange(0, "serialization failed: "@.len() as int)
                    == "serialization failed: "@);
                message
            },
            VPackError::UnknownModel(detail) => String::from_str(
                "unknown or unsupported model: ",
            ).concat(detail.as_str()),
            VPackError::InvalidFormat(detail) => String::from_str("invalid .vpack file: ").concat(
                detail.as_str(),
            ),
        }
    }

    /// The failure as it crosses a host boundary: the code, a bar, the
    /// message.
    pub fn wire_text(&self) -> (text: String)
        ensures
            (self.code_text() + "|"@ + self.message_text()).is_prefix_of(text@),
            !(self is Serialize) ==> text@ == self.code_text() + "|"@ + self.message_text(),
    {
        let message = self.message();
        let text = String::from_str(self.code()).concat("|").concat(message.as_str());
        proof {
            let head = self.code_text() + "|"@;
            let start = self.message_text();
            assert(message@.subrange(0, start.len() as int) == start);
            assert(text@.subrange(0, (head + start).len() as int) == head + start);
        }
        text
    }

    /// A request of a host that is no JSON, as it crosses the boundary back:
    /// the code of a malformed container, a bar, and the parser's words.
    pub fn host_json_text(error: &serde_json::Error) -> (text: String)
        ensures
            "DESERIALIZE_FAILED|invalid JSON: "@.is_prefix_of(text@),
    {
        let detail = json_error_text(error);
        let text = String::from_str("DESERIALIZE_FAILED|invalid JSON: ").concat(detail.as_str());
        assert(text@.subrange(0, "DESERIALIZE_FAILED|invalid JSON: "@.len() as int)
            == "DESERIALIZE_FAILED|invalid JSON: "@);
        text
    }

    /// A malformed manifest: the parser's error as a failure of the
    /// container.
    pub fn invalid_json(error: &serde_json::Error) -> (failure: VPackError)
        ensures
            failure is InvalidFormat,
    {
        VPackError::InvalidFormat(json_error_text(error))
    }

    /// A configuration that cannot be read: the parser's error as an unknown
    /// model.
    pub fn unreadable_config(error: &serde_json::Error) -> (failure: VPackError)
        ensures
            failure is UnknownModel,
    {
        VPackError::UnknownModel(json_error_text(error))
    }
}

impl From<Box<bincode::ErrorKind>> for VPackError {
    fn from(error: Box<bincode::ErrorKind>) -> (failure: VPackError) {
        VPackError::Serialize(error)
    }
}

impl vstd::std_specs::convert::FromSpecImpl<Box<bincode::ErrorKind>> for VPackError {
    open spec fn obeys_from_spec() -> bool {
        true
    }

    open spec fn from_spec(error: Box<bincode::ErrorKind>) -> VPackError {
        VPackError::Serialize(error)
    }
}

} // verus!
