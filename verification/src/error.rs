//! The failure type of the insult generator.

use vstd::prelude::*;
use vstd::std_specs::convert::FromSpecImpl;
use vstd::string::*;

verus! {

/// `std::io::Error`, carried through opaquely.
#[verifier::external_type_specification]
#[verifier::external_body]
pub struct ExIoError(std::io::Error);

/// `serde_json::Error`, carried through opaquely.
#[verifier::external_type_specification]
#[verifier::external_body]
pub struct ExJsonError(serde_json::Error);

/// Every way in which loading phrases or exporting insults can fail.
#[derive(Debug)]
pub enum InsultError {
    /// A file could not be read or written.
    IoError(std::io::Error),
    /// The field separator could not be built.
    ParseError(String),
    /// The export could not be encoded.
    JsonError(serde_json::Error),
    /// The phrase text breaks the three-fields-per-line format.
    InvalidFormat(String),
}

impl From<std::io::Error> for InsultError {
    fn from(error: std::io::Error) -> (e: Self) {
        InsultError::IoError(error)
    }
}

impl FromSpecImpl<std::io::Error> for InsultError {
    open spec fn obeys_from_spec() -> bool {
        true
    }

    open spec fn from_spec(error: std::io::Error) -> Self {
        InsultError::IoError(error)
    }
}

impl From<serde_json::Error> for InsultError {
    fn from(error: serde_json::Error) -> (e: Self) {
        InsultError::JsonError(error)
    }
}

impl FromSpecImpl<serde_json::Error> for InsultError {
    open spec fn obeys_from_spec() -> bool {
        true
    }

    open spec fn from_spec(error: serde_json::Error) -> Self {
        InsultError::JsonError(error)
    }
}

impl InsultError {
    /// The words that the message of each kind of error begins with.
    pub open spec fn prefix(&self) -> Seq<char> {
        match self {
            InsultError::IoError(_) => "IO error: "@,
            InsultError::ParseError(_) => "Parse error: "@,
            InsultError::JsonError(_) => "JSON error: "@,
            InsultError::InvalidFormat(_) => "Invalid format: "@,
        }
    }

    /// The error as one line of text: the kind of error, then its detail.
    ///
    /// The detail of an I/O or JSON error is what that error prints as.
    pub fn message(&self) -> (text: String)
        ensures
            self.prefix().is_prefix_of(text@),
            match self {
                InsultError::IoError(e) => exists|detail: String|
                    #[trigger] to_string_from_display_ensures::<std::io::Error>(e, detail)
                        && text@ == self.prefix() + detail@,
                InsultError::JsonError(e) => exists|detail: String|
                    #[trigger] to_string_from_display_ensures::<serde_json::Error>(e, detail)
                        && text@ == self.prefix() + detail@,
                InsultError::ParseError(detail) | InsultError::InvalidFormat(detail) => text@
                    == self.prefix() + detail@,
            },
    {
        match self {
            InsultError::IoError(e) => "IO error: ".to_owned().concat(e.to_string().as_str()),
            InsultError::ParseError(detail) => "Parse error: ".to_owned().concat(detail.as_str()),
            InsultError::JsonError(e) => "JSON error: ".to_owned().concat(e.to_string().as_str()),
            InsultError::InvalidFormat(detail) => "Invalid format: ".to_owned().concat(
                detail.as_str(),
            ),
        }
    }
}

} // verus!
