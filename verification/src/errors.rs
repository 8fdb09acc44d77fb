//! The error values the two halves of the crate report.

use vstd::prelude::*;
use vstd::string::StringExecFns;

verus! {

/// Why compiling a description document failed.
#[derive(Debug)]
pub enum BuildError {
    /// The document has no member under `paths`, or a non-object one.
    PathsMissing,
    /// A path item holds a verb whose operation is not an object.
    OperationNotObject,
}

impl BuildError {
    pub open spec fn text(self) -> Seq<char> {
        match self {
            BuildError::PathsMissing => "paths missing"@,
            BuildError::OperationNotObject => "operation not object"@,
        }
    }

    /// The one-line wording of the error.
    pub fn message(&self) -> (r: String)
        ensures
            r@ == self.text(),
    {
        match self {
            BuildError::PathsMissing => String::from_str("paths missing"),
            BuildError::OperationNotObject => String::from_str("operation not object"),
        }
    }
}

/// Why binding arguments to an operation failed.  Every variant is
/// reported before any network activity.
#[derive(Debug)]
pub enum BindError {
    /// A path parameter the operation requires has no bound value.
    MissingParam { flag: String },
    /// A raw body or body file was supplied but the operation declares no
    /// body.
    BodyNotAccepted,
    /// A raw body and a body file were supplied together.
    BodyConflict,
    /// The raw body text is not well-formed JSON.
    InvalidJsonBody,
    /// The body file's contents are not well-formed JSON.
    InvalidJsonBodyFile,
    /// The operation requires a body and none could be assembled.
    BodyRequired,
    /// A single bracketed list token is not well-formed JSON.
    InvalidJsonList,
    /// A single bracketed list token parsed, but not to an array.
    ExpectedJsonArray,
    /// A token of object, array or opaque kind is not well-formed JSON.
    InvalidJsonValue { token: String },
    /// A token of boolean kind names no boolean.
    InvalidBool { token: String },
    /// A token of integer kind spells no 64-bit integer.
    InvalidInt { token: String },
    /// A token of number kind spells no number.
    InvalidNumber { token: String },
}

impl BindError {
    pub open spec fn text(self) -> Seq<char> {
        match self {
            BindError::MissingParam { flag } => "missing required param --"@ + flag@,
            BindError::BodyNotAccepted => "request does not accept a body"@,
            BindError::BodyConflict => "use only one of --body or --body-file"@,
            BindError::InvalidJsonBody => "invalid JSON body"@,
            BindError::InvalidJsonBodyFile => "invalid JSON body file"@,
            BindError::BodyRequired => "request body required"@,
            BindError::InvalidJsonList => "invalid JSON list"@,
            BindError::ExpectedJsonArray => "expected JSON array"@,
            BindError::InvalidJsonValue { token } => "invalid JSON value: "@ + token@,
            BindError::InvalidBool { token } => "invalid boolean: "@ + token@,
            BindError::InvalidInt { token } => "invalid integer: "@ + token@,
            BindError::InvalidNumber { token } => "invalid number: "@ + token@,
        }
    }

    /// The one-line wording of the error.
    pub fn message(&self) -> (r: String)
        ensures
            r@ == self.text(),
    {
        match self {
            BindError::MissingParam { flag } => {
                let mut s = String::from_str("missing required param --");
                s.append(flag.as_str());
                s
            },
            BindError::BodyNotAccepted => String::from_str("request does not accept a body"),
            BindError::BodyConflict => String::from_str("use only one of --body or --body-file"),
            BindError::InvalidJsonBody => String::from_str("invalid JSON body"),
            BindError::InvalidJsonBodyFile => String::from_str("invalid JSON body file"),
            BindError::BodyRequired => String::from_str("request body required"),
            BindError::InvalidJsonList => String::from_str("invalid JSON list"),
            BindError::ExpectedJsonArray => String::from_str("expected JSON array"),
            BindError::InvalidJsonValue { token } => {
                let mut s = String::from_str("invalid JSON value: ");
                s.append(token.as_str());
                s
            },
            BindError::InvalidBool { token } => {
                let mut s = String::from_str("invalid boolean: ");
                s.append(token.as_str());
                s
            },
            BindError::InvalidInt { token } => {
                let mut s = String::from_str("invalid integer: ");
                s.append(token.as_str());
                s
            },
            BindError::InvalidNumber { token } => {
                let mut s = String::from_str("invalid number: ");
                s.append(token.as_str());
                s
            },
        }
    }
}

} // verus!
