//! The error taxonomy and the numeric code each class reports.

use vstd::prelude::*;

verus! {

/// Everything a request can fail with. Each variant carries the message
/// the failure surfaces.
#[derive(Debug)]
pub enum CustomError {
    /// A persistence failure, surfaced with its underlying message.
    Database(String),
    /// A missing, malformed, badly signed or expired token.
    Jwt(String),
    /// A form field constraint failure.
    Validation(String),
    /// A malformed form body.
    FormRejection(String),
    /// A file write failure during upload.
    Io(String),
    /// The catch-all, such as a login against no matching user.
    Other(String),
}

impl CustomError {
    /// The numeric code of the error class: auth and database failures
    /// have reserved codes, everything else is the generic failure.
    pub open spec fn code_spec(&self) -> int {
        match self {
            CustomError::Jwt(_) => 9527,
            CustomError::Database(_) => 9528,
            _ => -1,
        }
    }

    /// The message an error renders to: auth failures render as
    /// `Unauthorized`, every other class is transparent to its carried
    /// message.
    pub open spec fn message_spec(&self) -> Seq<char> {
        match self {
            CustomError::Jwt(_) => "Unauthorized"@,
            CustomError::Database(m) => m@,
            CustomError::Validation(m) => m@,
            CustomError::FormRejection(m) => m@,
            CustomError::Io(m) => m@,
            CustomError::Other(m) => m@,
        }
    }

    /// The numeric code of this error.
    pub fn code(&self) -> (r: i32)
        ensures
            r == self.code_spec(),
    {
        match self {
            CustomError::Jwt(_) => 9527,
            CustomError::Database(_) => 9528,
            _ => -1,
        }
    }

    /// The rendered message of this error.
    pub fn message(&self) -> (r: String)
        ensures
            r@ == self.message_spec(),
    {
        match self {
            CustomError::Jwt(_) => "Unauthorized".to_owned(),
            CustomError::Database(m) => m.clone(),
            CustomError::Validation(m) => m.clone(),
            CustomError::FormRejection(m) => m.clone(),
            CustomError::Io(m) => m.clone(),
            CustomError::Other(m) => m.clone(),
        }
    }
}

} // verus!
