//! The response envelope every endpoint answers with: a payload, a
//! message, and a code that is zero exactly on success.

use vstd::prelude::*;

use crate::error::CustomError;

verus! {

/// The envelope: `data` on success, a failure code and message otherwise.
pub struct CustomResponse<T> {
    pub data: Option<T>,
    pub message: String,
    pub code: i32,
}

impl<T> CustomResponse<T> {
    /// An envelope with the given parts.
    pub fn new(data: Option<T>, message: &str, code: i32) -> (r: Self)
        ensures
            r.data == data,
            r.message@ == message@,
            r.code == code,
    {
        CustomResponse { data, message: message.to_owned(), code }
    }

    /// The success envelope: the payload, message `OK`, code zero.
    pub fn ok(data: T) -> (r: Self)
        ensures
            r.data == Some(data),
            r.message@ == "OK"@,
            r.code == 0,
    {
        Self::new(Some(data), "OK", 0)
    }

    /// A failure envelope: no payload, the given code and message.
    pub fn failed(code: i32, msg: &str) -> (r: Self)
        ensures
            r.data is None,
            r.message@ == msg@,
            r.code == code,
    {
        Self::new(None, msg, code)
    }

    /// The failure envelope of an error: its rendered message under the
    /// given code.
    pub fn error_with_code(code: i32, e: &CustomError) -> (r: Self)
        ensures
            r.data is None,
            r.message@ == e.message_spec(),
            r.code == code,
    {
        let msg = e.message();
        Self::failed(code, msg.as_str())
    }
}

} // verus!
