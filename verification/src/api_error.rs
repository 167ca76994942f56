//! The error answer of the HTTP layer: a status code and the message that
//! goes in the JSON body's `error` field.

use vstd::prelude::*;
use vstd::string::StringExecFns;

verus! {

/// An HTTP error answer.
#[derive(Debug)]
pub struct ApiError {
    pub status: u16,
    pub message: String,
}

/// `e` is the answer with this status and message.
pub open spec fn is_error(e: ApiError, status: u16, message: Seq<char>) -> bool {
    e.status == status && e.message@ == message
}

/// `r` is an error with this status and message.
pub open spec fn fails_with<T>(r: Result<T, ApiError>, status: u16, message: Seq<char>) -> bool {
    r is Err && is_error(r->Err_0, status, message)
}

/// 400 Bad Request with `msg`.
pub fn bad_request(msg: &str) -> (r: ApiError)
    ensures
        is_error(r, 400, msg@),
{
    ApiError { status: 400, message: String::from_str(msg) }
}

/// 401 Unauthorized with `msg`.
pub fn unauthorized(msg: &str) -> (r: ApiError)
    ensures
        is_error(r, 401, msg@),
{
    ApiError { status: 401, message: String::from_str(msg) }
}

/// 404 Not Found with `msg`.
pub fn not_found(msg: &str) -> (r: ApiError)
    ensures
        is_error(r, 404, msg@),
{
    ApiError { status: 404, message: String::from_str(msg) }
}

/// 403 Forbidden with `msg`.
pub fn forbidden(msg: &str) -> (r: ApiError)
    ensures
        is_error(r, 403, msg@),
{
    ApiError { status: 403, message: String::from_str(msg) }
}

/// 500 Internal Server Error with `msg`.
pub fn internal_error(msg: &str) -> (r: ApiError)
    ensures
        is_error(r, 500, msg@),
{
    ApiError { status: 500, message: String::from_str(msg) }
}

} // verus!
