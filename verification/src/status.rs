//! The HTTP statuses that the service answers with.
//!
//! They are the constants of the `http` crate, which `warp` hands on as
//! `warp::http`. A `StatusCode` is opaque to Verus, so contracts speak of
//! its number. What this module says of the constants is read off the
//! `http` crate and taken on trust: none of it is proved.

use vstd::prelude::*;
use warp::http::StatusCode;

verus! {

/// `StatusCode` of the `http` crate: an HTTP status. Verus sees nothing
/// inside it; `status_number` stands for the number it holds.
#[verifier::external_type_specification]
#[verifier::external_body]
pub struct ExStatusCode(warp::http::StatusCode);

/// The number that a status stands for: what `StatusCode::as_u16` returns
/// for it, 404 for `StatusCode::NOT_FOUND`.
pub uninterp spec fn status_number(status: StatusCode) -> u16;

/// `StatusCode::OK`, which the `http` crate declares with the number 200.
#[verifier::external_body]
pub(crate) fn ok() -> (status: StatusCode)
    ensures
        status_number(status) == 200,
{
    StatusCode::OK
}

/// `StatusCode::CREATED`, which the `http` crate declares with the number
/// 201.
#[verifier::external_body]
pub(crate) fn created() -> (status: StatusCode)
    ensures
        status_number(status) == 201,
{
    StatusCode::CREATED
}

/// `StatusCode::NO_CONTENT`, which the `http` crate declares with the
/// number 204.
#[verifier::external_body]
pub(crate) fn no_content() -> (status: StatusCode)
    ensures
        status_number(status) == 204,
{
    StatusCode::NO_CONTENT
}

/// `StatusCode::BAD_REQUEST`, which the `http` crate declares with the
/// number 400.
#[verifier::external_body]
pub(crate) fn bad_request() -> (status: StatusCode)
    ensures
        status_number(status) == 400,
{
    StatusCode::BAD_REQUEST
}

/// `StatusCode::NOT_FOUND`, which the `http` crate declares with the number
/// 404.
#[verifier::external_body]
pub(crate) fn not_found() -> (status: StatusCode)
    ensures
        status_number(status) == 404,
{
    StatusCode::NOT_FOUND
}

} // verus!
