use vstd::prelude::*;

verus! {

/// Errors surfaced by operations on the relational store.
#[derive(Clone, Copy, Debug, PartialEq, Eq, Structural)]
pub enum DbError {
    AlreadyExists,
    WrongCredentials,
    FailedToConvertRow,
    FailedToAdd,
    NotFound,
    InternalError,
}

/// Errors surfaced while producing or checking a bearer token.
#[derive(Clone, Copy, Debug, PartialEq, Eq, Structural)]
pub enum JwtError {
    NoAuthHeader,
    InvalidAuthHeader,
    TokenCreation,
    InvalidToken,
}

/// Outcome of the authorization gate that runs ahead of every protected
/// route.
#[derive(Clone, Copy, Debug, PartialEq, Eq, Structural)]
pub enum AuthError {
    Unauthorized,
    Forbidden,
}

/// HTTP status code for a gate rejection: a missing, unparsable, badly
/// signed or sessionless token is 401; a live caller whose role does not
/// meet the route's is 403.
pub fn status_for_auth_error(e: AuthError) -> (s: u16)
    ensures
        e == AuthError::Unauthorized ==> s == 401,
        e == AuthError::Forbidden ==> s == 403,
{
    match e {
        AuthError::Unauthorized => 401,
        AuthError::Forbidden => 403,
    }
}

/// HTTP status code for a store error, distinguishing authentication
/// failures (401) and client errors (400, 404) from internal faults (500).
pub fn status_for_db_error(e: DbError) -> (s: u16)
    ensures
        s == spec_status_for_db_error(e),
{
    match e {
        DbError::AlreadyExists => 400,
        DbError::WrongCredentials => 401,
        DbError::NotFound => 404,
        DbError::FailedToConvertRow => 500,
        DbError::FailedToAdd => 500,
        DbError::InternalError => 500,
    }
}

pub open spec fn spec_status_for_db_error(e: DbError) -> u16 {
    match e {
        DbError::AlreadyExists => 400u16,
        DbError::WrongCredentials => 401u16,
        DbError::NotFound => 404u16,
        DbError::FailedToConvertRow => 500u16,
        DbError::FailedToAdd => 500u16,
        DbError::InternalError => 500u16,
    }
}

} // verus!
