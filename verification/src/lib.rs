//! Core of a turn-based multiplayer game backend: rooms of 2 to 4 players
//! advance through synchronization rounds in which each member submits
//! reports and actions and receives the union of the round's events.
//!
//! The crate holds the verified coordination logic: the per-round phase
//! state machine (`sync_record`), room membership and the synchronization
//! barrier (`room`), the process-wide room registry (`room_list`), and the
//! session registry (`session`). Transport, authentication and timers live
//! outside; they hand the library plain values (ids as `u128`, monotonic
//! milliseconds as `u64`) and get plain values back.
#![allow(non_camel_case_types)]

use vstd::prelude::*;

pub mod numbers;
pub mod outside;
pub mod room;
pub mod room_list;
pub mod session;
pub mod sync_record;

verus! {

/// Error kinds of the library, each mapping to one HTTP status.
#[derive(Debug)]
pub enum AgError {
    BadRequestError(String),
    UnauthorizedError(String),
    NotFoundError(String),
    ForbiddenError(String),
    TooManyRequestsError(String),
}

/// True when `e` is a bad-request error carrying message `m`.
pub open spec fn is_bad_request(e: AgError, m: Seq<char>) -> bool {
    &&& e is BadRequestError
    &&& e->BadRequestError_0@ == m
}

/// True when `e` is an unauthorized error carrying message `m`.
pub open spec fn is_unauthorized(e: AgError, m: Seq<char>) -> bool {
    &&& e is UnauthorizedError
    &&& e->UnauthorizedError_0@ == m
}

/// True when `e` is a not-found error carrying message `m`.
pub open spec fn is_not_found(e: AgError, m: Seq<char>) -> bool {
    &&& e is NotFoundError
    &&& e->NotFoundError_0@ == m
}

/// True when `e` is a forbidden error carrying message `m`.
pub open spec fn is_forbidden(e: AgError, m: Seq<char>) -> bool {
    &&& e is ForbiddenError
    &&& e->ForbiddenError_0@ == m
}

/// True when `e` is a too-many-requests error carrying message `m`.
pub open spec fn is_too_many_requests(e: AgError, m: Seq<char>) -> bool {
    &&& e is TooManyRequestsError
    &&& e->TooManyRequestsError_0@ == m
}

impl AgError {
    pub fn bad_request_error(msg: &str) -> (r: Self)
        ensures
            is_bad_request(r, msg@),
    {
        AgError::BadRequestError(msg.to_owned())
    }

    pub fn unauthorized_error(msg: &str) -> (r: Self)
        ensures
            is_unauthorized(r, msg@),
    {
        AgError::UnauthorizedError(msg.to_owned())
    }

    pub fn not_found_error(msg: &str) -> (r: Self)
        ensures
            is_not_found(r, msg@),
    {
        AgError::NotFoundError(msg.to_owned())
    }

    pub fn forbidden_error(msg: &str) -> (r: Self)
        ensures
            is_forbidden(r, msg@),
    {
        AgError::ForbiddenError(msg.to_owned())
    }

    pub fn too_many_requests_error(msg: &str) -> (r: Self)
        ensures
            is_too_many_requests(r, msg@),
    {
        AgError::TooManyRequestsError(msg.to_owned())
    }

    /// The HTTP status this error maps to.
    pub fn http_status(&self) -> (r: u16)
        ensures
            r == match *self {
                AgError::BadRequestError(_) => 400u16,
                AgError::UnauthorizedError(_) => 401u16,
                AgError::NotFoundError(_) => 404u16,
                AgError::ForbiddenError(_) => 403u16,
                AgError::TooManyRequestsError(_) => 429u16,
            },
    {
        match self {
            AgError::BadRequestError(_) => 400,
            AgError::UnauthorizedError(_) => 401,
            AgError::NotFoundError(_) => 404,
            AgError::ForbiddenError(_) => 403,
            AgError::TooManyRequestsError(_) => 429,
        }
    }

    /// The human-facing message carried by the error.
    pub fn message(&self) -> (r: &str)
        ensures
            r@ == match *self {
                AgError::BadRequestError(m) => m@,
                AgError::UnauthorizedError(m) => m@,
                AgError::NotFoundError(m) => m@,
                AgError::ForbiddenError(m) => m@,
                AgError::TooManyRequestsError(m) => m@,
            },
    {
        match self {
            AgError::BadRequestError(m) => m.as_str(),
            AgError::UnauthorizedError(m) => m.as_str(),
            AgError::NotFoundError(m) => m.as_str(),
            AgError::ForbiddenError(m) => m.as_str(),
            AgError::TooManyRequestsError(m) => m.as_str(),
        }
    }
}

} // verus!
