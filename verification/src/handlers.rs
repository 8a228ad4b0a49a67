//! How a request ends for the one who made it.
//!
//! Whatever went wrong behind the boundary, a failure says no more than that
//! there was one.

use crate::codec::Record;
use crate::worker::{CreateRequest, LookupRequest, OpError};
use vstd::prelude::*;

verus! {

/// How a request to create ends.
#[derive(Clone, Debug, PartialEq, Eq)]
pub enum CreateOutcome {
    /// The record is stored. The request is handed back as it was made.
    Accepted(CreateRequest),
    /// The worker failed, or gave no reply.
    InternalFailure,
}

/// How a lookup ends.
#[derive(Clone, Debug, PartialEq, Eq)]
pub enum LookupOutcome {
    /// The record of the phone number.
    Found(Record),
    /// The phone number has no record.
    NotFound,
    /// The worker failed, or gave no reply.
    InternalFailure,
}

/// The request to create the record of `phone_number` with the two names.
pub fn create_request(phone_number: String, first_name: String, last_name: String) -> (r:
    CreateRequest)
    ensures
        r == (CreateRequest { phone_number, first_name, last_name }),
{
    CreateRequest { phone_number, first_name, last_name }
}

/// The request to look up the record of `phone_number`.
pub fn lookup_request(phone_number: String) -> (r: LookupRequest)
    ensures
        r == (LookupRequest { phone_number }),
{
    LookupRequest { phone_number }
}

/// How a request to create ends, given the worker's reply, or `None` where
/// the worker gave none: accepted where the worker succeeded, and a failure
/// otherwise.
pub fn create_outcome(request: CreateRequest, reply: Option<Result<(), OpError>>) -> (r:
    CreateOutcome)
    ensures
        r == (match reply {
            Some(Ok(_)) => CreateOutcome::Accepted(request),
            _ => CreateOutcome::InternalFailure,
        }),
{
    match reply {
        Some(Ok(_)) => CreateOutcome::Accepted(request),
        _ => CreateOutcome::InternalFailure,
    }
}

/// How a lookup ends, given the worker's reply, or `None` where the worker
/// gave none: the record found, not found where the worker found none, and a
/// failure otherwise.
pub fn lookup_outcome(reply: Option<Result<Option<Record>, OpError>>) -> (r: LookupOutcome)
    ensures
        r == (match reply {
            Some(Ok(Some(record))) => LookupOutcome::Found(record),
            Some(Ok(None)) => LookupOutcome::NotFound,
            _ => LookupOutcome::InternalFailure,
        }),
{
    match reply {
        Some(Ok(Some(record))) => LookupOutcome::Found(record),
        Some(Ok(None)) => LookupOutcome::NotFound,
        _ => LookupOutcome::InternalFailure,
    }
}

} // verus!
