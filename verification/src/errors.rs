//! The ways in which a failover run can go wrong.

use vstd::prelude::*;

verus! {

/// What went wrong.
#[derive(Clone, Copy, Debug, PartialEq, Eq, Structural)]
pub enum FailoverError {
    /// A query or a lookup of a resource failed.
    ResourceAccessError,
    /// The resource that was asked for does not exist.
    ResourceNotFound,
    /// The watched service has no selector to find its pods by.
    SelectorMissing,
    /// A pod has no status yet, or no address in it.
    StatusMissing,
    /// The metrics of one endpoint could not be had.
    FetchError,
    /// A record of a metrics payload holds no number.
    ParseError,
    /// The update of the traffic split was turned down.
    PatchRejected,
}

/// Whether an error ends the run. Trouble with one pod, one endpoint or one
/// line is passed over; trouble with finding the resources at the start, or
/// with the final update, ends the run.
pub open spec fn fatal(error: FailoverError) -> bool {
    match error {
        FailoverError::ResourceAccessError => true,
        FailoverError::ResourceNotFound => true,
        FailoverError::SelectorMissing => true,
        FailoverError::PatchRejected => true,
        FailoverError::StatusMissing => false,
        FailoverError::FetchError => false,
        FailoverError::ParseError => false,
    }
}

/// The part of the run in which a call to the platform failed.
#[derive(Clone, Copy, Debug, PartialEq, Eq, Structural)]
pub enum ApiCall {
    /// Looking up a service, its pods or the traffic split.
    Read,
    /// Updating the traffic split.
    Patch,
}

/// The error that a failed call stands for: a failed update is a rejected
/// patch; a failed read is a missing resource where the platform answered
/// with status 404, and a failed access otherwise.
pub open spec fn error_for(call: ApiCall, status: Option<u16>) -> FailoverError {
    match call {
        ApiCall::Patch => FailoverError::PatchRejected,
        ApiCall::Read => {
            if status == Some(404u16) {
                FailoverError::ResourceNotFound
            } else {
                FailoverError::ResourceAccessError
            }
        },
    }
}

impl FailoverError {
    /// Tells whether the error ends the run.
    pub fn is_fatal(&self) -> (r: bool)
        ensures
            r == fatal(*self),
    {
        match self {
            FailoverError::ResourceAccessError => true,
            FailoverError::ResourceNotFound => true,
            FailoverError::SelectorMissing => true,
            FailoverError::PatchRejected => true,
            FailoverError::StatusMissing => false,
            FailoverError::FetchError => false,
            FailoverError::ParseError => false,
        }
    }

    /// A short name for the error, for messages.
    pub fn describe(&self) -> (name: &'static str)
        ensures
            name@ == match *self {
                FailoverError::ResourceAccessError => "resource access error"@,
                FailoverError::ResourceNotFound => "resource not found"@,
                FailoverError::SelectorMissing => "selector missing"@,
                FailoverError::StatusMissing => "status missing"@,
                FailoverError::FetchError => "fetch error"@,
                FailoverError::ParseError => "parse error"@,
                FailoverError::PatchRejected => "patch rejected"@,
            },
    {
        match self {
            FailoverError::ResourceAccessError => "resource access error",
            FailoverError::ResourceNotFound => "resource not found",
            FailoverError::SelectorMissing => "selector missing",
            FailoverError::StatusMissing => "status missing",
            FailoverError::FetchError => "fetch error",
            FailoverError::ParseError => "parse error",
            FailoverError::PatchRejected => "patch rejected",
        }
    }
}

/// Names the error that a failed call to the platform stands for.
pub fn classify_failure(call: ApiCall, status: Option<u16>) -> (error: FailoverError)
    ensures
        error == error_for(call, status),
{
    match call {
        ApiCall::Patch => FailoverError::PatchRejected,
        ApiCall::Read => {
            match status {
                Some(code) => {
                    if code == 404 {
                        FailoverError::ResourceNotFound
                    } else {
                        FailoverError::ResourceAccessError
                    }
                },
                None => FailoverError::ResourceAccessError,
            }
        },
    }
}

} // verus!
