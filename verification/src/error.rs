//! The ways in which a run can fail before the child's own outcome counts.

use vstd::prelude::*;

verus! {

/// Why a set of store records did not resolve to an overlay.
#[derive(Debug, PartialEq, Eq)]
pub enum ResolutionError {
    /// The store returned no record at all.
    NotFound,
    /// The value of the named record is not JSON, or is JSON but no object.
    Malformed(String),
    /// In the named record, the member with the given key is not a string.
    InvalidValue(String, String),
}

/// A [`ResolutionError`] with its names as text.
pub enum ResolutionFault {
    NotFound,
    Malformed(Seq<char>),
    InvalidValue(Seq<char>, Seq<char>),
}

impl View for ResolutionError {
    type V = ResolutionFault;

    open spec fn view(&self) -> ResolutionFault {
        match self {
            ResolutionError::NotFound => ResolutionFault::NotFound,
            ResolutionError::Malformed(name) => ResolutionFault::Malformed(name@),
            ResolutionError::InvalidValue(name, key) => ResolutionFault::InvalidValue(name@, key@),
        }
    }
}

/// Why a command was not run to its end.
#[derive(Debug, PartialEq, Eq)]
pub enum LaunchError {
    /// There is no command: not even the name of a program.
    EmptyCommand,
    /// The system did not start the program; the text says why.
    SpawnFailed(String),
    /// The program started, but waiting for it failed; the text says why.
    WaitFailed(String),
}

/// A [`LaunchError`] with its cause as text.
pub enum LaunchFault {
    EmptyCommand,
    SpawnFailed(Seq<char>),
    WaitFailed(Seq<char>),
}

impl View for LaunchError {
    type V = LaunchFault;

    open spec fn view(&self) -> LaunchFault {
        match self {
            LaunchError::EmptyCommand => LaunchFault::EmptyCommand,
            LaunchError::SpawnFailed(cause) => LaunchFault::SpawnFailed(cause@),
            LaunchError::WaitFailed(cause) => LaunchFault::WaitFailed(cause@),
        }
    }
}

} // verus!
