//! The ways in which an archiving run fails.

use vstd::prelude::*;

verus! {

/// The error type of `std::io`. Nothing is known of a value but its identity.
#[verifier::external_type_specification]
#[verifier::external_body]
pub struct ExIoError(std::io::Error);

/// The error type of the `zip` crate. Nothing is known of a value but its
/// identity.
#[verifier::external_type_specification]
#[verifier::external_body]
pub struct ExZipError(zip::result::ZipError);

/// Why an archiving run stopped before the archive was complete. The first
/// failure ends the run: nothing is retried and nothing written so far is
/// taken back.
#[derive(Debug)]
pub enum ArchiveError {
    /// A directory could not be listed, or an entry could not be inspected or
    /// read. Holds the cause.
    Filesystem(std::io::Error),
    /// The archive writer refused to begin an entry, to take its bytes or to
    /// finalize the archive. Holds the cause.
    Sink(zip::result::ZipError),
    /// The run was given an event that does not answer the action it had
    /// asked for.
    UnexpectedEvent,
}

} // verus!
