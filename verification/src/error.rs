//! Errors reported while writing or reading the store format.

use vstd::prelude::*;

verus! {

/// Makes std's `io::Error` known to Verus as an opaque type, so that `StoreError` can
/// carry it.
#[verifier::external_type_specification]
#[verifier::external_body]
pub struct ExIoError(std::io::Error);

/// Represents errors that can occur during serialization or deserialization
/// using the Store format.
#[derive(Debug)]
pub enum StoreError {
    /// An underlying I/O error occurred (the input ended before a value was complete).
    Io(std::io::Error),
    /// A general error occurred during serialization or deserialization.
    Serde(String),
}

/// Builds the error that `std::io::Read::read_exact` reports when the input ends
/// early: kind `UnexpectedEof`, message "failed to fill whole buffer".
/// Nothing is stated of the returned value: its kind and message are only seen at run time.
#[verifier::external_body]
pub(crate) fn unexpected_eof() -> std::io::Error {
    std::io::Error::new(std::io::ErrorKind::UnexpectedEof, "failed to fill whole buffer")
}

} // verus!
