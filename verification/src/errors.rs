use vstd::prelude::*;

verus! {

/// Error value shared by every fallible operation of the library.
///
/// The variants follow the semantic categories of the protocol: a failed
/// socket or filesystem operation, a broken chunk frame, an unparsable
/// control message, a protocol-level state inconsistency, a channel whose
/// peer went away, and a free-form message.
#[derive(Debug)]
pub enum GenericError {
    IoFailure(String),
    FramingError(String),
    DecodeError(String),
    StateError(String),
    ResourceError(String),
    CustomError(String),
}

/// Builds the free-form variant from a message, as callers outside the
/// library do when no structured category fits.
pub fn new_custom_error(message: &str) -> (e: GenericError)
    ensures
        e matches GenericError::CustomError(m) && m@ == message@,
{
    GenericError::CustomError(message.to_owned())
}

} // verus!
