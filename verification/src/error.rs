//! Why a decode attempt was abandoned.

use vstd::prelude::*;

verus! {

/// The error type of the byte source. Nothing is known of a value of it; the
/// decoders only hand it on.
#[verifier::external_type_specification]
#[verifier::external_body]
pub struct ExIoError(std::io::Error);

/// The ways in which decoding one event can fail.
#[derive(Debug)]
pub enum ParseError {
    /// The bytes form no sequence that is recognised: an unknown lead or
    /// final byte, a parameter that is no number, too few or too many
    /// parameters, or a code that has no meaning.
    InvalidInput,
    /// The source ran dry in the middle of a sequence.
    UnexpectedEof,
    /// The bytes of a character are not well-formed UTF-8.
    InvalidEncoding,
    /// The source itself reported an error, carried here as it came.
    Source(std::io::Error),
}

} // verus!
