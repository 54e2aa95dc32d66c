use vstd::prelude::*;

verus! {

/// A request field that is malformed or out of range; reported before any
/// stored state is touched.
#[derive(Clone, Copy, Debug, PartialEq, Eq, Structural)]
pub enum ValidationError {
    /// The owner identifier is not 26 Crockford base-32 digits.
    MalformedOwnerId,
    /// The device timestamp lies outside the representable instants.
    TimestampOutOfRange,
    /// The lower time bound of a query lies outside the representable instants.
    SinceOutOfRange,
    /// A query asked for a negative number of points.
    NegativeLimit,
}

/// The single, uniform refusal of a credential: an unknown owner, a malformed
/// stored hash and a wrong secret all look alike.
#[derive(Clone, Copy, Debug, PartialEq, Eq, Structural)]
pub enum AuthError {
    Unauthorized,
}

/// Why an ingest call stored nothing.
#[derive(Clone, Copy, Debug, PartialEq, Eq, Structural)]
pub enum IngestError {
    Invalid(ValidationError),
    Unauthorized,
}

/// Why a registration produced no identity.
#[derive(Clone, Copy, Debug, PartialEq, Eq, Structural)]
pub enum RegisterError {
    /// The fresh identifier is already taken.
    IdCollision,
    /// The credential hash could not be computed.
    HashFailure,
}

} // verus!
