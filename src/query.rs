use vstd::prelude::*;
use crate::error::ValidationError;
use crate::ids::{id_from_text, id_of_text, instant_representable, MAX_INSTANT_MILLIS, MIN_INSTANT_MILLIS};

verus! {

/// How many points a query returns when it does not say.
pub const DEFAULT_LIMIT: usize = 2000;

/// A validated request for an owner's active trip.
#[derive(Clone, Copy, Debug, PartialEq, Eq, Structural)]
pub struct TripQuery {
    pub owner: u128,
    /// Only points strictly newer than this (milliseconds since the epoch).
    pub since: i64,
    /// At most this many points.
    pub limit: usize,
}

/// The limit a query asks for, once it is known not to be negative.
pub open spec fn effective_limit(limit: Option<i64>) -> int {
    match limit {
        None => DEFAULT_LIMIT as int,
        Some(l) => if l <= usize::MAX {
            l as int
        } else {
            usize::MAX as int
        },
    }
}

/// Parses an owner identifier from its text form.
pub fn parse_owner_id(text: &str) -> (r: Result<u128, ValidationError>)
    ensures
        match id_of_text(text@) {
            Some(id) => r == Ok::<u128, ValidationError>(id),
            None => r == Err::<u128, ValidationError>(ValidationError::MalformedOwnerId),
        },
{
    match id_from_text(text) {
        Some(id) => Ok(id),
        None => Err(ValidationError::MalformedOwnerId),
    }
}

/// Validates the parameters of a trip query and fills in the defaults: no
/// lower time bound beyond the epoch, and a limit of 2000 points.
pub fn parse_trip_query(user_id: &str, later_than_epoch: Option<i64>, limit: Option<i64>) -> (r:
    Result<TripQuery, ValidationError>)
    ensures
        id_of_text(user_id@) is None ==> r == Err::<TripQuery, ValidationError>(
            ValidationError::MalformedOwnerId,
        ),
        id_of_text(user_id@) is Some && !(MIN_INSTANT_MILLIS <= later_than_epoch.unwrap_or(0)
            <= MAX_INSTANT_MILLIS) ==> r == Err::<TripQuery, ValidationError>(
            ValidationError::SinceOutOfRange,
        ),
        id_of_text(user_id@) is Some && MIN_INSTANT_MILLIS <= later_than_epoch.unwrap_or(0)
            <= MAX_INSTANT_MILLIS && limit.unwrap_or(0) < 0 ==> r == Err::<
            TripQuery,
            ValidationError,
        >(ValidationError::NegativeLimit),
        id_of_text(user_id@) is Some && MIN_INSTANT_MILLIS <= later_than_epoch.unwrap_or(0)
            <= MAX_INSTANT_MILLIS && limit.unwrap_or(0) >= 0 ==> r == Ok::<
            TripQuery,
            ValidationError,
        >(
            (TripQuery {
                owner: id_of_text(user_id@)->Some_0,
                since: later_than_epoch.unwrap_or(0),
                limit: effective_limit(limit) as usize,
            }),
        ),
{
    let owner = match parse_owner_id(user_id) {
        Ok(id) => id,
        Err(e) => return Err(e),
    };
    let since: i64 = match later_than_epoch {
        Some(s) => s,
        None => 0,
    };
    if !instant_representable(since) {
        return Err(ValidationError::SinceOutOfRange);
    }
    let lim: usize = match limit {
        None => DEFAULT_LIMIT,
        Some(l) => {
            if l < 0 {
                return Err(ValidationError::NegativeLimit);
            }
            if (l as u64) <= (usize::MAX as u64) {
                l as usize
            } else {
                usize::MAX
            }
        },
    };
    Ok(TripQuery { owner, since, limit: lim })
}

} // verus!
