use vstd::prelude::*;

verus! {

/// Two device timestamps further apart than this (five hours, in
/// milliseconds) belong to different trips.
pub const TRIP_GAP_MILLIS: i64 = 18_000_000;

/// One GPS sample as stored: immutable once written.
///
/// Coordinates, altitude, speed and horizontal dilution of precision are
/// carried as IEEE-754 `f64` bit patterns: the library never computes on
/// them, it only keeps them exactly as they were reported.
pub struct TrackingPoint {
    /// The owner's 128-bit identifier.
    pub owner: u128,
    pub lat_bits: u64,
    pub lon_bits: u64,
    pub altitude_bits: u64,
    /// Bearing, stored verbatim in whatever format the device sent.
    pub bearing: String,
    pub speed_bits: u64,
    /// Absent when the device did not report it.
    pub hdop_bits: Option<u64>,
    /// Device-reported instant, in milliseconds since the Unix epoch.
    pub timestamp: i64,
    /// Instant at which the store accepted the point, in milliseconds since
    /// the Unix epoch.
    pub received_at: i64,
}

impl TrackingPoint {
    /// A field-by-field copy of the point.
    pub fn duplicate(&self) -> (r: TrackingPoint)
        ensures
            r == *self,
    {
        TrackingPoint {
            owner: self.owner,
            lat_bits: self.lat_bits,
            lon_bits: self.lon_bits,
            altitude_bits: self.altitude_bits,
            bearing: self.bearing.clone(),
            speed_bits: self.speed_bits,
            hdop_bits: self.hdop_bits,
            timestamp: self.timestamp,
            received_at: self.received_at,
        }
    }
}

} // verus!
