use vstd::prelude::*;
use crate::credential::{verify_outcome, Registry};
use crate::error::{AuthError, IngestError, ValidationError};
use crate::ids::{id_of_text, instant_representable, now_millis, MAX_INSTANT_MILLIS, MIN_INSTANT_MILLIS};
use crate::point::TrackingPoint;
use crate::query::{parse_owner_id, TripQuery};
use crate::trip::{
    active_trip, active_trip_of, lemma_trip_point_returned, newest_first_order, trip_boundary,
    trip_filter,
};

verus! {

/// One sample as a device reports it, before validation. Floating-point
/// readings are carried as IEEE-754 `f64` bit patterns.
pub struct PointReport {
    /// The owner identifier in its 26-digit text form.
    pub owner: String,
    pub lat_bits: u64,
    pub lon_bits: u64,
    pub altitude_bits: u64,
    pub bearing: String,
    pub speed_bits: u64,
    pub hdop_bits: Option<u64>,
    /// Device time, in milliseconds since the Unix epoch.
    pub timestamp: i64,
}

/// What is wrong with a report, if anything.
pub open spec fn report_error(report: PointReport) -> Option<ValidationError> {
    if id_of_text(report.owner@) is None {
        Some(ValidationError::MalformedOwnerId)
    } else if !(MIN_INSTANT_MILLIS <= report.timestamp <= MAX_INSTANT_MILLIS) {
        Some(ValidationError::TimestampOutOfRange)
    } else {
        None
    }
}

/// The owner a well-formed report names.
pub open spec fn report_owner(report: PointReport) -> u128 {
    id_of_text(report.owner@)->Some_0
}

/// The record a well-formed report becomes when received at `received_at`.
pub open spec fn stored_point(report: PointReport, received_at: i64) -> TrackingPoint {
    TrackingPoint {
        owner: report_owner(report),
        lat_bits: report.lat_bits,
        lon_bits: report.lon_bits,
        altitude_bits: report.altitude_bits,
        bearing: report.bearing,
        speed_bits: report.speed_bits,
        hdop_bits: report.hdop_bits,
        timestamp: report.timestamp,
        received_at,
    }
}

impl PointReport {
    /// Validates the report and turns it into a record received at
    /// `received_at`.
    pub fn into_point(self, received_at: i64) -> (r: Result<TrackingPoint, ValidationError>)
        ensures
            match report_error(self) {
                Some(e) => r == Err::<TrackingPoint, ValidationError>(e),
                None => r == Ok::<TrackingPoint, ValidationError>(stored_point(self, received_at)),
            },
    {
        let owner = match parse_owner_id(self.owner.as_str()) {
            Ok(id) => id,
            Err(e) => return Err(e),
        };
        if !instant_representable(self.timestamp) {
            return Err(ValidationError::TimestampOutOfRange);
        }
        Ok(
            TrackingPoint {
                owner,
                lat_bits: self.lat_bits,
                lon_bits: self.lon_bits,
                altitude_bits: self.altitude_bits,
                bearing: self.bearing,
                speed_bits: self.speed_bits,
                hdop_bits: self.hdop_bits,
                timestamp: self.timestamp,
                received_at,
            },
        )
    }
}

/// What an ingest call of `report` with `credential` yields against the
/// identities `registry`: validation comes first, then the credential, which
/// is always required.
pub open spec fn ingest_outcome(
    registry: Seq<crate::credential::Identity>,
    report: PointReport,
    credential: Option<&str>,
) -> Result<(), IngestError> {
    match report_error(report) {
        Some(e) => Err(IngestError::Invalid(e)),
        None => if credential matches Some(c) && verify_outcome(registry, report_owner(report), c@)
            is Ok {
            Ok(())
        } else {
            Err(IngestError::Unauthorized)
        },
    }
}

/// The receipt instant of a point that arrives at `now` after the latest
/// receipt `latest`: receipts never go back in time.
pub open spec fn receipt_time(latest: i64, now: i64) -> i64 {
    if now > latest {
        now
    } else {
        latest
    }
}

/// The receipt instant for a point arriving at `now` when the latest receipt
/// handed out so far is `latest`.
pub fn next_receipt(latest: i64, now: i64) -> (r: i64)
    ensures
        r == receipt_time(latest, now),
{
    if now > latest {
        now
    } else {
        latest
    }
}

/// Keeps the points of one owner.
pub open spec fn owned_by(owner: u128) -> spec_fn(TrackingPoint) -> bool {
    |p: TrackingPoint| p.owner == owner
}

/// The points of `owner` among `s`, in stored order.
pub open spec fn owner_history(s: Seq<TrackingPoint>, owner: u128) -> Seq<TrackingPoint> {
    s.filter(owned_by(owner))
}

/// Receipt instants never decrease along `s`.
pub open spec fn receipts_ordered(s: Seq<TrackingPoint>) -> bool {
    forall|i: int, j: int| 0 <= i < j < s.len() ==> s[i].received_at <= s[j].received_at
}

/// Append-only storage of tracking points; a stored point is never changed
/// or removed.
pub struct PointStore {
    points: Vec<TrackingPoint>,
    latest: i64,
}

impl View for PointStore {
    type V = Seq<TrackingPoint>;

    closed spec fn view(&self) -> Seq<TrackingPoint> {
        self.points@
    }
}

impl PointStore {
    /// The latest receipt instant handed out so far.
    pub closed spec fn latest_receipt(&self) -> i64 {
        self.latest
    }

    /// Receipts are in order and none is later than the latest receipt.
    pub open spec fn wf(&self) -> bool {
        &&& receipts_ordered(self@)
        &&& forall|i: int| 0 <= i < self@.len() ==> self@[i].received_at <= self.latest_receipt()
    }

    pub fn new() -> (r: PointStore)
        ensures
            r@ == Seq::<TrackingPoint>::empty(),
            r.wf(),
    {
        PointStore { points: Vec::new(), latest: i64::MIN }
    }

    /// The number of stored points.
    pub fn len(&self) -> (r: usize)
        ensures
            r == self@.len(),
    {
        self.points.len()
    }

    /// The `i`-th stored point.
    pub fn point(&self, i: usize) -> (r: &TrackingPoint)
        requires
            i < self@.len(),
        ensures
            *r == self@[i as int],
    {
        &self.points[i]
    }

    /// Ingests a report arriving at `now`: validates it, checks the owner's
    /// credential, and appends exactly one record on success.
    pub fn append_at(
        &mut self,
        registry: &Registry,
        report: PointReport,
        credential: Option<&str>,
        now: i64,
    ) -> (r: Result<(), IngestError>)
        requires
            old(self).wf(),
            registry.wf(),
        ensures
            final(self).wf(),
            r == ingest_outcome(registry@, report, credential),
            r is Ok ==> final(self)@ == old(self)@.push(
                stored_point(report, receipt_time(old(self).latest_receipt(), now)),
            ),
            r is Err ==> final(self)@ == old(self)@,
    {
        let received_at = next_receipt(self.latest, now);
        let point = match report.into_point(received_at) {
            Ok(p) => p,
            Err(e) => return Err(IngestError::Invalid(e)),
        };
        let authorized = match credential {
            Some(c) => registry.verify(point.owner, c),
            None => Err(AuthError::Unauthorized),
        };
        if authorized.is_err() {
            return Err(IngestError::Unauthorized);
        }
        self.points.push(point);
        self.latest = received_at;
        Ok(())
    }

    /// Ingests a report stamped with the current instant.
    pub fn append(&mut self, registry: &Registry, report: PointReport, credential: Option<&str>) -> (r:
        Result<(), IngestError>)
        requires
            old(self).wf(),
            registry.wf(),
        ensures
            final(self).wf(),
            r == ingest_outcome(registry@, report, credential),
            r is Ok ==> final(self)@.len() == old(self)@.len() + 1 && final(self)@.drop_last() == old(
                self,
            )@ && final(self)@.last() == stored_point(report, final(self)@.last().received_at)
                && final(self)@.last().received_at >= old(self).latest_receipt(),
            r is Err ==> final(self)@ == old(self)@,
    {
        let now = now_millis();
        let ghost before = self@;
        let r = self.append_at(registry, report, credential, now);
        proof {
            if r is Ok {
                assert(self@.drop_last() =~= before);
            }
        }
        r
    }

    /// Every stored point of `owner`, in stored order.
    pub fn history(&self, owner: u128) -> (r: Vec<TrackingPoint>)
        ensures
            r@ == owner_history(self@, owner),
    {
        let mut r: Vec<TrackingPoint> = Vec::new();
        let mut i: usize = 0;
        while i < self.points.len()
            invariant
                i <= self@.len(),
                r@ == owner_history(self@.take(i as int), owner),
            decreases self@.len() - i,
        {
            proof {
                assert(self@.take(i + 1) =~= self@.take(i as int).push(self@[i as int]));
                self@.take(i as int).lemma_filter_push(self@[i as int], owned_by(owner));
            }
            if self.points[i].owner == owner {
                r.push(self.points[i].duplicate());
            }
            i += 1;
        }
        assert(self@.take(i as int) =~= self@);
        r
    }

    /// The active trip of the queried owner, reconstructed from all of its
    /// stored points.
    pub fn active_trip(&self, query: &TripQuery) -> (r: Vec<TrackingPoint>)
        ensures
            r@ == active_trip_of(
                newest_first_order(owner_history(self@, query.owner)),
                query.since,
                query.limit,
            ),
    {
        active_trip(self.history(query.owner), query.since, query.limit)
    }
}

/// Stored points never change: appending more points leaves every point
/// already stored as it was.
pub proof fn lemma_appends_keep_points(before: Seq<TrackingPoint>, added: Seq<TrackingPoint>, i: int)
    requires
        0 <= i < before.len(),
    ensures
        (before + added)[i] == before[i],
{
}

/// No write is lost: after appending `added`, an owner's history is its
/// earlier history followed by its appended points, so each of them is there.
pub proof fn lemma_no_lost_writes(before: Seq<TrackingPoint>, added: Seq<TrackingPoint>, owner: u128)
    ensures
        owner_history(before + added, owner) == owner_history(before, owner) + owner_history(
            added,
            owner,
        ),
        forall|k: int|
            0 <= k < added.len() && added[k].owner == owner ==> owner_history(
                before + added,
                owner,
            ).contains(added[k]),
{
    Seq::filter_distributes_over_add(before, added, owned_by(owner));
    assert forall|k: int| 0 <= k < added.len() && added[k].owner == owner implies owner_history(
        before + added,
        owner,
    ).contains(added[k]) by {
        (before + added).lemma_filter_contains(owned_by(owner), before.len() + k);
        assert((before + added)[before.len() + k] == added[k]);
    }
}


/// No write is lost from the query either: a point appended for `owner` is
/// in the owner's active trip whenever it belongs to that trip, is newer than
/// `since`, and the trip's points after `since` fit within `limit`.
pub proof fn lemma_written_point_queried(
    before: Seq<TrackingPoint>,
    added: Seq<TrackingPoint>,
    owner: u128,
    k: int,
    since: i64,
    limit: usize,
)
    requires
        0 <= k < added.len(),
        added[k].owner == owner,
        added[k].timestamp > since,
        added[k].timestamp >= trip_boundary(
            newest_first_order(owner_history(before + added, owner)),
        ),
        newest_first_order(owner_history(before + added, owner)).filter(
            trip_filter(
                trip_boundary(newest_first_order(owner_history(before + added, owner))),
                since,
            ),
        ).len() <= limit,
    ensures
        active_trip_of(
            newest_first_order(owner_history(before + added, owner)),
            since,
            limit,
        ).contains(added[k]),
{
    lemma_no_lost_writes(before, added, owner);
    lemma_trip_point_returned(owner_history(before + added, owner), since, limit, added[k]);
}

} // verus!
