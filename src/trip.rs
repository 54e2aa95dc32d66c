use vstd::prelude::*;
use vstd::multiset::Multiset;
use vstd::utf8::encode_utf8;
use crate::point::{TrackingPoint, TRIP_GAP_MILLIS};

verus! {

broadcast use vstd::seq_lib::group_to_multiset_ensures, vstd::multiset::group_multiset_axioms,
    vstd::multiset::lemma_multiset_empty_len;

/// Device timestamps never increase along `s`.
pub open spec fn newest_first(s: Seq<TrackingPoint>) -> bool {
    forall|i: int, j: int| 0 <= i < j < s.len() ==> s[i].timestamp >= s[j].timestamp
}

/// `a` comes before `b` in byte-wise lexicographic order.
pub open spec fn bytes_less(a: Seq<u8>, b: Seq<u8>) -> bool
    decreases a.len(),
{
    if a.len() == 0 {
        b.len() > 0
    } else if b.len() == 0 {
        false
    } else if a[0] != b[0] {
        a[0] < b[0]
    } else {
        bytes_less(a.drop_first(), b.drop_first())
    }
}

/// An absent hdop comes before a present one; present ones by value.
pub open spec fn hdop_less(a: Option<u64>, b: Option<u64>) -> bool {
    match (a, b) {
        (None, Some(_)) => true,
        (Some(x), Some(y)) => x < y,
        _ => false,
    }
}

/// `a` is listed before `b`: it is newer, or, at equal device time, its own
/// fields come first, compared in the order owner, latitude, longitude,
/// altitude, speed, hdop, bearing (its UTF-8 bytes) and, for points alike in
/// all of these, receipt instant.
#[verifier::opaque]
pub open spec fn listed_before(a: TrackingPoint, b: TrackingPoint) -> bool {
    if a.timestamp != b.timestamp {
        a.timestamp > b.timestamp
    } else if a.owner != b.owner {
        a.owner < b.owner
    } else if a.lat_bits != b.lat_bits {
        a.lat_bits < b.lat_bits
    } else if a.lon_bits != b.lon_bits {
        a.lon_bits < b.lon_bits
    } else if a.altitude_bits != b.altitude_bits {
        a.altitude_bits < b.altitude_bits
    } else if a.speed_bits != b.speed_bits {
        a.speed_bits < b.speed_bits
    } else if a.hdop_bits != b.hdop_bits {
        hdop_less(a.hdop_bits, b.hdop_bits)
    } else if encode_utf8(a.bearing@) != encode_utf8(b.bearing@) {
        bytes_less(encode_utf8(a.bearing@), encode_utf8(b.bearing@))
    } else {
        a.received_at < b.received_at
    }
}

/// No point of `s` is listed before one that precedes it.
pub open spec fn listed_in_order(s: Seq<TrackingPoint>) -> bool {
    forall|i: int, j: int| 0 <= i < j < s.len() ==> !listed_before(s[j], s[i])
}

proof fn lemma_bytes_order(a: Seq<u8>, b: Seq<u8>, c: Seq<u8>)
    ensures
        bytes_less(a, b) ==> !bytes_less(b, a),
        bytes_less(a, b) && bytes_less(b, c) ==> bytes_less(a, c),
        a != b ==> bytes_less(a, b) || bytes_less(b, a),
    decreases a.len() + b.len() + c.len(),
{
    if a.len() > 0 && b.len() > 0 && c.len() > 0 {
        lemma_bytes_order(a.drop_first(), b.drop_first(), c.drop_first());
    } else if a.len() > 0 && b.len() > 0 {
        lemma_bytes_order(a.drop_first(), b.drop_first(), c);
    }
    if a.len() > 0 && b.len() > 0 && a[0] == b[0] && a.drop_first() == b.drop_first() {
        assert forall|k: int| 0 <= k < a.len() implies a[k] == b[k] by {
            if k > 0 {
                assert(a[k] == a.drop_first()[k - 1]);
                assert(b[k] == b.drop_first()[k - 1]);
            }
        }
        assert(a =~= b);
    }
    if a.len() == 0 && b.len() == 0 {
        assert(a =~= b);
    }
}

proof fn lemma_listed_before(a: TrackingPoint, b: TrackingPoint, c: TrackingPoint)
    ensures
        listed_before(a, b) ==> !listed_before(b, a),
        listed_before(a, c) ==> listed_before(a, b) || listed_before(b, c),
{
    let x = encode_utf8(a.bearing@);
    let y = encode_utf8(b.bearing@);
    let z = encode_utf8(c.bearing@);
    reveal(listed_before);
    lemma_bytes_order(x, y, z);
    lemma_bytes_order(y, x, z);
    lemma_bytes_order(x, z, y);
    lemma_bytes_order(y, z, x);
    lemma_bytes_order(z, x, y);
    lemma_bytes_order(z, y, x);
}

fn bytes_less_exec(a: &[u8], b: &[u8]) -> (r: bool)
    ensures
        r == bytes_less(a@, b@),
{
    let mut i: usize = 0;
    assert(a@.skip(0) =~= a@ && b@.skip(0) =~= b@);
    while i < a.len() && i < b.len() && a[i] == b[i]
        invariant
            i <= a@.len(),
            i <= b@.len(),
            bytes_less(a@, b@) == bytes_less(a@.skip(i as int), b@.skip(i as int)),
        decreases a@.len() - i,
    {
        assert(a@.skip(i as int).drop_first() =~= a@.skip(i + 1));
        assert(b@.skip(i as int).drop_first() =~= b@.skip(i + 1));
        i += 1;
    }
    if i == a.len() {
        i < b.len()
    } else if i == b.len() {
        false
    } else {
        a[i] < b[i]
    }
}

/// Whether `a` is listed before `b`.
pub fn is_listed_before(a: &TrackingPoint, b: &TrackingPoint) -> (r: bool)
    ensures
        r == listed_before(*a, *b),
{
    reveal(listed_before);
    if a.timestamp != b.timestamp {
        return a.timestamp > b.timestamp;
    }
    if a.owner != b.owner {
        return a.owner < b.owner;
    }
    if a.lat_bits != b.lat_bits {
        return a.lat_bits < b.lat_bits;
    }
    if a.lon_bits != b.lon_bits {
        return a.lon_bits < b.lon_bits;
    }
    if a.altitude_bits != b.altitude_bits {
        return a.altitude_bits < b.altitude_bits;
    }
    if a.speed_bits != b.speed_bits {
        return a.speed_bits < b.speed_bits;
    }
    match (a.hdop_bits, b.hdop_bits) {
        (None, Some(_)) => {
            return true;
        },
        (Some(_), None) => {
            return false;
        },
        (Some(x), Some(y)) => {
            if x != y {
                return x < y;
            }
        },
        (None, None) => {},
    }
    let x = a.bearing.as_str().as_bytes();
    let y = b.bearing.as_str().as_bytes();
    assert(x@ == encode_utf8(a.bearing@) && y@ == encode_utf8(b.bearing@));
    proof {
        lemma_bytes_order(x@, y@, y@);
        reveal(listed_before);
    }
    if bytes_less_exec(x, y) {
        return true;
    }
    if bytes_less_exec(y, x) {
        return false;
    }
    a.received_at < b.received_at
}

/// Where `p` goes in the listed-in-order `t`: after every point that it is
/// not listed before.
pub open spec fn insert_pos(t: Seq<TrackingPoint>, p: TrackingPoint) -> int
    decreases t.len(),
{
    if t.len() == 0 || !listed_before(p, t.last()) {
        t.len() as int
    } else {
        insert_pos(t.drop_last(), p)
    }
}

/// The history `s` in newest-first order: each point is placed, from the
/// last to the first, after every point it is not listed before, so the
/// result is listed in order and ties of device time are broken by the
/// points' own fields.
pub open spec fn newest_first_order(s: Seq<TrackingPoint>) -> Seq<TrackingPoint>
    decreases s.len(),
{
    if s.len() == 0 {
        s
    } else {
        let rest = newest_first_order(s.drop_first());
        rest.insert(insert_pos(rest, s.first()), s.first())
    }
}

proof fn lemma_insert_pos(t: Seq<TrackingPoint>, p: TrackingPoint)
    requires
        listed_in_order(t),
    ensures
        0 <= insert_pos(t, p) <= t.len(),
        forall|k: int| 0 <= k < insert_pos(t, p) ==> !listed_before(p, t[k]),
        forall|k: int| insert_pos(t, p) <= k < t.len() ==> listed_before(p, t[k]),
    decreases t.len(),
{
    if t.len() > 0 {
        let l = t.len() - 1;
        if listed_before(p, t[l]) {
            let d = t.drop_last();
            lemma_insert_pos(d, p);
            assert forall|k: int| 0 <= k < insert_pos(t, p) implies !listed_before(p, t[k]) by {
                assert(t[k] == d[k]);
            }
            assert forall|k: int| insert_pos(t, p) <= k < t.len() implies listed_before(p, t[k]) by {
                if k < l {
                    assert(t[k] == d[k]);
                }
            }
        } else {
            assert forall|k: int| 0 <= k < t.len() implies !listed_before(p, t[k]) by {
                if k < l {
                    lemma_listed_before(p, t[l], t[k]);
                }
            }
        }
    }
}

/// The newest-first order of a history is sorted newest first and holds
/// exactly the history's points.
pub proof fn lemma_newest_first_order(s: Seq<TrackingPoint>)
    ensures
        listed_in_order(newest_first_order(s)),
        newest_first(newest_first_order(s)),
        newest_first_order(s).to_multiset() == s.to_multiset(),
        newest_first_order(s).len() == s.len(),
    decreases s.len(),
{
    if s.len() > 0 {
        let rest = newest_first_order(s.drop_first());
        let p = s.first();
        lemma_newest_first_order(s.drop_first());
        lemma_insert_pos(rest, p);
        let pos = insert_pos(rest, p);
        let r = rest.insert(pos, p);
        assert forall|i: int, j: int| 0 <= i < j < r.len() implies !listed_before(r[j], r[i]) by {
            if j < pos {
            } else if j == pos {
            } else if i < pos {
                assert(r[j] == rest[j - 1]);
            } else if i == pos {
                assert(r[j] == rest[j - 1]);
                lemma_listed_before(p, rest[j - 1], p);
            } else {
                assert(r[i] == rest[i - 1] && r[j] == rest[j - 1]);
            }
        }
        assert forall|i: int, j: int| 0 <= i < j < r.len() implies r[i].timestamp
            >= r[j].timestamp by {
            assert(!listed_before(r[j], r[i]));
            reveal(listed_before);
        }
        vstd::seq_lib::lemma_multiset_commutative(seq![p], s.drop_first());
        assert(seq![p] + s.drop_first() =~= s);
        assert(seq![p] =~= Seq::<TrackingPoint>::empty().push(p));
        assert(Seq::<TrackingPoint>::empty().to_multiset() =~= Multiset::empty());
        assert(r.to_multiset() =~= s.to_multiset());
    }
}

/// Sorts points into their newest-first order (an insertion sort that takes
/// the points from the end; on a history kept oldest first each point lands
/// at the end at once).
pub fn sort_newest_first(v: Vec<TrackingPoint>) -> (r: Vec<TrackingPoint>)
    ensures
        r@ == newest_first_order(v@),
        newest_first(r@),
        r@.to_multiset() == v@.to_multiset(),
{
    let ghost s = v@;
    let mut v = v;
    let mut r: Vec<TrackingPoint> = Vec::new();
    assert(s.skip(s.len() as int) =~= Seq::<TrackingPoint>::empty());
    while v.len() > 0
        invariant
            v@.len() <= s.len(),
            v@ == s.take(v@.len() as int),
            r@ == newest_first_order(s.skip(v@.len() as int)),
        decreases v.len(),
    {
        let ghost n = v@.len() as int;
        let p = v.pop().unwrap();
        assert(s.skip(n - 1).drop_first() =~= s.skip(n));
        assert(s.skip(n - 1).first() == p);
        assert(v@ =~= s.take(n - 1));
        let mut j = r.len();
        assert(r@.take(j as int) =~= r@);
        while j > 0 && is_listed_before(&p, &r[j - 1])
            invariant
                j <= r@.len(),
                insert_pos(r@, p) == insert_pos(r@.take(j as int), p),
            decreases j,
        {
            assert(r@.take(j as int).drop_last() =~= r@.take(j - 1));
            j -= 1;
        }
        r.insert(j, p);
    }
    assert(s.skip(0) =~= s);
    proof {
        lemma_newest_first_order(s);
    }
    r
}

/// `s[i]` opens a trip: it is the oldest point of `s`, or more than the trip
/// gap separates it from its older neighbour `s[i + 1]`.
pub open spec fn is_trip_start(s: Seq<TrackingPoint>, i: int) -> bool {
    i == s.len() - 1 || s[i].timestamp - s[i + 1].timestamp > TRIP_GAP_MILLIS
}

/// The first index at or after `i` that opens a trip (the last index of `s`
/// when none before it does).
pub open spec fn first_trip_start_from(s: Seq<TrackingPoint>, i: int) -> int
    decreases s.len() - i,
{
    if i >= s.len() - 1 || is_trip_start(s, i) {
        i
    } else {
        first_trip_start_from(s, i + 1)
    }
}

/// The device timestamp of the newest trip start of a non-empty newest-first
/// history: every point of the active trip is at least this recent.
pub open spec fn trip_boundary(s: Seq<TrackingPoint>) -> i64 {
    s[first_trip_start_from(s, 0)].timestamp
}

/// Keeps the points that are no older than `boundary` and newer than `since`.
pub open spec fn trip_filter(boundary: i64, since: i64) -> spec_fn(TrackingPoint) -> bool {
    |p: TrackingPoint| p.timestamp >= boundary && p.timestamp > since
}

/// The active trip of the newest-first history `s`: its points no older than
/// the trip boundary and newer than `since`, newest first, at most `limit`.
pub open spec fn active_trip_of(s: Seq<TrackingPoint>, since: i64, limit: usize) -> Seq<
    TrackingPoint,
> {
    if s.len() == 0 {
        Seq::empty()
    } else {
        let kept = s.filter(trip_filter(trip_boundary(s), since));
        if kept.len() <= limit {
            kept
        } else {
            kept.take(limit as int)
        }
    }
}

/// First pass: marks, for each point of a newest-first list, whether it opens
/// a trip.
pub fn trip_start_flags(s: &Vec<TrackingPoint>) -> (r: Vec<bool>)
    ensures
        r@.len() == s@.len(),
        forall|i: int| 0 <= i < s@.len() ==> r@[i] == is_trip_start(s@, i),
{
    let mut r: Vec<bool> = Vec::new();
    let n = s.len();
    let mut i: usize = 0;
    while i < n
        invariant
            n == s@.len(),
            i <= n,
            r@.len() == i,
            forall|k: int| 0 <= k < i ==> r@[k] == is_trip_start(s@, k),
        decreases n - i,
    {
        let start = if i + 1 == n {
            true
        } else {
            (s[i].timestamp as i128) - (s[i + 1].timestamp as i128) > TRIP_GAP_MILLIS as i128
        };
        r.push(start);
        i += 1;
    }
    r
}

/// Second pass: the index of the first flag that is set, if any.
pub fn newest_trip_start(flags: &Vec<bool>) -> (r: Option<usize>)
    ensures
        match r {
            Some(j) => j < flags@.len() && flags@[j as int] && forall|k: int|
                0 <= k < j ==> !flags@[k],
            None => forall|k: int| 0 <= k < flags@.len() ==> !flags@[k],
        },
{
    let mut i: usize = 0;
    while i < flags.len()
        invariant
            i <= flags@.len(),
            forall|k: int| 0 <= k < i ==> !flags@[k],
        decreases flags@.len() - i,
    {
        if flags[i] {
            return Some(i);
        }
        i += 1;
    }
    None
}

proof fn lemma_first_trip_start(s: Seq<TrackingPoint>, i: int, j: int)
    requires
        0 <= i <= j < s.len(),
        is_trip_start(s, j),
        forall|k: int| i <= k < j ==> !is_trip_start(s, k),
    ensures
        first_trip_start_from(s, i) == j,
    decreases j - i,
{
    if i < j {
        lemma_first_trip_start(s, i + 1, j);
    }
}

proof fn lemma_filter_prefix(s: Seq<TrackingPoint>, pred: spec_fn(TrackingPoint) -> bool, c: int)
    requires
        0 <= c <= s.len(),
        forall|k: int| 0 <= k < c ==> pred(s[k]),
        forall|k: int| c <= k < s.len() ==> !pred(s[k]),
    ensures
        s.filter(pred) == s.take(c),
    decreases s.len(),
{
    reveal(Seq::filter);
    if s.len() == 0 {
        assert(s.take(c) =~= s);
    } else {
        let d = s.drop_last();
        if c == s.len() {
            lemma_filter_prefix(d, pred, c - 1);
            assert(s.take(c) =~= d.take(c - 1).push(s.last()));
        } else {
            lemma_filter_prefix(d, pred, c);
            assert(s.take(c) =~= d.take(c));
        }
    }
}

/// Isolates the active trip of a newest-first history and applies the `since`
/// and `limit` truncations.
pub fn slice_active_trip(sorted: Vec<TrackingPoint>, since: i64, limit: usize) -> (r: Vec<
    TrackingPoint,
>)
    requires
        newest_first(sorted@),
    ensures
        r@ == active_trip_of(sorted@, since, limit),
{
    let ghost s = sorted@;
    let mut v = sorted;
    if v.len() == 0 {
        return v;
    }
    let flags = trip_start_flags(&v);
    let j = match newest_trip_start(&flags) {
        Some(j) => j,
        None => {
            assert(flags@[s.len() - 1]);
            return Vec::new();
        },
    };
    proof {
        lemma_first_trip_start(s, 0, j as int);
    }
    let mut c: usize = 0;
    while c <= j && v[c].timestamp > since
        invariant
            v@ == s,
            j < v.len(),
            c <= j + 1,
            forall|k: int| 0 <= k < c ==> s[k].timestamp > since,
        decreases j + 1 - c,
    {
        c += 1;
    }
    let ghost t = trip_boundary(s);
    assert forall|k: int| 0 <= k < s.len() implies (trip_filter(t, since)(s[k]) <==> k < c) by {
        if k < c {
            assert(s[k].timestamp >= s[j as int].timestamp);
        } else if k > j {
            assert(s[k].timestamp <= s[j + 1].timestamp);
        } else {
            assert(s[k].timestamp <= s[c as int].timestamp);
        }
    }
    proof {
        lemma_filter_prefix(s, trip_filter(t, since), c as int);
    }
    let n = if c < limit {
        c
    } else {
        limit
    };
    v.truncate(n);
    assert(v@ =~= active_trip_of(s, since, limit));
    v
}

/// The active trip of a point history given in any order: the points of its
/// most recent trip that are newer than `since`, in the history's
/// newest-first order, at most `limit` of them.
pub fn active_trip(points: Vec<TrackingPoint>, since: i64, limit: usize) -> (r: Vec<
    TrackingPoint,
>)
    ensures
        r@ == active_trip_of(newest_first_order(points@), since, limit),
        r@.len() <= limit,
        newest_first(r@),
        forall|i: int| 0 <= i < r@.len() ==> r@[i].timestamp > since,
{
    let sorted = sort_newest_first(points);
    let ghost s = sorted@;
    let r = slice_active_trip(sorted, since, limit);
    proof {
        lemma_active_trip_limit(s, since, limit);
        assert forall|i: int| 0 <= i < r@.len() implies r@[i].timestamp > since by {
            lemma_active_trip_after_since(s, since, limit, i);
        }
    }
    r
}


proof fn lemma_filter_of_monotone(s: Seq<TrackingPoint>, pred: spec_fn(TrackingPoint) -> bool)
    requires
        forall|a: int, b: int| 0 <= a < b < s.len() && pred(s[b]) ==> pred(s[a]),
    ensures
        s.filter(pred) == s.take(s.filter(pred).len() as int),
        forall|k: int| 0 <= k < s.len() && pred(s[k]) ==> k < s.filter(pred).len(),
    decreases s.len(),
{
    reveal(Seq::filter);
    if s.len() == 0 {
        assert(s.take(0) =~= s);
    } else {
        let d = s.drop_last();
        lemma_filter_of_monotone(d, pred);
        assert forall|k: int| 0 <= k < d.len() implies d[k] == s[k] by {}
        if pred(s.last()) {
            assert(d.filter(pred) =~= d.take(d.filter(pred).len() as int));
            assert(forall|k: int| 0 <= k < d.len() ==> pred(d[k]));
            lemma_filter_prefix(d, pred, d.len() as int);
            assert(d.take(d.len() as int) =~= d);
            assert(s =~= d.push(s.last()));
        } else {
            assert(d.filter(pred).len() <= d.len()) by {
                d.lemma_filter_len(pred);
            }
            assert(d.take(d.filter(pred).len() as int) =~= s.take(d.filter(pred).len() as int));
        }
    }
}

/// The `since` cut only narrows a trip: every point of the active trip is
/// newer than `since`, and none is older than the trip boundary.
pub proof fn lemma_active_trip_after_since(s: Seq<TrackingPoint>, since: i64, limit: usize, i: int)
    requires
        0 <= i < active_trip_of(s, since, limit).len(),
    ensures
        active_trip_of(s, since, limit)[i].timestamp > since,
        active_trip_of(s, since, limit)[i].timestamp >= trip_boundary(s),
{
    let kept = s.filter(trip_filter(trip_boundary(s), since));
    s.lemma_filter_pred(trip_filter(trip_boundary(s), since), i);
    if kept.len() > limit {
        assert(active_trip_of(s, since, limit)[i] == kept[i]);
    }
}

/// The `limit` cut keeps order: over a newest-first history the active trip
/// is a prefix of the history (so it is newest first too), and it holds at
/// most `limit` points.
pub proof fn lemma_active_trip_limit(s: Seq<TrackingPoint>, since: i64, limit: usize)
    requires
        newest_first(s),
    ensures
        active_trip_of(s, since, limit).len() <= limit,
        active_trip_of(s, since, limit) == s.take(active_trip_of(s, since, limit).len() as int),
        newest_first(active_trip_of(s, since, limit)),
{
    if s.len() > 0 {
        let pred = trip_filter(trip_boundary(s), since);
        assert forall|a: int, b: int| 0 <= a < b < s.len() && pred(s[b]) implies pred(s[a]) by {
            assert(s[a].timestamp >= s[b].timestamp);
        }
        lemma_filter_of_monotone(s, pred);
        s.lemma_filter_len(pred);
        let kept = s.filter(pred);
        if kept.len() > limit {
            assert(kept.take(limit as int) =~= s.take(limit as int));
        }
    }
}


/// A smaller limit cuts the same result shorter: it is a prefix of the
/// result under any larger limit.
pub proof fn lemma_smaller_limit_is_prefix(s: Seq<TrackingPoint>, since: i64, small: usize, large: usize)
    requires
        small <= large,
    ensures
        active_trip_of(s, since, small).len() <= active_trip_of(s, since, large).len(),
        active_trip_of(s, since, small) == active_trip_of(s, since, large).take(
            active_trip_of(s, since, small).len() as int,
        ),
{
    if s.len() > 0 {
        let kept = s.filter(trip_filter(trip_boundary(s), since));
        assert(kept.take(kept.len() as int) =~= kept);
        if large < kept.len() {
            assert(kept.take(large as int).take(small as int) =~= kept.take(small as int));
        }
    }
}

/// `since` only truncates the detected trip: the boundary does not depend on
/// it, and the result for a later `since` is a prefix of the result for an
/// earlier one.
pub proof fn lemma_later_since_is_prefix(s: Seq<TrackingPoint>, early: i64, late: i64, limit: usize)
    requires
        newest_first(s),
        early <= late,
    ensures
        active_trip_of(s, late, limit).len() <= active_trip_of(s, early, limit).len(),
        active_trip_of(s, late, limit) == active_trip_of(s, early, limit).take(
            active_trip_of(s, late, limit).len() as int,
        ),
{
    lemma_active_trip_limit(s, early, limit);
    lemma_active_trip_limit(s, late, limit);
    if s.len() > 0 {
        let t = trip_boundary(s);
        let p1 = trip_filter(t, early);
        let p2 = trip_filter(t, late);
        assert forall|a: int, b: int| 0 <= a < b < s.len() && p1(s[b]) implies p1(s[a]) by {
            assert(s[a].timestamp >= s[b].timestamp);
        }
        assert forall|a: int, b: int| 0 <= a < b < s.len() && p2(s[b]) implies p2(s[a]) by {
            assert(s[a].timestamp >= s[b].timestamp);
        }
        lemma_filter_of_monotone(s, p1);
        lemma_filter_of_monotone(s, p2);
        let k1 = s.filter(p1);
        let k2 = s.filter(p2);
        s.lemma_filter_len(p2);
        if k2.len() > 0 {
            assert(k2[k2.len() - 1] == s[k2.len() - 1]);
            s.lemma_filter_pred(p2, k2.len() - 1);
        }
        assert(k2.len() <= k1.len());
        let r1 = active_trip_of(s, early, limit);
        let r2 = active_trip_of(s, late, limit);
        assert(r2 =~= r1.take(r2.len() as int));
    }
}

/// A point of the history that lies in the active trip and is newer than
/// `since` is returned, whenever the trip's points after `since` fit within
/// `limit`.
pub proof fn lemma_trip_point_returned(h: Seq<TrackingPoint>, since: i64, limit: usize, p: TrackingPoint)
    requires
        h.contains(p),
        p.timestamp > since,
        p.timestamp >= trip_boundary(newest_first_order(h)),
        newest_first_order(h).filter(
            trip_filter(trip_boundary(newest_first_order(h)), since),
        ).len() <= limit,
    ensures
        active_trip_of(newest_first_order(h), since, limit).contains(p),
{
    broadcast use vstd::seq_lib::group_to_multiset_ensures;

    let s = newest_first_order(h);
    lemma_newest_first_order(h);
    assert(h.to_multiset().count(p) > 0);
    assert(s.contains(p));
    let k = choose|k: int| 0 <= k < s.len() && s[k] == p;
    s.lemma_filter_contains(trip_filter(trip_boundary(s), since), k);
}


/// `a` and `b` agree on every field, the bearing as text.
pub open spec fn same_fields(a: TrackingPoint, b: TrackingPoint) -> bool {
    &&& a.owner == b.owner
    &&& a.lat_bits == b.lat_bits
    &&& a.lon_bits == b.lon_bits
    &&& a.altitude_bits == b.altitude_bits
    &&& a.bearing@ == b.bearing@
    &&& a.speed_bits == b.speed_bits
    &&& a.hdop_bits == b.hdop_bits
    &&& a.timestamp == b.timestamp
    &&& a.received_at == b.received_at
}

proof fn lemma_listed_before_total(a: TrackingPoint, b: TrackingPoint)
    ensures
        !listed_before(a, b) && !listed_before(b, a) ==> same_fields(a, b),
        !listed_before(a, a),
{
    reveal(listed_before);
    let x = encode_utf8(a.bearing@);
    let y = encode_utf8(b.bearing@);
    lemma_bytes_order(x, y, y);
    lemma_bytes_order(x, x, x);
    vstd::utf8::encode_utf8_decode_utf8(a.bearing@);
    vstd::utf8::encode_utf8_decode_utf8(b.bearing@);
}

proof fn lemma_listed_before_fields(a: TrackingPoint, b: TrackingPoint, c: TrackingPoint)
    requires
        same_fields(a, c),
    ensures
        listed_before(a, b) == listed_before(c, b),
        listed_before(b, a) == listed_before(b, c),
{
    reveal(listed_before);
}

proof fn lemma_listed_in_order_unique(s: Seq<TrackingPoint>, t: Seq<TrackingPoint>)
    requires
        listed_in_order(s),
        listed_in_order(t),
        s.to_multiset() == t.to_multiset(),
    ensures
        s.len() == t.len(),
        forall|i: int| 0 <= i < s.len() ==> same_fields(s[i], t[i]),
    decreases s.len(),
{
    broadcast use vstd::seq_lib::group_to_multiset_ensures;

    assert(s.to_multiset().len() == s.len() && t.to_multiset().len() == t.len());
    if s.len() > 0 {
        assert(s.to_multiset().count(s[0]) > 0);
        assert(t.contains(s[0]));
        let j = choose|j: int| 0 <= j < t.len() && t[j] == s[0];
        assert(t.to_multiset().count(t[0]) > 0);
        assert(s.contains(t[0]));
        let k = choose|k: int| 0 <= k < s.len() && s[k] == t[0];
        lemma_listed_before_total(s[0], s[0]);
        lemma_listed_before_total(t[0], t[0]);
        assert(!listed_before(t[0], s[0]));
        assert(!listed_before(s[0], t[0]));
        lemma_listed_before_total(s[0], t[0]);
        let s2 = s.drop_first();
        let t2 = t.remove(j);
        assert(s.remove(0) =~= s2);
        vstd::seq_lib::to_multiset_remove(s, 0);
        vstd::seq_lib::to_multiset_remove(t, j);
        assert forall|a: int, b: int| 0 <= a < b < t2.len() implies !listed_before(t2[b], t2[a]) by {
            let a0 = if a < j { a } else { a + 1 };
            let b0 = if b < j { b } else { b + 1 };
            assert(t2[a] == t[a0] && t2[b] == t[b0]);
        }
        assert forall|a: int, b: int| 0 <= a < b < s2.len() implies !listed_before(s2[b], s2[a]) by {
            assert(s2[a] == s[a + 1] && s2[b] == s[b + 1]);
        }
        lemma_listed_in_order_unique(s2, t2);
        assert forall|i: int| 0 <= i <= j implies same_fields(t[i], t[0]) by {
            if 0 < i < j {
                lemma_listed_before_fields(t[j], t[i], t[0]);
                lemma_listed_before_total(t[i], t[0]);
            }
        }
        assert forall|i: int| 0 <= i < s.len() implies same_fields(s[i], t[i]) by {
            if i == 0 {
            } else if i <= j {
                assert(s[i] == s2[i - 1]);
                assert(t2[i - 1] == t[i - 1]);
                assert(same_fields(t[i - 1], t[0]));
                assert(same_fields(t[i], t[0]));
            } else {
                assert(s[i] == s2[i - 1]);
                assert(t2[i - 1] == t[i]);
            }
        }
    }
}

/// The newest-first order depends on the points alone, not on the order in
/// which they were stored: two histories holding the same points give the
/// same sequence, field for field.
pub proof fn lemma_order_ignores_arrival(s1: Seq<TrackingPoint>, s2: Seq<TrackingPoint>)
    requires
        s1.to_multiset() == s2.to_multiset(),
    ensures
        newest_first_order(s1).len() == newest_first_order(s2).len(),
        forall|i: int|
            0 <= i < newest_first_order(s1).len() ==> same_fields(
                #[trigger] newest_first_order(s1)[i],
                newest_first_order(s2)[i],
            ),
{
    lemma_newest_first_order(s1);
    lemma_newest_first_order(s2);
    lemma_listed_in_order_unique(newest_first_order(s1), newest_first_order(s2));
}

} // verus!
