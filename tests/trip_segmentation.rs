use osmand_tracker::point::TrackingPoint;
use osmand_tracker::trip::{active_trip, newest_trip_start, slice_active_trip, sort_newest_first, trip_start_flags};

const HOUR: i64 = 3_600_000;

fn at(owner: u128, timestamp: i64) -> TrackingPoint {
    TrackingPoint {
        owner,
        lat_bits: 52.5f64.to_bits(),
        lon_bits: 13.4f64.to_bits(),
        altitude_bits: 34.0f64.to_bits(),
        bearing: "NE".to_string(),
        speed_bits: 1.5f64.to_bits(),
        hdop_bits: None,
        timestamp,
        received_at: timestamp,
    }
}

fn hours(hs: &[i64]) -> Vec<TrackingPoint> {
    hs.iter().map(|h| at(7, h * HOUR)).collect()
}

fn stamps(points: &[TrackingPoint]) -> Vec<i64> {
    points.iter().map(|p| p.timestamp).collect()
}

#[test]
fn gap_longer_than_threshold_starts_new_trip() {
    let r = active_trip(hours(&[0, 1, 2, 8, 9]), 0, 2000);
    assert_eq!(stamps(&r), vec![9 * HOUR, 8 * HOUR]);
}

#[test]
fn short_gaps_make_one_trip() {
    let r = active_trip(hours(&[0, 1, 2, 3]), -1, 2000);
    assert_eq!(stamps(&r), vec![3 * HOUR, 2 * HOUR, HOUR, 0]);
}

#[test]
fn single_point_is_its_own_trip() {
    let r = active_trip(hours(&[5]), 0, 2000);
    assert_eq!(stamps(&r), vec![5 * HOUR]);
}

#[test]
fn no_points_give_empty_trip() {
    let r = active_trip(Vec::new(), 0, 2000);
    assert!(r.is_empty());
}

#[test]
fn unordered_input_is_sorted_first() {
    let r = active_trip(hours(&[8, 0, 9, 2, 1]), 0, 2000);
    assert_eq!(stamps(&r), vec![9 * HOUR, 8 * HOUR]);
}

#[test]
fn gap_of_exactly_five_hours_stays_in_trip() {
    let r = active_trip(hours(&[0, 5, 10]), -1, 2000);
    assert_eq!(stamps(&r), vec![10 * HOUR, 5 * HOUR, 0]);
    let just_over = vec![at(7, 0), at(7, 5 * HOUR + 1)];
    let r = active_trip(just_over, -1, 2000);
    assert_eq!(stamps(&r), vec![5 * HOUR + 1]);
}

#[test]
fn since_cuts_inside_the_trip() {
    let r = active_trip(hours(&[0, 1, 2, 3]), 2 * HOUR, 2000);
    assert_eq!(stamps(&r), vec![3 * HOUR]);
    for p in &r {
        assert!(p.timestamp > 2 * HOUR);
    }
}

#[test]
fn since_never_widens_the_trip() {
    let r = active_trip(hours(&[0, 1, 2, 8, 9]), -100 * HOUR, 2000);
    assert_eq!(stamps(&r), vec![9 * HOUR, 8 * HOUR]);
}

#[test]
fn since_after_everything_gives_nothing() {
    let r = active_trip(hours(&[5]), 5 * HOUR, 2000);
    assert!(r.is_empty());
}

#[test]
fn limit_keeps_newest_in_order() {
    let r = active_trip(hours(&[0, 1, 2, 3]), -1, 2);
    assert_eq!(stamps(&r), vec![3 * HOUR, 2 * HOUR]);
    let r = active_trip(hours(&[0, 1, 2, 3]), -1, 0);
    assert!(r.is_empty());
}

#[test]
fn equal_timestamps_are_all_kept() {
    let r = active_trip(hours(&[0, 8, 8, 9]), 0, 2000);
    assert_eq!(stamps(&r), vec![9 * HOUR, 8 * HOUR, 8 * HOUR]);
}

#[test]
fn points_keep_their_fields() {
    let mut p = at(3, 4 * HOUR);
    p.hdop_bits = Some(0.9f64.to_bits());
    p.bearing = "271.5".to_string();
    let r = active_trip(vec![p], 0, 10);
    assert_eq!(r.len(), 1);
    assert_eq!(r[0].owner, 3);
    assert_eq!(f64::from_bits(r[0].hdop_bits.unwrap()), 0.9);
    assert_eq!(r[0].bearing, "271.5");
    assert_eq!(f64::from_bits(r[0].lat_bits), 52.5);
}

#[test]
fn extreme_timestamps_do_not_overflow() {
    let r = active_trip(vec![at(1, i64::MIN), at(1, i64::MAX)], i64::MIN, 10);
    assert_eq!(stamps(&r), vec![i64::MAX]);
}

#[test]
fn sort_orders_newest_first() {
    let r = sort_newest_first(hours(&[3, 1, 4, 1, 5, 9, 2, 6]));
    assert_eq!(
        stamps(&r),
        vec![9 * HOUR, 6 * HOUR, 5 * HOUR, 4 * HOUR, 3 * HOUR, 2 * HOUR, HOUR, HOUR]
    );
}

#[test]
fn flags_mark_trip_starts() {
    let sorted = hours(&[9, 8, 2, 1, 0]);
    assert_eq!(trip_start_flags(&sorted), vec![false, true, false, false, true]);
    assert_eq!(newest_trip_start(&trip_start_flags(&sorted)), Some(1));
    assert_eq!(newest_trip_start(&Vec::new()), None);
}

#[test]
fn slice_of_sorted_history() {
    let r = slice_active_trip(hours(&[9, 8, 2, 1, 0]), 8 * HOUR, 2000);
    assert_eq!(stamps(&r), vec![9 * HOUR]);
}

fn tagged(timestamp: i64, tag: &str) -> TrackingPoint {
    let mut p = at(7, timestamp);
    p.bearing = tag.to_string();
    p
}

fn tags(points: &[TrackingPoint]) -> Vec<String> {
    points.iter().map(|p| p.bearing.clone()).collect()
}

#[test]
fn ties_come_out_in_one_fixed_order() {
    let history = || vec![tagged(HOUR, "a"), tagged(2 * HOUR, "b"), tagged(HOUR, "c"), tagged(HOUR, "d")];
    let first = active_trip(history(), 0, 10);
    let second = active_trip(history(), 0, 10);
    assert_eq!(tags(&first), vec!["b", "a", "c", "d"]);
    assert_eq!(tags(&first), tags(&second));
}

#[test]
fn smaller_limit_gives_prefix() {
    let history = || vec![tagged(HOUR, "a"), tagged(HOUR, "b"), tagged(HOUR, "c"), tagged(0, "z")];
    let full = active_trip(history(), -1, 10);
    let cut = active_trip(history(), -1, 2);
    assert_eq!(tags(&cut), tags(&full)[..2].to_vec());
}

#[test]
fn later_since_gives_prefix() {
    let history = || hours(&[0, 1, 2, 3, 4]);
    let early = active_trip(history(), -1, 10);
    let late = active_trip(history(), 2 * HOUR, 10);
    assert_eq!(stamps(&late), stamps(&early)[..late.len()].to_vec());
    assert_eq!(stamps(&late), vec![4 * HOUR, 3 * HOUR]);
}

#[test]
fn order_does_not_depend_on_arrival() {
    let mut a = at(7, HOUR);
    a.lat_bits = 10.0f64.to_bits();
    let mut b = at(7, HOUR);
    b.lat_bits = 20.0f64.to_bits();
    let ab = active_trip(vec![a.duplicate(), b.duplicate()], 0, 10);
    let ba = active_trip(vec![b.duplicate(), a.duplicate()], 0, 10);
    assert_eq!(f64::from_bits(ab[0].lat_bits), 10.0);
    assert_eq!(f64::from_bits(ba[0].lat_bits), 10.0);
    let one_ab = active_trip(vec![a.duplicate(), b.duplicate()], 0, 1);
    let one_ba = active_trip(vec![b, a], 0, 1);
    assert_eq!(one_ab[0].lat_bits, one_ba[0].lat_bits);
}
