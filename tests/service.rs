use osmand_tracker::credential::{check_credential, issue_credential, Identity, Registry};
use osmand_tracker::error::{AuthError, IngestError, RegisterError, ValidationError};
use osmand_tracker::ids::{MAX_INSTANT_MILLIS, MIN_INSTANT_MILLIS};
use osmand_tracker::query::{parse_owner_id, parse_trip_query, TripQuery, DEFAULT_LIMIT};
use osmand_tracker::store::{PointReport, PointStore};

const HOUR: i64 = 3_600_000;
const SAMPLE_ID: &str = "01D39ZY06FGSCTVN4T2V9PKHFZ";
const SAMPLE_VALUE: u128 = 0x0168d3ff00cf8659add49a16d369c5ff;

fn report(owner: &str, timestamp: i64) -> PointReport {
    PointReport {
        owner: owner.to_string(),
        lat_bits: 48.1f64.to_bits(),
        lon_bits: 11.6f64.to_bits(),
        altitude_bits: 520.0f64.to_bits(),
        bearing: "180".to_string(),
        speed_bits: 0.0f64.to_bits(),
        hdop_bits: Some(1.2f64.to_bits()),
        timestamp,
    }
}

fn text(id: u128) -> String {
    ulid::Ulid(id).to_string()
}

#[test]
fn owner_id_parses_from_text() {
    assert_eq!(parse_owner_id(SAMPLE_ID), Ok(SAMPLE_VALUE));
    assert_eq!(parse_owner_id(&SAMPLE_ID.to_lowercase()), Ok(SAMPLE_VALUE));
    assert_eq!(parse_owner_id("00000000000000000000000001"), Ok(1));
}

#[test]
fn malformed_owner_ids_are_rejected() {
    assert_eq!(parse_owner_id(""), Err(ValidationError::MalformedOwnerId));
    assert_eq!(parse_owner_id("01D39ZY06FGSCTVN4T2V9PKHF"), Err(ValidationError::MalformedOwnerId));
    assert_eq!(parse_owner_id("01D39ZY06FGSCTVN4T2V9PKHFU"), Err(ValidationError::MalformedOwnerId));
    assert_eq!(parse_owner_id("01D39ZY06FGSCTVN4T2V9PKHFé"), Err(ValidationError::MalformedOwnerId));
}

#[test]
fn query_defaults() {
    let q = parse_trip_query(SAMPLE_ID, None, None).unwrap();
    assert_eq!(q, TripQuery { owner: SAMPLE_VALUE, since: 0, limit: DEFAULT_LIMIT });
    assert_eq!(DEFAULT_LIMIT, 2000);
    let q = parse_trip_query(SAMPLE_ID, Some(1_500), Some(7)).unwrap();
    assert_eq!(q, TripQuery { owner: SAMPLE_VALUE, since: 1_500, limit: 7 });
}

#[test]
fn query_errors() {
    assert_eq!(parse_trip_query("nope", None, None), Err(ValidationError::MalformedOwnerId));
    assert_eq!(parse_trip_query(SAMPLE_ID, None, Some(-1)), Err(ValidationError::NegativeLimit));
    assert_eq!(
        parse_trip_query(SAMPLE_ID, Some(MAX_INSTANT_MILLIS + 1), None),
        Err(ValidationError::SinceOutOfRange)
    );
    assert_eq!(
        parse_trip_query(SAMPLE_ID, Some(MIN_INSTANT_MILLIS - 1), None),
        Err(ValidationError::SinceOutOfRange)
    );
    assert!(parse_trip_query(SAMPLE_ID, Some(MIN_INSTANT_MILLIS), None).is_ok());
}

#[test]
fn report_becomes_point() {
    let p = report(SAMPLE_ID, 1_700_000_000_000).into_point(42).unwrap();
    assert_eq!(p.owner, SAMPLE_VALUE);
    assert_eq!(p.timestamp, 1_700_000_000_000);
    assert_eq!(p.received_at, 42);
    assert_eq!(p.bearing, "180");
    assert_eq!(f64::from_bits(p.hdop_bits.unwrap()), 1.2);
}

#[test]
fn report_errors() {
    assert_eq!(report("x", 0).into_point(0).err(), Some(ValidationError::MalformedOwnerId));
    assert_eq!(
        report(SAMPLE_ID, MAX_INSTANT_MILLIS + 1).into_point(0).err(),
        Some(ValidationError::TimestampOutOfRange)
    );
}

#[test]
fn missing_stored_hash_or_credential_is_unauthorized() {
    assert_eq!(check_credential(None, Some("secret")), Err(AuthError::Unauthorized));
    assert_eq!(check_credential(Some("not a hash"), Some("secret")), Err(AuthError::Unauthorized));
    assert_eq!(check_credential(Some("not a hash"), None), Err(AuthError::Unauthorized));
}

#[test]
fn issued_secret_checks_against_its_hash() {
    let (identity, secret) = issue_credential("alice".to_string()).unwrap();
    assert_eq!(identity.name, "alice");
    assert_eq!(secret.len(), 26);
    assert_ne!(identity.credential_hash, secret);
    assert!(identity.credential_hash.starts_with("$argon2"));
    assert_eq!(check_credential(Some(&identity.credential_hash), Some(&secret)), Ok(()));
    assert_eq!(
        check_credential(Some(&identity.credential_hash), Some("wrong")),
        Err(AuthError::Unauthorized)
    );
}

#[test]
fn registrations_get_distinct_ids() {
    let mut reg = Registry::new();
    let (a, _) = reg.register("a".to_string()).unwrap();
    let (b, _) = reg.register("b".to_string()).unwrap();
    assert_ne!(a, b);
    assert_eq!(reg.len(), 2);
    assert_eq!(reg.lookup(a).unwrap().name, "a");
    assert_eq!(reg.lookup(b).unwrap().name, "b");
}

#[test]
fn verify_accepts_only_the_issued_secret() {
    let mut reg = Registry::new();
    let (id, secret) = reg.register("dev".to_string()).unwrap();
    assert_eq!(reg.verify(id, &secret), Ok(()));
    let wrong_secret = reg.verify(id, "01D39ZY06FGSCTVN4T2V9PKHFZ");
    let unknown_owner = reg.verify(id.wrapping_add(1), &secret);
    assert_eq!(wrong_secret, Err(AuthError::Unauthorized));
    assert_eq!(unknown_owner, wrong_secret);
    assert_eq!(format!("{:?}", unknown_owner), format!("{:?}", wrong_secret));
}

#[test]
fn ingest_and_query() {
    let mut reg = Registry::new();
    let (id, secret) = reg.register("phone".to_string()).unwrap();
    let owner = text(id);
    let mut store = PointStore::new();
    for h in [0, 1, 2, 8, 9] {
        assert_eq!(store.append_at(&reg, report(&owner, h * HOUR), Some(&secret), 1_000 - h), Ok(()));
    }
    assert_eq!(store.len(), 5);
    let q = parse_trip_query(&owner, None, None).unwrap();
    let r = store.active_trip(&q);
    let ts: Vec<i64> = r.iter().map(|p| p.timestamp).collect();
    assert_eq!(ts, vec![9 * HOUR, 8 * HOUR]);
    let received: Vec<i64> = (0..5).map(|i| store.point(i).received_at).collect();
    assert_eq!(received, vec![1_000, 1_000, 1_000, 1_000, 1_000]);
}

#[test]
fn ingest_refusals_store_nothing() {
    let mut reg = Registry::new();
    let (id, secret) = reg.register("phone".to_string()).unwrap();
    let owner = text(id);
    let stranger = text(id.wrapping_add(1));
    let mut store = PointStore::new();
    assert_eq!(store.append_at(&reg, report(&owner, 0), None, 5), Err(IngestError::Unauthorized));
    assert_eq!(store.append_at(&reg, report(&owner, 0), Some("bad"), 5), Err(IngestError::Unauthorized));
    assert_eq!(store.append_at(&reg, report(&stranger, 0), Some(&secret), 5), Err(IngestError::Unauthorized));
    assert_eq!(
        store.append_at(&reg, report("bad id", 0), Some(&secret), 5),
        Err(IngestError::Invalid(ValidationError::MalformedOwnerId))
    );
    assert_eq!(
        store.append_at(&reg, report(&owner, i64::MAX), Some(&secret), 5),
        Err(IngestError::Invalid(ValidationError::TimestampOutOfRange))
    );
    assert_eq!(store.len(), 0);
}

#[test]
fn stored_points_stay_put_and_receipts_rise() {
    let mut reg = Registry::new();
    let (id, secret) = reg.register("phone".to_string()).unwrap();
    let owner = text(id);
    let mut store = PointStore::new();
    store.append_at(&reg, report(&owner, 3 * HOUR), Some(&secret), 50).unwrap();
    let first = store.point(0).duplicate();
    store.append_at(&reg, report(&owner, HOUR), Some(&secret), 40).unwrap();
    store.append(&reg, report(&owner, 2 * HOUR), Some(&secret)).unwrap();
    let again = store.point(0);
    assert_eq!(again.timestamp, first.timestamp);
    assert_eq!(again.bearing, first.bearing);
    assert_eq!(again.lat_bits, first.lat_bits);
    assert_eq!(again.received_at, 50);
    assert_eq!(store.point(1).received_at, 50);
    assert!(store.point(2).received_at >= 50);
    assert_eq!(store.history(id).len(), 3);
    assert_eq!(store.history(id.wrapping_add(1)).len(), 0);
}

#[test]
fn enrolling_a_taken_id_is_refused() {
    let mut reg = Registry::new();
    let make = |name: &str| Identity {
        id: 99,
        name: name.to_string(),
        credential_hash: "h".to_string(),
        created_at: 0,
    };
    assert_eq!(reg.enroll(make("first")), Ok(()));
    assert_eq!(reg.enroll(make("second")), Err(RegisterError::IdCollision));
    assert_eq!(reg.len(), 1);
    assert_eq!(reg.lookup(99).unwrap().name, "first");
    assert!(reg.lookup(98).is_none());
}

#[test]
fn receipts_never_go_back() {
    assert_eq!(osmand_tracker::store::next_receipt(100, 50), 100);
    assert_eq!(osmand_tracker::store::next_receipt(100, 150), 150);
    assert_eq!(osmand_tracker::store::next_receipt(i64::MIN, 0), 0);
}

#[test]
fn oversized_cost_parameters_are_refused() {
    let huge_p = "$argon2id$v=19$m=19456,t=2,p=536870912$c2FsdHNhbHRzYWx0$aGFzaGhhc2hoYXNoaGFzaGhhc2hoYXNoaGFzaGhhc2g";
    assert_eq!(check_credential(Some(huge_p), Some("secret")), Err(AuthError::Unauthorized));
    assert!(!osmand_tracker::credential::cost_params_within_limit(huge_p));
    assert!(!osmand_tracker::credential::cost_params_within_limit("$argon2id$v=19$m=4294967295,t=2,p=1$x$y"));
    assert!(osmand_tracker::credential::cost_params_within_limit("$argon2id$v=19$m=19456,t=2,p=1$x$y"));
    assert!(osmand_tracker::credential::cost_params_within_limit("$argon2id$v=19$m=65536,t=2,p=1$x$y"));
    assert!(!osmand_tracker::credential::cost_params_within_limit("$argon2id$v=19$m=65537,t=2,p=1$x$y"));
}
