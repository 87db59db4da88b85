use disaster_mesh::time::{default_ttl, Duration, Timestamp, NANOS_PER_SEC};
use disaster_mesh::types::{MessageId, PeerId, UserId};

#[test]
fn message_id_keeps_its_bytes() {
    let bytes = [0, 1, 2, 3, 4, 5, 6, 7, 8, 9, 10, 11, 12, 13, 14, 15];
    let id = MessageId::from_bytes(&bytes);
    assert_eq!(id.to_bytes(), bytes);
    assert!(id.is_valid());
    assert!(id.same(&MessageId::from_bytes(&bytes)));
    assert!(!id.same(&MessageId::from_bytes(&[0; 16])));
    assert_eq!(id, MessageId::from_bytes(&bytes));
}

#[test]
fn a_fresh_message_id_is_a_version_4_uuid() {
    let a = MessageId::new();
    let b = MessageId::default();
    assert_ne!(a, b);
    for id in [a, b] {
        let bytes = id.to_bytes();
        assert_eq!(bytes[6] & 0xf0, 0x40);
        assert_eq!(bytes[8] & 0xc0, 0x80);
        assert_eq!(uuid::Uuid::from_bytes(bytes).get_version_num(), 4);
        assert!(id.is_valid());
    }
}

#[test]
fn random_users_differ() {
    let a = UserId::random();
    let b = UserId::random();
    assert_ne!(a, b);
    assert!(a.same(&a));
    assert!(!a.same(&b));
}

#[test]
fn identifiers_compare_by_their_bytes() {
    let mut bytes = [7u8; 32];
    let a = UserId(bytes);
    bytes[31] = 8;
    let b = UserId(bytes);
    assert!(!a.same(&b));
    assert!(b.same(&UserId(bytes)));
    assert!(PeerId([1; 32]).same(&PeerId([1; 32])));
    assert!(!PeerId([1; 32]).same(&PeerId([2; 32])));
}

#[test]
fn a_duration_carries_whole_seconds_out_of_the_nanoseconds() {
    let d = Duration::new(5, 2_500_000_000).unwrap();
    assert_eq!(d.as_secs(), 7);
    assert_eq!(d.subsec_nanos(), 500_000_000);
    assert_eq!(d.as_nanos(), 7_500_000_000);
    assert_eq!(Duration::new(u64::MAX, 999_999_999).unwrap().as_secs(), u64::MAX);
    assert_eq!(Duration::new(u64::MAX, 1_000_000_000), None);
    assert_eq!(Duration::new(u64::MAX - 4, 4_294_967_295).unwrap().as_secs(), u64::MAX);
    assert_eq!(Duration::new(u64::MAX - 3, 4_294_967_295), None);
    assert_eq!(Duration::zero().as_nanos(), 0);
    assert_eq!(Duration::from_secs(3).as_nanos(), 3_000_000_000);
    assert_eq!(default_ttl().as_nanos(), 3_600_000_000_000);
    assert_eq!(NANOS_PER_SEC, 1_000_000_000);
}

#[test]
fn durations_compare_by_length() {
    let a = Duration::new(1, 999_999_999).unwrap();
    let b = Duration::new(2, 0).unwrap();
    assert!(b.longer_than(&a));
    assert!(!a.longer_than(&b));
    assert!(!a.longer_than(&a));
}

#[test]
fn a_duration_of_std_keeps_its_parts() {
    let d = Duration::from_std(std::time::Duration::new(12, 345));
    assert_eq!(d, Duration::new(12, 345).unwrap());
}

#[test]
fn timestamps_subtract_and_add() {
    let a = Timestamp::from_unix(Duration::new(10, 200).unwrap());
    let b = Timestamp::from_unix(Duration::new(12, 100).unwrap());
    assert_eq!(b.duration_since(&a), Some(Duration::new(1, 999_999_900).unwrap()));
    assert_eq!(a.duration_since(&b), None);
    assert_eq!(a.duration_since(&a), Some(Duration::zero()));
    assert_eq!(a.checked_add(&Duration::new(1, 999_999_900).unwrap()), Some(b));
    assert_eq!(Timestamp::epoch().since_unix(), Duration::zero());
    let last = Timestamp::from_unix(Duration::new(u64::MAX, 999_999_999).unwrap());
    assert_eq!(last.checked_add(&Duration::new(0, 1).unwrap()), None);
    assert_eq!(last.checked_add(&Duration::zero()), Some(last));
    assert_eq!(a.since_unix(), Duration::new(10, 200).unwrap());
}

#[test]
fn the_clock_reads_a_time_of_this_century() {
    let first = Timestamp::now();
    let second = Timestamp::now();
    // later than the first of January 2020
    assert!(first.since_unix().as_secs() > 1_577_836_800);
    let std_now = std::time::SystemTime::now()
        .duration_since(std::time::UNIX_EPOCH)
        .unwrap()
        .as_secs();
    assert!(second.since_unix().as_secs() <= std_now);
    assert!(std_now - second.since_unix().as_secs() < 60);
}

#[test]
fn a_reading_before_the_epoch_counts_as_the_epoch() {
    assert_eq!(Timestamp::from_reading(None), Timestamp::epoch());
    let span = Duration::new(1_700_000_000, 42).unwrap();
    assert_eq!(Timestamp::from_reading(Some(span)), Timestamp::from_unix(span));
    assert_eq!(Timestamp::from_reading(Some(span)).since_unix(), span);
    assert_eq!(Timestamp::epoch().since_unix().as_nanos(), 0);
}
