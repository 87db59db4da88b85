use disaster_mesh::message::{Message, MessageContent, MessagePriority};
use disaster_mesh::message_manager::{
    EncodeError, ExpiredError, MessageManager, StorageError, MAX_ID_DRAWS,
};
use disaster_mesh::routing_control::RoutingControl;
use disaster_mesh::time::{default_ttl, Duration, Timestamp, DEFAULT_TTL_SECS};
use disaster_mesh::types::{MessageId, UserId};
use disaster_mesh::wire::DecodeError;
use disaster_mesh::wire_message::{decode_message, encode_message};

fn at(secs: u64, nanos: u32) -> Timestamp {
    Timestamp::from_unix(Duration::new(secs, nanos).unwrap())
}

fn sample(ttl: Duration, stamped: Timestamp) -> Message {
    let mut message = Message::originate(
        MessageId::from_bytes(&[3; 16]),
        UserId([1; 32]),
        Some(UserId([2; 32])),
        MessageContent::Text("Hello".into()),
        stamped,
    );
    message.ttl = ttl;
    message
}

#[test]
fn test_message_creation() {
    let mut manager = MessageManager::new();
    let sender = UserId::random();
    let content = MessageContent::Text("Hello".into());

    let message = manager.create_message(sender, None, content.clone()).unwrap();

    assert_eq!(message.sender, sender);
    assert_eq!(message.content, content);
}

#[test]
fn a_created_message_has_the_documented_fields() {
    let mut manager = MessageManager::new();
    let sender = UserId([5; 32]);
    let recipient = Some(UserId([6; 32]));
    let before = Timestamp::now();
    let message =
        manager.create_message(sender, recipient, MessageContent::Text("x".into())).unwrap();
    assert_eq!(message.recipient, recipient);
    assert_eq!(message.hop_count, 0);
    assert!(message.signature.is_empty());
    assert_eq!(message.ttl, Duration::from_secs(3600));
    assert_eq!(message.ttl, default_ttl());
    assert_eq!(DEFAULT_TTL_SECS, 3600);
    assert!(message.timestamp.duration_since(&before).is_some());
    let id = message.id.to_bytes();
    assert_eq!(id[6] >> 4, 4);
    assert_eq!(id[8] >> 6, 2);
}

#[test]
fn originate_sets_every_field() {
    let message = Message::originate(
        MessageId::from_bytes(&[3; 16]),
        UserId([1; 32]),
        None,
        MessageContent::File { name: "a.txt".into(), data: vec![1, 2, 3] },
        at(77, 5),
    );
    assert_eq!(message.id, MessageId::from_bytes(&[3; 16]));
    assert_eq!(message.sender, UserId([1; 32]));
    assert_eq!(message.recipient, None);
    assert_eq!(message.content, MessageContent::File { name: "a.txt".into(), data: vec![1, 2, 3] });
    assert_eq!(message.timestamp, at(77, 5));
    assert_eq!(message.ttl.as_secs(), 3600);
    assert_eq!(message.ttl.subsec_nanos(), 0);
    assert_eq!(message.hop_count, 0);
    assert_eq!(message.signature, Vec::<u8>::new());
}

#[test]
fn a_created_message_is_not_new_and_a_fresh_identifier_is() {
    let mut manager = MessageManager::new();
    let message =
        manager.create_message(UserId([5; 32]), None, MessageContent::Text("x".into())).unwrap();
    assert!(!manager.is_new_message(&message.id));
    assert!(manager.is_new_message(&MessageId::new()));
    assert!(manager.is_new_message(&MessageId::from_bytes(&[0; 16])));
}

#[test]
fn marking_seen_twice_is_as_marking_once() {
    let mut manager = MessageManager::new();
    let id = MessageId::from_bytes(&[9; 16]);
    assert!(manager.is_new_message(&id));
    assert_eq!(manager.mark_message_seen(&id), Ok(()));
    assert!(!manager.is_new_message(&id));
    assert_eq!(manager.mark_message_seen(&id), Ok(()));
    assert!(!manager.is_new_message(&id));
    assert!(manager.is_new_message(&MessageId::from_bytes(&[8; 16])));
}

#[test]
fn marking_seen_leaves_a_stored_message_in_place() {
    let mut manager = MessageManager::new();
    let message =
        manager.create_message(UserId([5; 32]), None, MessageContent::Text("x".into())).unwrap();
    let stored = manager.stored_bytes(&message.id).unwrap();
    assert_eq!(stored, encode_message(&message));
    manager.mark_message_seen(&message.id).unwrap();
    assert_eq!(manager.stored_bytes(&message.id), Some(stored.clone()));
    let back = decode_message(&stored).unwrap();
    assert_eq!(back.id, message.id);
    assert_eq!(back.content, message.content);
    assert_eq!(back.timestamp, message.timestamp);
    assert_eq!(manager.stored_bytes(&MessageId::from_bytes(&[0; 16])), None);
}

#[test]
fn a_failed_write_creates_nothing_and_hands_the_failure_on() {
    let mut manager = MessageManager::new();
    let message = Message::new(UserId([5; 32]), None, MessageContent::Text("x".into()));
    let id = message.id;
    let failure = StorageError { reason: "disk full".into() };
    let outcome = manager.record_created(message, Err(failure.clone()));
    assert_eq!(outcome.err(), Some(failure));
    assert!(manager.is_new_message(&id));
    assert_eq!(manager.stored_bytes(&id), None);
}

#[test]
fn a_write_that_succeeded_stores_the_message() {
    let mut manager = MessageManager::new();
    let message = sample(Duration::from_secs(1), at(10, 0));
    let expected = encode_message(&message);
    let back = manager.record_created(message, Ok(())).unwrap();
    assert_eq!(back.id, MessageId::from_bytes(&[3; 16]));
    assert!(!manager.is_new_message(&back.id));
    assert_eq!(manager.stored_bytes(&back.id), Some(expected));
    // storing under the same identifier again replaces what was stored
    let mut second = sample(Duration::from_secs(2), at(11, 0));
    second.hop_count = 4;
    let expected = encode_message(&second);
    manager.record_created(second, Ok(())).unwrap();
    assert_eq!(manager.stored_bytes(&back.id), Some(expected));
}

#[test]
fn a_failed_mark_changes_nothing_and_hands_the_failure_on() {
    let mut manager = MessageManager::new();
    let id = MessageId::from_bytes(&[9; 16]);
    let failure = StorageError { reason: "io".into() };
    assert_eq!(manager.record_seen(&id, Err(failure.clone())), Err(failure));
    assert!(manager.is_new_message(&id));
    assert_eq!(manager.record_seen(&id, Ok(())), Ok(()));
    assert!(!manager.is_new_message(&id));
}

#[test]
fn a_store_that_fails_to_answer_counts_as_new() {
    assert!(MessageManager::is_new_from_lookup(Err(StorageError { reason: "io".into() })));
    assert!(MessageManager::is_new_from_lookup(Ok(false)));
    assert!(!MessageManager::is_new_from_lookup(Ok(true)));
}

#[test]
fn a_message_passes_at_once_and_fails_past_its_time_to_live() {
    let now = at(1_700_000_000, 250);
    let message = sample(Duration::from_secs(1), now);
    assert_eq!(MessageManager::validate_message_at(&message, &now), Ok(()));
    // exactly one second later: the age does not exceed the time-to-live
    assert_eq!(MessageManager::validate_message_at(&message, &at(1_700_000_001, 250)), Ok(()));
    // one nanosecond past
    assert_eq!(
        MessageManager::validate_message_at(&message, &at(1_700_000_001, 251)),
        Err(ExpiredError { age: Duration::new(1, 1).unwrap(), ttl: Duration::from_secs(1) })
    );
    let later = now.checked_add(&Duration::from_secs(5)).unwrap();
    assert_eq!(
        MessageManager::validate_message_at(&message, &later),
        Err(ExpiredError { age: Duration::from_secs(5), ttl: Duration::from_secs(1) })
    );
}

#[test]
fn a_message_stamped_after_now_has_age_zero() {
    let message = sample(Duration::zero(), at(100, 0));
    assert_eq!(MessageManager::validate_message_at(&message, &at(50, 0)), Ok(()));
    assert_eq!(MessageManager::validate_message_at(&message, &at(100, 0)), Ok(()));
    assert!(MessageManager::validate_message_at(&message, &at(100, 1)).is_err());
}

#[test]
fn validation_by_the_clock() {
    let manager = MessageManager::new();
    let fresh = Message::new(UserId([5; 32]), None, MessageContent::Text("x".into()));
    assert_eq!(manager.validate_message(&fresh), Ok(()));
    let old = sample(Duration::from_secs(1), at(1_000_000, 0));
    let refused = manager.validate_message(&old).unwrap_err();
    assert_eq!(refused.ttl, Duration::from_secs(1));
    assert!(refused.age.as_secs() > 1_000_000);
    assert_eq!(refused.message(), "Message expired".to_string());
}

#[test]
fn encrypt_then_decrypt_gives_the_content() {
    let manager = MessageManager::new();
    let key = UserId([1; 32]);
    let contents = vec![
        MessageContent::Text("Hello, mesh! \u{1F30D} \u{e9}".into()),
        MessageContent::Text(String::new()),
        MessageContent::File { name: "map.png".into(), data: vec![0, 255, 7, 7] },
        MessageContent::File { name: String::new(), data: vec![] },
        MessageContent::Routing(RoutingControl::Rerr { unreachable: vec![UserId([4; 32])] }),
    ];
    for content in contents {
        let bytes: Result<Vec<u8>, EncodeError> = manager.encrypt_message(&content, &key);
        let bytes = bytes.unwrap();
        assert_eq!(manager.decrypt_message(&bytes, &key), Ok(content.clone()));
        assert_eq!(content.tag() as u8, bytes[0]);
    }
}

#[test]
fn decrypt_refuses_malformed_bytes() {
    let manager = MessageManager::new();
    let key = UserId([1; 32]);
    assert_eq!(manager.decrypt_message(&[], &key), Err(DecodeError));
    assert_eq!(manager.decrypt_message(&[0, 0, 0], &key), Err(DecodeError));
    // a text of two bytes that are no UTF-8
    let bytes = [0u8, 0, 0, 0, 2, 0, 0, 0, 0, 0, 0, 0, 0xff, 0xfe];
    assert_eq!(manager.decrypt_message(&bytes, &key), Err(DecodeError));
    // a text that announces more bytes than there are
    let bytes = [0u8, 0, 0, 0, 3, 0, 0, 0, 0, 0, 0, 0, b'a', b'b'];
    assert_eq!(manager.decrypt_message(&bytes, &key), Err(DecodeError));
    // the same bytes with the right count
    let bytes = [0u8, 0, 0, 0, 2, 0, 0, 0, 0, 0, 0, 0, b'a', b'b'];
    assert_eq!(manager.decrypt_message(&bytes, &key), Ok(MessageContent::Text("ab".into())));
    // an unknown tag
    let bytes = [7u8, 0, 0, 0, 0, 0, 0, 0, 0, 0, 0, 0];
    assert_eq!(manager.decrypt_message(&bytes, &key), Err(DecodeError));
}

#[test]
fn priorities_are_ordered_by_urgency() {
    let all = [
        MessagePriority::Emergency,
        MessagePriority::Urgent,
        MessagePriority::Normal,
        MessagePriority::Background,
    ];
    for (i, a) in all.iter().enumerate() {
        assert_eq!(a.level(), i as u8);
        assert_eq!(MessagePriority::from_level(i as u8), Some(*a));
        for (j, b) in all.iter().enumerate() {
            assert_eq!(a < b, i < j);
            assert_eq!(a.more_urgent_than(*b), i < j);
            assert_eq!(a == b, i == j);
        }
    }
    assert_eq!(MessagePriority::from_level(4), None);
    assert!(MessagePriority::Emergency < MessagePriority::Background);
}

#[test]
fn every_created_message_has_an_identifier_of_its_own() {
    let mut manager = MessageManager::new();
    let mut ids = Vec::new();
    for i in 0..50u8 {
        let fresh = manager.fresh_id().unwrap();
        assert!(manager.is_new_message(&fresh));
        let message = manager
            .create_message(UserId([i; 32]), None, MessageContent::Text("x".into()))
            .unwrap();
        assert!(!ids.contains(&message.id));
        assert!(!manager.is_new_message(&message.id));
        ids.push(message.id);
    }
    for id in ids.iter() {
        assert!(manager.stored_bytes(id).is_some());
    }
    assert_eq!(MAX_ID_DRAWS, 8);
}

#[test]
fn what_the_store_answers_counts_beside_what_is_known_here() {
    let mut manager = MessageManager::new();
    let known = MessageId::from_bytes(&[1; 16]);
    let unknown = MessageId::from_bytes(&[2; 16]);
    manager.mark_message_seen(&known).unwrap();
    let failed = || Err(StorageError { reason: "io".into() });
    // known here: never new, whatever the store answers
    assert!(!manager.is_new_given(&known, Ok(false), Ok(false)));
    assert!(!manager.is_new_given(&known, failed(), failed()));
    // not known here: new unless the store holds it under one of the two
    assert!(manager.is_new_given(&unknown, Ok(false), Ok(false)));
    assert!(manager.is_new_given(&unknown, failed(), failed()));
    assert!(manager.is_new_given(&unknown, failed(), Ok(false)));
    assert!(!manager.is_new_given(&unknown, Ok(true), Ok(false)));
    assert!(!manager.is_new_given(&unknown, Ok(false), Ok(true)));
    assert!(!manager.is_new_given(&unknown, failed(), Ok(true)));
    assert!(!manager.is_new_given(&unknown, Ok(true), failed()));
}
