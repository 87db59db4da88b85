use disaster_mesh::routing_control::RoutingControl;
use disaster_mesh::types::UserId;
use disaster_mesh::wire::{decode_control, encode_control, DecodeError};

#[test]
fn test_routing_control_roundtrip() {
    let origin = UserId::random();
    let dest = UserId::random();
    let packet = RoutingControl::Rreq {
        origin,
        destination: dest,
        request_id: 42,
        hop_count: 0,
    };

    // Serialize then deserialize
    let encoded = encode_control(&packet);
    let decoded: RoutingControl = decode_control(&encoded).expect("deserialize");

    assert_eq!(packet, decoded);
}

#[test]
fn every_variant_round_trips() {
    let a = UserId([0xaa; 32]);
    let b = UserId([0xbb; 32]);
    let packets = vec![
        RoutingControl::Rreq { origin: a, destination: b, request_id: u32::MAX, hop_count: 255 },
        RoutingControl::Rrep { origin: b, destination: a, hop_count: 7 },
        RoutingControl::Rerr { unreachable: vec![] },
        RoutingControl::Rerr { unreachable: vec![a] },
        RoutingControl::Rerr { unreachable: vec![a, b, a, UserId([0; 32])] },
    ];
    for packet in packets {
        let encoded = encode_control(&packet);
        assert_eq!(decode_control(&encoded), Ok(packet.clone()));
        assert_eq!(packet.tag() as u8, encoded[0]);
    }
}

#[test]
fn the_wire_form_of_a_request_is_exact() {
    let mut origin = [0u8; 32];
    let mut destination = [0u8; 32];
    for i in 0..32 {
        origin[i] = i as u8;
        destination[i] = 0xf0 | (i as u8 & 0x0f);
    }
    let packet = RoutingControl::Rreq {
        origin: UserId(origin),
        destination: UserId(destination),
        request_id: 0x0102_0304,
        hop_count: 9,
    };
    let mut expected = vec![0u8, 0, 0, 0];
    expected.extend_from_slice(&origin);
    expected.extend_from_slice(&destination);
    expected.extend_from_slice(&[4, 3, 2, 1]);
    expected.push(9);
    assert_eq!(encode_control(&packet), expected);
    assert_eq!(expected.len(), 73);
}

#[test]
fn the_wire_form_of_a_reply_and_of_an_error_is_exact() {
    let a = UserId([1; 32]);
    let b = UserId([2; 32]);
    let reply = RoutingControl::Rrep { origin: a, destination: b, hop_count: 3 };
    let mut expected = vec![1u8, 0, 0, 0];
    expected.extend_from_slice(&[1; 32]);
    expected.extend_from_slice(&[2; 32]);
    expected.push(3);
    assert_eq!(encode_control(&reply), expected);

    let error = RoutingControl::Rerr { unreachable: vec![b, a] };
    let mut expected = vec![2u8, 0, 0, 0, 2, 0, 0, 0, 0, 0, 0, 0];
    expected.extend_from_slice(&[2; 32]);
    expected.extend_from_slice(&[1; 32]);
    assert_eq!(encode_control(&error), expected);

    let none = RoutingControl::Rerr { unreachable: vec![] };
    assert_eq!(encode_control(&none), vec![2u8, 0, 0, 0, 0, 0, 0, 0, 0, 0, 0, 0]);
}

#[test]
fn what_follows_a_packet_is_ignored() {
    let packet = RoutingControl::Rrep {
        origin: UserId([1; 32]),
        destination: UserId([2; 32]),
        hop_count: 3,
    };
    let mut encoded = encode_control(&packet);
    encoded.extend_from_slice(&[9, 9, 9]);
    assert_eq!(decode_control(&encoded), Ok(packet));
}

#[test]
fn truncated_bytes_are_refused() {
    let packets = vec![
        RoutingControl::Rreq {
            origin: UserId([1; 32]),
            destination: UserId([2; 32]),
            request_id: 42,
            hop_count: 1,
        },
        RoutingControl::Rrep { origin: UserId([1; 32]), destination: UserId([2; 32]), hop_count: 3 },
        RoutingControl::Rerr { unreachable: vec![UserId([5; 32]), UserId([6; 32])] },
    ];
    for packet in packets {
        let encoded = encode_control(&packet);
        for cut in 0..encoded.len() {
            assert_eq!(decode_control(&encoded[..cut]), Err(DecodeError), "cut at {}", cut);
        }
    }
}

#[test]
fn an_unknown_tag_is_refused() {
    let mut bytes = vec![3u8, 0, 0, 0];
    bytes.extend_from_slice(&[0; 80]);
    assert_eq!(decode_control(&bytes), Err(DecodeError));
    let mut bytes = vec![0u8, 1, 0, 0];
    bytes.extend_from_slice(&[0; 80]);
    assert_eq!(decode_control(&bytes), Err(DecodeError));
}

#[test]
fn a_count_beyond_the_bytes_is_refused() {
    // an error packet that announces 2^64 - 1 users and brings one
    let mut bytes = vec![2u8, 0, 0, 0];
    bytes.extend_from_slice(&[0xff; 8]);
    bytes.extend_from_slice(&[7; 32]);
    assert_eq!(decode_control(&bytes), Err(DecodeError));
    assert_eq!(
        DecodeError.message(),
        "malformed or truncated wire bytes".to_string()
    );
}
