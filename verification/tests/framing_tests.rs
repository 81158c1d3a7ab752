use proteus_core::framing::{
    decode_handshake, encode_handshake, envelope_unwrap, envelope_wrap, AckPacket, PacketHeader,
};

#[test]
fn header_round_trip_exact_bytes() {
    let h = PacketHeader { seq_id: 0x01020304, timestamp: 0x05060708090a0b0c };
    let bytes = h.to_bytes();
    assert_eq!(bytes, vec![1, 2, 3, 4, 5, 6, 7, 8, 9, 10, 11, 12]);
    let back = PacketHeader::from_bytes(&bytes).unwrap();
    assert_eq!(back.seq_id, 0x01020304);
    assert_eq!(back.timestamp, 0x05060708090a0b0c);
}

#[test]
fn header_new_stamps_seq() {
    let h = PacketHeader::new(42);
    assert_eq!(h.seq_id, 42);
    let back = PacketHeader::from_bytes(&h.to_bytes()).unwrap();
    assert_eq!(back, h);
}

#[test]
fn header_short_input_is_none() {
    assert!(PacketHeader::from_bytes(&[]).is_none());
    assert!(PacketHeader::from_bytes(&[0; 11]).is_none());
    assert!(PacketHeader::from_bytes(&[0; 12]).is_some());
}

#[test]
fn ack_round_trip() {
    let a = AckPacket::new(7, 123_456_789);
    let bytes = a.to_bytes();
    assert_eq!(bytes.len(), 12);
    let back = AckPacket::from_bytes(&bytes).unwrap();
    assert_eq!(back.seq_id, 7);
    assert_eq!(back.timestamp, 123_456_789);
}

#[test]
fn ack_short_input_is_none() {
    assert!(AckPacket::from_bytes(&[1, 2, 3]).is_none());
}

#[test]
fn handshake_round_trip() {
    let bytes = encode_handshake(61);
    assert_eq!(bytes, vec![0, 0, 0, 0, 0, 0, 0, 61]);
    assert_eq!(decode_handshake(&bytes), Some(61));
    assert_eq!(decode_handshake(&bytes[..7]), None);
}

#[test]
fn envelope_pads_to_uniform_size() {
    let payload = vec![1u8, 2, 3];
    let env = envelope_wrap(&payload, 10);
    assert_eq!(env, vec![0, 3, 1, 2, 3, 0, 0, 0, 0, 0]);
    assert_eq!(envelope_unwrap(&env), Some(vec![1, 2, 3]));
}

#[test]
fn envelope_longer_than_target_is_not_truncated() {
    let payload = vec![9u8; 20];
    let env = envelope_wrap(&payload, 10);
    assert_eq!(env.len(), 22);
    assert_eq!(envelope_unwrap(&env), Some(payload));
}

#[test]
fn envelope_rejects_short_or_lying_input() {
    assert_eq!(envelope_unwrap(&vec![]), None);
    assert_eq!(envelope_unwrap(&vec![0]), None);
    // Length prefix claims 5 bytes but only 2 follow.
    assert_eq!(envelope_unwrap(&vec![0, 5, 1, 2]), None);
}

#[test]
fn envelope_empty_payload() {
    let env = envelope_wrap(&vec![], 4);
    assert_eq!(env, vec![0, 0, 0, 0]);
    assert_eq!(envelope_unwrap(&env), Some(vec![]));
}

#[test]
fn protocol_packet_variants_carry_their_fields() {
    let data = proteus_core::ProteusPacket::Data { seq: 3, payload: vec![1, 2] };
    let ctrl = proteus_core::ProteusPacket::Control { current_rank: 9, is_complete: true };
    match data {
        proteus_core::ProteusPacket::Data { seq, payload } => {
            assert_eq!(seq, 3);
            assert_eq!(payload, vec![1, 2]);
        }
        _ => panic!("wrong variant"),
    }
    match ctrl {
        proteus_core::ProteusPacket::Control { current_rank, is_complete } => {
            assert_eq!(current_rank, 9);
            assert!(is_complete);
        }
        _ => panic!("wrong variant"),
    }
}

#[test]
fn subvec_copies_the_exact_range() {
    let v = vec![10u8, 20, 30, 40, 50];
    assert_eq!(proteus_core::subvec(&v, 1, 4), vec![20, 30, 40]);
    assert_eq!(proteus_core::subvec(&v, 0, 0), Vec::<u8>::new());
    assert_eq!(proteus_core::subvec(&v, 0, 5), v);
}
