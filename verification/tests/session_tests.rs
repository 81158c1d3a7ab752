use proteus_core::disguise::encode_cover;
use proteus_core::fec::encode_symbols;
use proteus_core::sealer::encrypt;
use proteus_core::session::{redundancy_for, ReceiveOutcome, Receiver, Sender, StreamReceiver};

fn key() -> Vec<u8> {
    vec![0x11u8; 32]
}

#[test]
fn redundancy_follows_loss_estimate() {
    assert_eq!(redundancy_for(0), 1);
    assert_eq!(redundancy_for(10), 1);
    assert_eq!(redundancy_for(11), 2);
    assert_eq!(redundancy_for(100), 2);
}

#[test]
fn burst_lines_look_like_http_requests() {
    let mut sender = Sender::new(key(), 64, 400);
    let lines = sender.next_burst(&b"payload".to_vec(), 2);
    // ceil(400 / 64) = 7 source symbols, plus 2 repair.
    assert_eq!(lines.len(), 9);
    for line in &lines {
        assert!(line.starts_with(b"GET /search?q="));
        assert!(line.ends_with(b" HTTP/1.1\n"));
    }
}

#[test]
fn datagram_end_to_end_with_garbage_and_duplicates() {
    let payload = b"the tank is moving".to_vec();
    let mut sender = Sender::new(key(), 64, 400);
    let lines = sender.next_burst(&payload, 3);
    let mut receiver = Receiver::new(key(), 400, 64);

    let mut delivered = None;
    for (i, line) in lines.iter().enumerate() {
        // Unrelated traffic shares the channel and must be skipped.
        let noise = b"GET /other HTTP/1.1\n".to_vec();
        assert!(matches!(receiver.process_line(&noise), ReceiveOutcome::Malformed));
        // Every fifth line is lost; the repair symbols cover for them.
        if i % 5 == 0 {
            continue;
        }
        match receiver.process_line(line) {
            ReceiveOutcome::Delivered { plaintext } => {
                delivered = Some(plaintext);
                break;
            }
            ReceiveOutcome::Accepted { seq_id, .. } => {
                assert_eq!(seq_id, 0);
            }
            other => panic!("unexpected outcome: {}", discriminant_name(&other)),
        }
    }
    assert_eq!(delivered, Some(payload));

    // Later symbols for the same message are discarded.
    assert!(matches!(receiver.process_line(&lines[0]), ReceiveOutcome::AlreadyComplete));
}

fn discriminant_name(o: &ReceiveOutcome) -> &'static str {
    match o {
        ReceiveOutcome::Malformed => "Malformed",
        ReceiveOutcome::Accepted { .. } => "Accepted",
        ReceiveOutcome::Delivered { .. } => "Delivered",
        ReceiveOutcome::AuthFailed => "AuthFailed",
        ReceiveOutcome::AlreadyComplete => "AlreadyComplete",
    }
}

#[test]
fn wrong_key_receiver_fails_auth_and_keeps_listening() {
    let payload = b"for your eyes only".to_vec();
    let mut sender = Sender::new(key(), 64, 400);
    let lines = sender.next_burst(&payload, 2);
    let mut receiver = Receiver::new(vec![0x22u8; 32], 400, 64);

    let mut saw_auth_failure = false;
    for line in &lines {
        match receiver.process_line(line) {
            ReceiveOutcome::AuthFailed => {
                saw_auth_failure = true;
            }
            ReceiveOutcome::Delivered { .. } => panic!("delivered under the wrong key"),
            _ => {}
        }
    }
    assert!(saw_auth_failure);
}

#[test]
fn sequence_numbers_advance_per_burst() {
    let mut sender = Sender::new(key(), 64, 400);
    let first = sender.next_burst(&b"a".to_vec(), 0);
    let second = sender.next_burst(&b"b".to_vec(), 0);
    assert!(first[0].ends_with(b"&seq=0 HTTP/1.1\n"));
    assert!(second[0].ends_with(b"&seq=1 HTTP/1.1\n"));
}

/// End-to-end over the byte-stream path: the secret is sealed, spread over
/// 4-byte symbols with 50% repair overhead, pushed through 40% uniform
/// loss, and — because the code is rateless — streamed on until the
/// receiver completes, with no false completion on the way.
#[test]
fn stream_end_to_end_under_forty_percent_loss() {
    let plaintext = b"PROTEUS_SECRET: hello".to_vec();
    assert_eq!(plaintext.len(), 21);
    let blob = encrypt(&plaintext, &key());
    assert_eq!(blob.len(), 61);

    // ceil(61 / 4) = 16 source symbols; 50% overhead adds 8 repair.
    let first_burst = encode_symbols(&blob, 4, 8);
    assert_eq!(first_burst.len(), 24);

    let mut receiver = StreamReceiver::new(key(), 61, 4);
    let mut delivered = None;

    // 40% uniform loss: indices 0 and 1 of every 5 are dropped, so only
    // 14 or 15 of the 24 symbols arrive — below the threshold of 16.
    for (i, packet) in first_burst.iter().enumerate() {
        if i % 5 < 2 {
            continue;
        }
        let mut unit = b"PROT:".to_vec();
        unit.extend_from_slice(packet);
        // The transport chunks the stream arbitrarily small.
        for b in &unit {
            if let Some(m) = receiver.feed_bytes(std::slice::from_ref(b)) {
                delivered = Some(m);
            }
        }
    }
    // No false completion from an insufficient symbol set.
    assert_eq!(delivered, None);

    // The sender keeps streaming fresh repair symbols; the same loss
    // pattern applies until reconstruction succeeds.
    let extended = encode_symbols(&blob, 4, 64);
    for (i, packet) in extended.iter().enumerate().skip(24) {
        if i % 5 < 2 {
            continue;
        }
        let mut unit = b"PROT:".to_vec();
        unit.extend_from_slice(packet);
        if let Some(m) = receiver.feed_bytes(&unit) {
            delivered = Some(m);
            break;
        }
    }
    assert_eq!(delivered, Some(plaintext));
}

#[test]
fn stream_receiver_ignores_leading_garbage() {
    let plaintext = b"covert".to_vec();
    let blob = encrypt(&plaintext, &key());
    let packets = encode_symbols(&blob, 4, 4);
    let mut receiver = StreamReceiver::new(key(), blob.len() as u64, 4);

    let mut stream = b"HTTP/1.1 200 OK".to_vec();
    for p in &packets {
        stream.extend_from_slice(b"PROT:");
        stream.extend_from_slice(p);
    }
    let mut delivered = None;
    for chunk in stream.chunks(7) {
        if let Some(m) = receiver.feed_bytes(chunk) {
            delivered = Some(m);
        }
    }
    assert_eq!(delivered, Some(plaintext));
}

#[test]
fn stream_receiver_never_delivers_under_wrong_key() {
    let plaintext = b"covert".to_vec();
    let blob = encrypt(&plaintext, &key());
    let packets = encode_symbols(&blob, 4, 8);
    let mut receiver = StreamReceiver::new(vec![0x33u8; 32], blob.len() as u64, 4);

    for p in &packets {
        let mut unit = b"PROT:".to_vec();
        unit.extend_from_slice(p);
        assert_eq!(receiver.feed_bytes(&unit), None);
    }
}

/// One well-formed garbage candidate must not wedge the session: after the
/// tag check fails the decoder is rebound, and the real symbols can still
/// form the message (spec: drop the decoded candidate, keep listening).
#[test]
fn receiver_recovers_after_poisoned_candidate() {
    let payload = b"recover me".to_vec();
    let mut sender = Sender::new(key(), 4, 61);
    let lines = sender.next_burst(&payload, 8);
    let mut receiver = Receiver::new(key(), 61, 4);

    // 16 forged source symbols with distinct ids reconstruct a garbage
    // blob; the envelope/tag check rejects it.
    let mut saw_auth_failure = false;
    for esi in 0..16u8 {
        let mut forged = vec![0u8; 12]; // any 12-byte header
        forged.extend_from_slice(&[0, 0, 0, esi, 0xAA, 0xAA, 0xAA, 0xAA]);
        let line = encode_cover(&forged, esi as u32);
        match receiver.process_line(&line) {
            ReceiveOutcome::AuthFailed => saw_auth_failure = true,
            ReceiveOutcome::Accepted { .. } => {}
            other => panic!("unexpected outcome: {}", discriminant_name(&other)),
        }
    }
    assert!(saw_auth_failure);

    // The genuine burst still completes.
    let mut delivered = None;
    for line in &lines {
        if let ReceiveOutcome::Delivered { plaintext } = receiver.process_line(line) {
            delivered = Some(plaintext);
            break;
        }
    }
    assert_eq!(delivered, Some(payload));
}

#[test]
fn stream_receiver_recovers_after_poisoned_candidate() {
    let plaintext = b"covert".to_vec();
    let blob = encrypt(&plaintext, &key());
    assert_eq!(blob.len(), 46);
    let mut receiver = StreamReceiver::new(key(), 46, 4);

    // 12 forged source symbols complete a garbage reconstruction, which
    // fails the tag check and is silently dropped.
    for esi in 0..12u8 {
        let mut unit = b"PROT:".to_vec();
        unit.extend_from_slice(&[0, 0, 0, esi, 0x55, 0x55, 0x55, 0x55]);
        assert_eq!(receiver.feed_bytes(&unit), None);
    }

    // The genuine symbols still complete the message.
    let packets = encode_symbols(&blob, 4, 8);
    let mut delivered = None;
    for p in &packets {
        let mut unit = b"PROT:".to_vec();
        unit.extend_from_slice(p);
        if let Some(m) = receiver.feed_bytes(&unit) {
            delivered = Some(m);
            break;
        }
    }
    assert_eq!(delivered, Some(plaintext));
}
