use proteus_core::fec::{encode_symbols, FecDecoder};

fn blob() -> Vec<u8> {
    (0..61u8).collect()
}

#[test]
fn encode_counts_and_shape() {
    let data = blob();
    // ceil(61 / 4) = 16 source symbols, plus 8 repair.
    let packets = encode_symbols(&data, 4, 8);
    assert_eq!(packets.len(), 24);
    for p in &packets {
        assert_eq!(p.len(), 8);
        assert_eq!(p[0], 0);
    }
}

#[test]
fn decode_from_source_symbols_in_order() {
    let data = blob();
    let packets = encode_symbols(&data, 4, 0);
    let mut dec = FecDecoder::new(61, 4);
    let mut result = None;
    for p in &packets {
        if let Some(out) = dec.feed(p) {
            result = Some(out);
            break;
        }
    }
    assert_eq!(result, Some(data));
}

#[test]
fn decode_is_order_independent() {
    let data = blob();
    let packets = encode_symbols(&data, 4, 8);
    // Reversed order.
    let mut dec = FecDecoder::new(61, 4);
    let mut result = None;
    for p in packets.iter().rev() {
        if let Some(out) = dec.feed(p) {
            result = Some(out);
            break;
        }
    }
    assert_eq!(result, Some(data.clone()));
    // Interleaved order: evens then odds.
    let mut dec2 = FecDecoder::new(61, 4);
    let mut result2 = None;
    let reordered: Vec<_> = packets
        .iter()
        .step_by(2)
        .chain(packets.iter().skip(1).step_by(2))
        .collect();
    for p in reordered {
        if result2.is_none() {
            if let Some(out) = dec2.feed(p) {
                result2 = Some(out);
            }
        }
    }
    assert_eq!(result2, Some(data));
}

#[test]
fn decode_survives_loss_with_repair_symbols() {
    let data = blob();
    let packets = encode_symbols(&data, 4, 16);
    // Drop 12 of the 32 symbols (indices 0,1 mod 5 are lost).
    let mut dec = FecDecoder::new(61, 4);
    let mut result = None;
    for (i, p) in packets.iter().enumerate() {
        if i % 5 < 2 {
            continue;
        }
        if let Some(out) = dec.feed(p) {
            result = Some(out);
            break;
        }
    }
    assert_eq!(result, Some(data));
}

#[test]
fn duplicates_are_tolerated_and_ignored() {
    let data = blob();
    let packets = encode_symbols(&data, 4, 0);
    let mut dec = FecDecoder::new(61, 4);
    // Feed the first symbol many times: never enough by itself.
    for _ in 0..20 {
        assert_eq!(dec.feed(&packets[0]), None);
    }
    let mut result = None;
    for p in &packets {
        if let Some(out) = dec.feed(p) {
            result = Some(out);
            break;
        }
    }
    assert_eq!(result, Some(data));
}

#[test]
fn below_threshold_never_decodes() {
    let data = blob();
    let packets = encode_symbols(&data, 4, 16);
    // 16 source symbols are needed; any 15 distinct symbols are not enough.
    let mut dec = FecDecoder::new(61, 4);
    for p in packets.iter().take(15) {
        assert_eq!(dec.feed(p), None);
    }
    let mut dec2 = FecDecoder::new(61, 4);
    for p in packets.iter().rev().take(15) {
        assert_eq!(dec2.feed(p), None);
    }
}

#[test]
fn single_symbol_blob() {
    let data = vec![0xAB, 0xCD];
    let packets = encode_symbols(&data, 4, 2);
    assert_eq!(packets.len(), 3);
    let mut dec = FecDecoder::new(2, 4);
    let out = dec.feed(&packets[0]);
    assert_eq!(out, Some(data));
}
