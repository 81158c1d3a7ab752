use proteus_core::stream::{find_subsequence, StreamReframer};

#[test]
fn find_subsequence_basics() {
    assert_eq!(find_subsequence(b"hello world", b"world"), Some(6));
    assert_eq!(find_subsequence(b"hello world", b"xyz"), None);
    assert_eq!(find_subsequence(b"", b"a"), None);
    assert_eq!(find_subsequence(b"aaa", b"aa"), Some(0));
    assert_eq!(find_subsequence(b"abcabc", b"abc"), Some(0));
    assert_eq!(find_subsequence(b"xxabc", b"abc"), Some(2));
}

fn framed(frame: &[u8]) -> Vec<u8> {
    let mut v = b"PROT:".to_vec();
    v.extend_from_slice(frame);
    v
}

#[test]
fn reframer_cuts_frames_fed_whole() {
    let f1 = [1u8, 2, 3, 4];
    let f2 = [5u8, 6, 7, 8];
    let mut stream = b"junk".to_vec();
    stream.extend(framed(&f1));
    stream.extend(b"noise");
    stream.extend(framed(&f2));
    stream.extend(b"PROT:\x09\x0a"); // trailing partial frame
    let mut r = StreamReframer::new(4);
    let frames = r.feed(&stream);
    assert_eq!(frames, vec![f1.to_vec(), f2.to_vec()]);
}

#[test]
fn reframer_is_chunking_independent() {
    let f1 = [1u8, 2, 3, 4];
    let f2 = [5u8, 6, 7, 8];
    let f3 = [9u8, 10, 11, 12];
    let mut stream = Vec::new();
    stream.extend(framed(&f1));
    stream.extend(b"PRO"); // a marker prefix that never completes a frame
    stream.extend(framed(&f2));
    stream.extend(framed(&f3));

    // Fed whole.
    let mut whole = StreamReframer::new(4);
    let collected_whole = whole.feed(&stream);

    // Fed one byte at a time.
    let mut bytewise = StreamReframer::new(4);
    let mut collected_bytes = Vec::new();
    for b in &stream {
        collected_bytes.extend(bytewise.feed(std::slice::from_ref(b)));
    }

    // Fed in ragged chunks of 3.
    let mut ragged = StreamReframer::new(4);
    let mut collected_ragged = Vec::new();
    for chunk in stream.chunks(3) {
        collected_ragged.extend(ragged.feed(chunk));
    }

    let expected = vec![f1.to_vec(), f2.to_vec(), f3.to_vec()];
    assert_eq!(collected_whole, expected);
    assert_eq!(collected_bytes, expected);
    assert_eq!(collected_ragged, expected);
}

#[test]
fn reframer_handles_marker_split_across_chunks() {
    let frame = [42u8, 43, 44, 45];
    let unit = framed(&frame);
    let (a, b) = unit.split_at(2); // split inside "PROT:"
    let mut r = StreamReframer::new(4);
    assert_eq!(r.feed(a), Vec::<Vec<u8>>::new());
    assert_eq!(r.feed(b), vec![frame.to_vec()]);
}

#[test]
fn reframer_skips_junk_between_frames() {
    let frame = [9u8, 9, 9, 9];
    let mut stream = b"GET / HTTP/1.1\r\n".to_vec();
    stream.extend(framed(&frame));
    let mut r = StreamReframer::new(4);
    assert_eq!(r.feed(&stream), vec![frame.to_vec()]);
}

#[test]
fn reframer_waits_for_full_frame() {
    let mut r = StreamReframer::new(4);
    assert_eq!(r.feed(b"PROT:\x01\x02"), Vec::<Vec<u8>>::new());
    assert_eq!(r.feed(b"\x03"), Vec::<Vec<u8>>::new());
    assert_eq!(r.feed(b"\x04"), vec![vec![1, 2, 3, 4]]);
}
