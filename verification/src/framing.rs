//! Fixed binary layouts: the 12-byte data/ack frame header, the 8-byte
//! length handshake, and the length-prefixed padded payload envelope.

use vstd::prelude::*;

verus! {

/// Bytes of a data frame header: 4 bytes seq_id + 8 bytes timestamp.
pub const HEADER_SIZE: usize = 12;

/// Bytes of an acknowledgment frame: same layout as the header.
pub const ACK_SIZE: usize = 12;

/// Big-endian bytes of a `u16`.
pub open spec fn u16_be(x: u16) -> Seq<u8> {
    seq![(x >> 8) as u8, x as u8]
}

/// Big-endian bytes of a `u32`.
pub open spec fn u32_be(x: u32) -> Seq<u8> {
    seq![(x >> 24) as u8, (x >> 16) as u8, (x >> 8) as u8, x as u8]
}

/// Big-endian bytes of a `u64`.
pub open spec fn u64_be(x: u64) -> Seq<u8> {
    seq![
        (x >> 56) as u8,
        (x >> 48) as u8,
        (x >> 40) as u8,
        (x >> 32) as u8,
        (x >> 24) as u8,
        (x >> 16) as u8,
        (x >> 8) as u8,
        x as u8,
    ]
}

/// The `u16` read back from two big-endian bytes.
pub open spec fn u16_of_be(s: Seq<u8>) -> u16
    recommends
        s.len() == 2,
{
    (s[0] as u16) << 8 | (s[1] as u16)
}

/// The `u32` read back from four big-endian bytes.
pub open spec fn u32_of_be(s: Seq<u8>) -> u32
    recommends
        s.len() == 4,
{
    (s[0] as u32) << 24 | (s[1] as u32) << 16 | (s[2] as u32) << 8 | (s[3] as u32)
}

/// The `u64` read back from eight big-endian bytes.
pub open spec fn u64_of_be(s: Seq<u8>) -> u64
    recommends
        s.len() == 8,
{
    (s[0] as u64) << 56 | (s[1] as u64) << 48 | (s[2] as u64) << 40 | (s[3] as u64) << 32
        | (s[4] as u64) << 24 | (s[5] as u64) << 16 | (s[6] as u64) << 8 | (s[7] as u64)
}

/// Reading back the big-endian bytes of a `u16` yields the value again.
pub proof fn lemma_u16_be_round(x: u16)
    ensures
        u16_of_be(u16_be(x)) == x,
{
    assert(((x >> 8) as u8 as u16) << 8 | (x as u8 as u16) == x) by (bit_vector);
}

/// Reading back the big-endian bytes of a `u32` yields the value again.
pub proof fn lemma_u32_be_round(x: u32)
    ensures
        u32_of_be(u32_be(x)) == x,
{
    assert(((x >> 24) as u8 as u32) << 24 | ((x >> 16) as u8 as u32) << 16
        | ((x >> 8) as u8 as u32) << 8 | (x as u8 as u32) == x) by (bit_vector);
}

/// Reading back the big-endian bytes of a `u64` yields the value again.
pub proof fn lemma_u64_be_round(x: u64)
    ensures
        u64_of_be(u64_be(x)) == x,
{
    assert(((x >> 56) as u8 as u64) << 56 | ((x >> 48) as u8 as u64) << 48
        | ((x >> 40) as u8 as u64) << 40 | ((x >> 32) as u8 as u64) << 32
        | ((x >> 24) as u8 as u64) << 24 | ((x >> 16) as u8 as u64) << 16
        | ((x >> 8) as u8 as u64) << 8 | (x as u8 as u64) == x) by (bit_vector);
}

/// Any four bytes are the big-endian encoding of the value read from them.
pub proof fn lemma_u32_be_surjective(s: Seq<u8>)
    requires
        s.len() == 4,
    ensures
        u32_be(u32_of_be(s)) =~= s,
{
    let b0 = s[0];
    let b1 = s[1];
    let b2 = s[2];
    let b3 = s[3];
    let x = u32_of_be(s);
    assert(x == (b0 as u32) << 24 | (b1 as u32) << 16 | (b2 as u32) << 8 | (b3 as u32));
    assert({
        let y = (b0 as u32) << 24 | (b1 as u32) << 16 | (b2 as u32) << 8 | (b3 as u32);
        (y >> 24) as u8 == b0 && (y >> 16) as u8 == b1 && (y >> 8) as u8 == b2 && y as u8 == b3
    }) by (bit_vector);
}

/// Any eight bytes are the big-endian encoding of the value read from them.
pub proof fn lemma_u64_be_surjective(s: Seq<u8>)
    requires
        s.len() == 8,
    ensures
        u64_be(u64_of_be(s)) =~= s,
{
    let b0 = s[0];
    let b1 = s[1];
    let b2 = s[2];
    let b3 = s[3];
    let b4 = s[4];
    let b5 = s[5];
    let b6 = s[6];
    let b7 = s[7];
    assert({
        let y = (b0 as u64) << 56 | (b1 as u64) << 48 | (b2 as u64) << 40 | (b3 as u64) << 32
            | (b4 as u64) << 24 | (b5 as u64) << 16 | (b6 as u64) << 8 | (b7 as u64);
        (y >> 56) as u8 == b0 && (y >> 48) as u8 == b1 && (y >> 40) as u8 == b2
            && (y >> 32) as u8 == b3 && (y >> 24) as u8 == b4 && (y >> 16) as u8 == b5
            && (y >> 8) as u8 == b6 && y as u8 == b7
    }) by (bit_vector);
}

/// Relies on std's SystemTime::now / duration_since / as_micros: microseconds
/// since the UNIX epoch, an arbitrary machine-clock reading (0 if the clock
/// sits before the epoch).
#[verifier::external_body]
pub(crate) fn now_micros() -> u64 {
    match std::time::SystemTime::now().duration_since(std::time::UNIX_EPOCH) {
        Ok(d) => d.as_micros() as u64,
        Err(_) => 0,
    }
}

/// Header stamped on every outgoing data frame.
#[derive(Debug, Clone, Copy, PartialEq, Eq, Structural)]
pub struct PacketHeader {
    pub seq_id: u32,
    /// Microseconds since the UNIX epoch at send time.
    pub timestamp: u64,
}

/// The 12 bytes a header serializes to.
pub open spec fn header_bytes(h: PacketHeader) -> Seq<u8> {
    u32_be(h.seq_id) + u64_be(h.timestamp)
}

/// The header read back from a byte string, if it is long enough.
pub open spec fn parse_header(s: Seq<u8>) -> Option<PacketHeader> {
    if s.len() < HEADER_SIZE {
        None
    } else {
        Some(PacketHeader {
            seq_id: u32_of_be(s.subrange(0, 4)),
            timestamp: u64_of_be(s.subrange(4, 12)),
        })
    }
}

impl PacketHeader {
    /// Create a new header for the current moment.
    pub fn new(seq_id: u32) -> (r: Self)
        ensures
            r.seq_id == seq_id,
    {
        PacketHeader { seq_id, timestamp: now_micros() }
    }

    /// Serialize into the fixed 12-byte layout.
    pub fn to_bytes(&self) -> (r: Vec<u8>)
        ensures
            r@ == header_bytes(*self),
            r@.len() == HEADER_SIZE,
    {
        let mut r: Vec<u8> = Vec::new();
        push_u32_be(&mut r, self.seq_id);
        push_u64_be(&mut r, self.timestamp);
        proof {
            assert(r@ =~= header_bytes(*self));
        }
        r
    }

    /// Deserialize bytes back into a header; `None` on fewer than 12 bytes.
    pub fn from_bytes(bytes: &[u8]) -> (r: Option<Self>)
        ensures
            r == parse_header(bytes@),
    {
        if bytes.len() < HEADER_SIZE {
            return None;
        }
        let seq_id = read_u32_be(bytes, 0);
        let timestamp = read_u64_be(bytes, 4);
        Some(PacketHeader { seq_id, timestamp })
    }
}

/// A parsed header re-serializes to the bytes it was read from, and the
/// 12 bytes of a header parse back to the same header.
pub proof fn lemma_header_round_trip(h: PacketHeader)
    ensures
        parse_header(header_bytes(h)) == Some(h),
{
    let s = header_bytes(h);
    assert(s.subrange(0, 4) =~= u32_be(h.seq_id));
    assert(s.subrange(4, 12) =~= u64_be(h.timestamp));
    lemma_u32_be_round(h.seq_id);
    lemma_u64_be_round(h.timestamp);
}

/// Serializing the header parsed from any 12 bytes reproduces those bytes.
pub proof fn lemma_header_parse_total(s: Seq<u8>)
    requires
        s.len() == HEADER_SIZE,
    ensures
        parse_header(s) is Some,
        header_bytes(parse_header(s).unwrap()) =~= s,
{
    let h = parse_header(s).unwrap();
    lemma_u32_be_surjective(s.subrange(0, 4));
    lemma_u64_be_surjective(s.subrange(4, 12));
    assert(header_bytes(h) =~= s);
}

/// Acknowledgment echoing a frame's identifiers back to the sender.
#[derive(Debug, Clone, Copy, PartialEq, Eq, Structural)]
pub struct AckPacket {
    pub seq_id: u32,
    pub timestamp: u64,
}

/// The 12 bytes an acknowledgment serializes to.
pub open spec fn ack_bytes(a: AckPacket) -> Seq<u8> {
    u32_be(a.seq_id) + u64_be(a.timestamp)
}

/// The acknowledgment read back from a byte string, if it is long enough.
pub open spec fn parse_ack(s: Seq<u8>) -> Option<AckPacket> {
    if s.len() < ACK_SIZE {
        None
    } else {
        Some(AckPacket {
            seq_id: u32_of_be(s.subrange(0, 4)),
            timestamp: u64_of_be(s.subrange(4, 12)),
        })
    }
}

impl AckPacket {
    pub fn new(seq_id: u32, timestamp: u64) -> (r: Self)
        ensures
            r == (AckPacket { seq_id, timestamp }),
    {
        AckPacket { seq_id, timestamp }
    }

    /// Serialize into the fixed 12-byte layout.
    pub fn to_bytes(&self) -> (r: Vec<u8>)
        ensures
            r@ == ack_bytes(*self),
            r@.len() == ACK_SIZE,
    {
        let mut r: Vec<u8> = Vec::new();
        push_u32_be(&mut r, self.seq_id);
        push_u64_be(&mut r, self.timestamp);
        proof {
            assert(r@ =~= ack_bytes(*self));
        }
        r
    }

    /// Deserialize bytes back into an acknowledgment; `None` on fewer than
    /// 12 bytes.
    pub fn from_bytes(bytes: &[u8]) -> (r: Option<Self>)
        ensures
            r == parse_ack(bytes@),
    {
        if bytes.len() < ACK_SIZE {
            return None;
        }
        let seq_id = read_u32_be(bytes, 0);
        let timestamp = read_u64_be(bytes, 4);
        Some(AckPacket { seq_id, timestamp })
    }
}

/// An acknowledgment survives a serialize/parse round trip.
pub proof fn lemma_ack_round_trip(a: AckPacket)
    ensures
        parse_ack(ack_bytes(a)) == Some(a),
{
    let s = ack_bytes(a);
    assert(s.subrange(0, 4) =~= u32_be(a.seq_id));
    assert(s.subrange(4, 12) =~= u64_be(a.timestamp));
    lemma_u32_be_round(a.seq_id);
    lemma_u64_be_round(a.timestamp);
}

/// The 8 raw big-endian bytes the sender transmits before streaming so the
/// receiver can size its decoder: the sealed blob's total length.
pub open spec fn handshake_bytes(n: u64) -> Seq<u8> {
    u64_be(n)
}

/// Serialize the length handshake.
pub fn encode_handshake(n: u64) -> (r: Vec<u8>)
    ensures
        r@ == handshake_bytes(n),
        r@.len() == 8,
{
    let mut r: Vec<u8> = Vec::new();
    push_u64_be(&mut r, n);
    proof {
        assert(r@ =~= handshake_bytes(n));
    }
    r
}

/// Parse the length handshake; `None` on fewer than 8 bytes.
pub fn decode_handshake(bytes: &[u8]) -> (r: Option<u64>)
    ensures
        bytes@.len() >= 8 ==> r == Some(u64_of_be(bytes@.subrange(0, 8))),
        bytes@.len() < 8 ==> r is None,
{
    if bytes.len() < 8 {
        return None;
    }
    Some(read_u64_be(bytes, 0))
}

/// The length handshake survives a round trip.
pub proof fn lemma_handshake_round_trip(n: u64)
    ensures
        handshake_bytes(n).len() == 8,
        u64_of_be(handshake_bytes(n).subrange(0, 8)) == n,
{
    assert(handshake_bytes(n).subrange(0, 8) =~= u64_be(n));
    lemma_u64_be_round(n);
}

/// The payload envelope: 2-byte big-endian length, the payload itself, and
/// zero padding up to `total` bytes so every on-wire unit has uniform size.
pub open spec fn envelope_bytes(payload: Seq<u8>, total: nat) -> Seq<u8>
    recommends
        payload.len() <= u16::MAX,
{
    let body = u16_be(payload.len() as u16) + payload;
    if body.len() >= total {
        body
    } else {
        body + Seq::new((total - body.len()) as nat, |i: int| 0u8)
    }
}

/// The payload hidden in an envelope: the prefix whose length the first two
/// bytes give; `None` when the envelope is too short to hold it.
pub open spec fn envelope_payload(s: Seq<u8>) -> Option<Seq<u8>> {
    if s.len() < 2 {
        None
    } else {
        let n = u16_of_be(s.subrange(0, 2)) as int;
        if s.len() >= 2 + n {
            Some(s.subrange(2, 2 + n))
        } else {
            None
        }
    }
}

/// Wrap a payload in the length-prefixed envelope, zero padded to `total`.
pub fn envelope_wrap(payload: &Vec<u8>, total: usize) -> (r: Vec<u8>)
    requires
        payload@.len() <= u16::MAX,
    ensures
        r@ == envelope_bytes(payload@, total as nat),
{
    let mut r: Vec<u8> = Vec::new();
    let len = payload.len() as u16;
    r.push((len >> 8) as u8);
    r.push(len as u8);
    let mut i: usize = 0;
    while i < payload.len()
        invariant
            i <= payload@.len(),
            payload@.len() <= u16::MAX,
            r@ == u16_be(payload@.len() as u16) + payload@.subrange(0, i as int),
        decreases payload@.len() - i,
    {
        r.push(payload[i]);
        i = i + 1;
        proof {
            assert(r@ =~= u16_be(payload@.len() as u16) + payload@.subrange(0, i as int));
        }
    }
    proof {
        assert(payload@.subrange(0, payload@.len() as int) =~= payload@);
    }
    let ghost body = u16_be(payload@.len() as u16) + payload@;
    while r.len() < total
        invariant
            body.len() <= r@.len() <= vstd::math::max(body.len() as int, total as int),
            r@.subrange(0, body.len() as int) == body,
            forall|k: int| body.len() <= k < r@.len() ==> r@[k] == 0u8,
        decreases total - r@.len(),
    {
        r.push(0u8);
        proof {
            assert(r@.subrange(0, body.len() as int) =~= body);
        }
    }
    proof {
        assert(r@ =~= envelope_bytes(payload@, total as nat));
    }
    r
}

/// Unwrap an envelope; `None` when it is shorter than its own length prefix
/// claims.
pub fn envelope_unwrap(data: &Vec<u8>) -> (r: Option<Vec<u8>>)
    ensures
        match r {
            Some(p) => envelope_payload(data@) == Some(p@),
            None => envelope_payload(data@) is None,
        },
{
    if data.len() < 2 {
        return None;
    }
    let n = ((data[0] as u16) << 8 | (data[1] as u16)) as usize;
    proof {
        assert(data@.subrange(0, 2)[0] == data@[0] && data@.subrange(0, 2)[1] == data@[1]);
    }
    if data.len() < 2 || n > data.len() - 2 {
        return None;
    }
    let mut p: Vec<u8> = Vec::new();
    let mut i: usize = 0;
    while i < n
        invariant
            i <= n,
            2 + n <= data@.len(),
            data@.len() <= usize::MAX,
            p@ == data@.subrange(2, 2 + i as int),
        decreases n - i,
    {
        p.push(data[2 + i]);
        i = i + 1;
        proof {
            assert(p@ =~= data@.subrange(2, 2 + i as int));
        }
    }
    Some(p)
}

/// Unwrapping a wrapped payload yields the payload again, whatever padding
/// size was in force.
pub proof fn lemma_envelope_round_trip(payload: Seq<u8>, total: nat)
    requires
        payload.len() <= u16::MAX,
    ensures
        envelope_payload(envelope_bytes(payload, total)) == Some(payload),
{
    let e = envelope_bytes(payload, total);
    assert(e.subrange(0, 2) =~= u16_be(payload.len() as u16));
    lemma_u16_be_round(payload.len() as u16);
    assert(e.subrange(2, 2 + payload.len() as int) =~= payload);
}

/// Append the four big-endian bytes of `x`.
pub fn push_u32_be(v: &mut Vec<u8>, x: u32)
    ensures
        final(v)@ == old(v)@ + u32_be(x),
{
    v.push((x >> 24) as u8);
    v.push((x >> 16) as u8);
    v.push((x >> 8) as u8);
    v.push(x as u8);
    proof {
        assert(v@ =~= old(v)@ + u32_be(x));
    }
}

/// Append the eight big-endian bytes of `x`.
pub fn push_u64_be(v: &mut Vec<u8>, x: u64)
    ensures
        final(v)@ == old(v)@ + u64_be(x),
{
    v.push((x >> 56) as u8);
    v.push((x >> 48) as u8);
    v.push((x >> 40) as u8);
    v.push((x >> 32) as u8);
    v.push((x >> 24) as u8);
    v.push((x >> 16) as u8);
    v.push((x >> 8) as u8);
    v.push(x as u8);
    proof {
        assert(v@ =~= old(v)@ + u64_be(x));
    }
}

/// Read a big-endian `u32` starting at `at`.
pub fn read_u32_be(bytes: &[u8], at: usize) -> (r: u32)
    requires
        at + 4 <= bytes@.len(),
    ensures
        r == u32_of_be(bytes@.subrange(at as int, at + 4)),
{
    let r = (bytes[at] as u32) << 24 | (bytes[at + 1] as u32) << 16 | (bytes[at + 2] as u32) << 8
        | (bytes[at + 3] as u32);
    proof {
        let s = bytes@.subrange(at as int, at + 4);
        assert(s[0] == bytes@[at as int] && s[1] == bytes@[at + 1] && s[2] == bytes@[at + 2]
            && s[3] == bytes@[at + 3]);
    }
    r
}

/// Read a big-endian `u64` starting at `at`.
pub fn read_u64_be(bytes: &[u8], at: usize) -> (r: u64)
    requires
        at + 8 <= bytes@.len(),
    ensures
        r == u64_of_be(bytes@.subrange(at as int, at + 8)),
{
    let r = (bytes[at] as u64) << 56 | (bytes[at + 1] as u64) << 48 | (bytes[at + 2] as u64) << 40
        | (bytes[at + 3] as u64) << 32 | (bytes[at + 4] as u64) << 24
        | (bytes[at + 5] as u64) << 16 | (bytes[at + 6] as u64) << 8 | (bytes[at + 7] as u64);
    proof {
        let s = bytes@.subrange(at as int, at + 8);
        assert(s[0] == bytes@[at as int] && s[1] == bytes@[at + 1] && s[2] == bytes@[at + 2]
            && s[3] == bytes@[at + 3] && s[4] == bytes@[at + 4] && s[5] == bytes@[at + 5]
            && s[6] == bytes@[at + 6] && s[7] == bytes@[at + 7]);
    }
    r
}

} // verus!
