//! Rateless forward erasure coding over a byte blob: encoding produces the
//! source symbols plus any number of repair symbols; decoding accumulates
//! symbols one at a time, in any order and with duplicates tolerated, until
//! the blob can be reconstructed.
//!
//! Both ends bind the codec to `(transfer length, symbol size)` with one
//! source block, one sub-block and alignment 1, so the 4-byte payload
//! identifier leading every serialized symbol always names source block 0.

use vstd::prelude::*;

verus! {

/// Most source symbols one block may hold (RFC 6330's K'_max).
pub const MAX_SOURCE_SYMBOLS: usize = 56403;

/// `ceil(len / size)`: how many source symbols a blob of `len` bytes yields.
pub open spec fn symbols_needed(len: nat, size: nat) -> nat
    recommends
        size >= 1,
{
    ((len + size - 1) / size as int) as nat
}

/// The `i`-th `size`-byte fragment of a blob, zero padded past the blob's
/// end: the data a source symbol carries directly.
pub open spec fn padded_fragment(data: Seq<u8>, size: u16, i: int) -> Seq<u8> {
    Seq::new(
        size as nat,
        |t: int|
            if i * (size as int) + t < data.len() {
                data[i * (size as int) + t]
            } else {
                0u8
            },
    )
}

/// The 4-byte payload id of the symbol with encoding symbol id `i` in
/// source block 0: the block byte, then the id big-endian in three bytes.
pub open spec fn payload_id_bytes(i: int) -> Seq<u8> {
    seq![0u8, ((i as u32) >> 16) as u8, ((i as u32) >> 8) as u8, i as u8]
}

/// The distinct payload ids among a run of serialized symbols: how many
/// algebraically distinct symbols the decoder has been offered.
pub open spec fn symbol_ids(fed: Seq<Seq<u8>>) -> Set<Seq<u8>> {
    fed.map_values(|f: Seq<u8>| f.take(4)).to_set()
}

/// The serialized symbols (4-byte payload id ‖ symbol data) that encoding a
/// blob yields when asked for `repair` repair symbols beyond the source
/// symbols. A function of blob, symbol size and count alone.
pub uninterp spec fn fec_packets(data: Seq<u8>, symbol_size: u16, repair: u32) -> Seq<Seq<u8>>;

/// What feeding a sequence of serialized symbols, in order, to a fresh
/// decoder bound to `(transfer_len, symbol_size)` yields: `None` while the
/// symbols supplied are insufficient, and the reconstructed blob once they
/// suffice. A function of the fed history and the binding alone.
pub uninterp spec fn fec_reassembly(
    fed: Seq<Seq<u8>>,
    transfer_len: nat,
    symbol_size: u16,
) -> Option<Seq<u8>>;

/// Relies on raptorq's Encoder::new, get_encoded_packets and
/// EncodingPacket::serialize: deterministic encoding yields the
/// `ceil(len/size)` source symbols — each carrying the matching blob
/// fragment directly behind its payload id — followed by `repair` repair
/// symbols, each serialized as 4 payload-id bytes (source block 0 first)
/// plus exactly `symbol_size` data bytes. The repair bound keeps every
/// encoding symbol id within its 24-bit wire field.
#[verifier::external_body]
fn fec_encode_raw(data: &Vec<u8>, symbol_size: u16, repair: u32) -> (r: Vec<Vec<u8>>)
    requires
        1 <= data@.len(),
        1 <= symbol_size,
        data@.len() <= symbol_size as nat * MAX_SOURCE_SYMBOLS as nat,
        repair <= 0xFF0000,
    ensures
        r@.map_values(|v: Vec<u8>| v@) == fec_packets(data@, symbol_size, repair),
        r@.len() == symbols_needed(data@.len(), symbol_size as nat) + repair,
        forall|i: int|
            0 <= i < r@.len() ==> (#[trigger] r@[i])@.len() == 4 + symbol_size,
        forall|i: int| 0 <= i < r@.len() ==> (#[trigger] r@[i])@[0] == 0u8,
        forall|i: int|
            0 <= i < symbols_needed(data@.len(), symbol_size as nat) ==> (#[trigger] r@[i])@
                == payload_id_bytes(i) + padded_fragment(data@, symbol_size, i),
{
    let config = raptorq::ObjectTransmissionInformation::new(
        data.len() as u64,
        symbol_size,
        1,
        1,
        1,
    );
    let encoder = raptorq::Encoder::new(data.as_slice(), config);
    encoder.get_encoded_packets(repair).iter().map(|p| p.serialize()).collect()
}

/// Encode a blob into its source symbols plus `repair` repair symbols: the
/// first `ceil(len/size)` carry the blob's fragments directly, the rest are
/// repair symbols over the finite field.
pub fn encode_symbols(data: &Vec<u8>, symbol_size: u16, repair: u32) -> (r: Vec<Vec<u8>>)
    requires
        1 <= data@.len(),
        1 <= symbol_size,
        data@.len() <= symbol_size as nat * MAX_SOURCE_SYMBOLS as nat,
        repair <= 0xFF0000,
    ensures
        r@.map_values(|v: Vec<u8>| v@) == fec_packets(data@, symbol_size, repair),
        r@.len() == symbols_needed(data@.len(), symbol_size as nat) + repair,
        forall|i: int|
            0 <= i < r@.len() ==> (#[trigger] r@[i])@.len() == 4 + symbol_size,
        forall|i: int| 0 <= i < r@.len() ==> (#[trigger] r@[i])@[0] == 0u8,
        forall|i: int|
            0 <= i < symbols_needed(data@.len(), symbol_size as nat) ==> (#[trigger] r@[i])@
                == payload_id_bytes(i) + padded_fragment(data@, symbol_size, i),
{
    fec_encode_raw(data, symbol_size, repair)
}

#[verifier::external_type_specification]
#[verifier::external_body]
pub struct ExDecoder(raptorq::Decoder);

/// Incremental, resumable reconstruction of one blob from its symbols.
pub struct FecDecoder {
    inner: raptorq::Decoder,
    transfer_len: u64,
    symbol_size: u16,
    fed: Ghost<Seq<Seq<u8>>>,
}

impl FecDecoder {
    /// The blob length this decoder reconstructs toward.
    pub closed spec fn transfer_len(&self) -> u64 {
        self.transfer_len
    }

    /// The symbol size this decoder was bound to.
    pub closed spec fn symbol_size(&self) -> u16 {
        self.symbol_size
    }

    /// The serialized symbols fed so far, in order.
    pub closed spec fn fed(&self) -> Seq<Seq<u8>> {
        self.fed@
    }

    /// The decoder's invariant: the binding it was created with is one the
    /// codec accepts.
    pub closed spec fn wf(&self) -> bool {
        1 <= self.transfer_len && 1 <= self.symbol_size && self.transfer_len as nat
            <= self.symbol_size as nat * MAX_SOURCE_SYMBOLS as nat && self.transfer_len
            <= 0xFFFF_FFFF
    }

    /// The symbol size this decoder was bound to, as a runtime value.
    pub fn current_symbol_size(&self) -> (r: u16)
        ensures
            r == self.symbol_size(),
    {
        self.symbol_size
    }

    /// Bind a fresh decoder to a blob length and symbol size.
    pub fn new(transfer_len: u64, symbol_size: u16) -> (r: Self)
        requires
            1 <= transfer_len,
            1 <= symbol_size,
            transfer_len as nat <= symbol_size as nat * MAX_SOURCE_SYMBOLS as nat,
            transfer_len <= 0xFFFF_FFFF,
        ensures
            r.wf(),
            r.transfer_len() == transfer_len,
            r.symbol_size() == symbol_size,
            r.fed() == Seq::<Seq<u8>>::empty(),
    {
        fec_decoder_raw_new(transfer_len, symbol_size)
    }

    /// Feed one serialized symbol; returns the reconstructed blob as soon as
    /// the symbols fed suffice, `None` while they do not. A result never
    /// comes before the distinct payload ids fed reach the source-symbol
    /// threshold `ceil(transfer_len / symbol_size)`: no false completion.
    pub fn feed(&mut self, packet: &Vec<u8>) -> (r: Option<Vec<u8>>)
        requires
            old(self).wf(),
            packet@.len() == 4 + old(self).symbol_size(),
            packet@[0] == 0u8,
        ensures
            final(self).wf(),
            final(self).transfer_len() == old(self).transfer_len(),
            final(self).symbol_size() == old(self).symbol_size(),
            final(self).fed() == old(self).fed().push(packet@),
            match r {
                Some(blob) => Some(blob@) == fec_reassembly(
                    final(self).fed(),
                    old(self).transfer_len() as nat,
                    old(self).symbol_size(),
                ) && blob@.len() == old(self).transfer_len(),
                None => fec_reassembly(
                    final(self).fed(),
                    old(self).transfer_len() as nat,
                    old(self).symbol_size(),
                ) is None,
            },
            symbol_ids(final(self).fed()).len() < symbols_needed(
                old(self).transfer_len() as nat,
                old(self).symbol_size() as nat,
            ) ==> r is None,
    {
        fec_decoder_raw_feed(self, packet)
    }

    /// A fresh decoder with this decoder's binding and nothing fed: used to
    /// drop a reconstruction candidate and start accumulating again.
    pub fn rebound(&self) -> (r: Self)
        requires
            self.wf(),
        ensures
            r.wf(),
            r.transfer_len() == self.transfer_len(),
            r.symbol_size() == self.symbol_size(),
            r.fed() == Seq::<Seq<u8>>::empty(),
    {
        fec_decoder_raw_new(self.transfer_len, self.symbol_size)
    }
}

/// Relies on raptorq's Decoder::new over an ObjectTransmissionInformation
/// with one source block, one sub-block and alignment 1: a fresh decoder
/// bound to `(transfer_len, symbol_size)` with nothing fed yet.
#[verifier::external_body]
fn fec_decoder_raw_new(transfer_len: u64, symbol_size: u16) -> (r: FecDecoder)
    requires
        1 <= transfer_len,
        1 <= symbol_size,
        transfer_len as nat <= symbol_size as nat * MAX_SOURCE_SYMBOLS as nat,
        transfer_len <= 0xFFFF_FFFF,
    ensures
        r.wf(),
        r.transfer_len() == transfer_len,
        r.symbol_size() == symbol_size,
        r.fed() == Seq::<Seq<u8>>::empty(),
{
    let config = raptorq::ObjectTransmissionInformation::new(transfer_len, symbol_size, 1, 1, 1);
    FecDecoder {
        inner: raptorq::Decoder::new(config),
        transfer_len,
        symbol_size,
        fed: Ghost(Seq::empty()),
    }
}

/// Relies on raptorq's EncodingPacket::deserialize and Decoder::decode:
/// deterministic in the history of symbols fed, duplicates ignored, `None`
/// while the accumulated symbols are insufficient, and the blob — truncated
/// to exactly the bound transfer length — once they suffice. The decoder
/// returns nothing while fewer distinct encoding symbol ids than
/// `ceil(transfer_len / symbol_size)` have been fed.
#[verifier::external_body]
fn fec_decoder_raw_feed(d: &mut FecDecoder, packet: &Vec<u8>) -> (r: Option<Vec<u8>>)
    requires
        old(d).wf(),
        packet@.len() == 4 + old(d).symbol_size(),
        packet@[0] == 0u8,
    ensures
        final(d).wf(),
        final(d).transfer_len() == old(d).transfer_len(),
        final(d).symbol_size() == old(d).symbol_size(),
        final(d).fed() == old(d).fed().push(packet@),
        match r {
            Some(blob) => Some(blob@) == fec_reassembly(
                final(d).fed(),
                old(d).transfer_len() as nat,
                old(d).symbol_size(),
            ) && blob@.len() == old(d).transfer_len(),
            None => fec_reassembly(
                final(d).fed(),
                old(d).transfer_len() as nat,
                old(d).symbol_size(),
            ) is None,
        },
        symbol_ids(final(d).fed()).len() < symbols_needed(
            old(d).transfer_len() as nat,
            old(d).symbol_size() as nat,
        ) ==> r is None,
{
    let symbol = raptorq::EncodingPacket::deserialize(packet.as_slice());
    d.inner.decode(symbol)
}

} // verus!
