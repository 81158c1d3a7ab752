//! Sender and receiver state machines: each send cycle seals one payload,
//! wraps it in the uniform-size envelope, spreads it over erasure-coded
//! symbols whose count follows the loss estimate, and disguises every
//! symbol as a cover line; the receive side undoes each layer and surfaces
//! the plaintext exactly once.

use crate::disguise;
use crate::fec;
use crate::framing;
use crate::sealer;
use crate::stream;
use vstd::prelude::*;

verus! {

/// Extra symbols sent per burst for an estimated loss rate (hundredths):
/// light loss gets one copy of each unit, heavy loss two. Any monotone
/// mapping is acceptable; this one switches at 0.1.
pub open spec fn redundancy_spec(loss_rate: u32) -> u32 {
    if loss_rate > 10 {
        2
    } else {
        1
    }
}

/// Symbols to send per unit, as a function of the loss estimate.
pub fn redundancy_for(loss_rate: u32) -> (r: u32)
    ensures
        r == redundancy_spec(loss_rate),
{
    if loss_rate > 10 {
        2
    } else {
        1
    }
}

/// Higher estimated loss never lowers redundancy.
pub proof fn lemma_redundancy_monotone(l1: u32, l2: u32)
    requires
        l1 <= l2,
    ensures
        redundancy_spec(l1) <= redundancy_spec(l2),
{
}

/// The 12-byte header ‖ coded symbol unit that travels inside one cover
/// line of the burst for sequence number `seq`, timestamp `ts`.
pub open spec fn wire_frame(seq_id: u32, ts: u64, packet: Seq<u8>) -> Seq<u8> {
    framing::header_bytes(framing::PacketHeader { seq_id, timestamp: ts }) + packet
}

/// The views of a sequence of byte vectors.
pub open spec fn views_of(v: Seq<Vec<u8>>) -> Seq<Seq<u8>> {
    v.map_values(|x: Vec<u8>| x@)
}

/// The lines of one burst are exactly the cover lines of the coded symbols
/// of an envelope `env` that seals `payload` under `key`, each stamped with
/// the burst's sequence number and timestamp `ts`.
pub open spec fn burst_shape(
    lines: Seq<Seq<u8>>,
    key: Seq<u8>,
    payload: Seq<u8>,
    sym: u16,
    tgt: nat,
    seq_id: u32,
    repair: u32,
    env: Seq<u8>,
    ts: u64,
) -> bool {
    let packets = fec::fec_packets(env, sym, repair);
    &&& (exists|b: Seq<u8>|
        env == framing::envelope_bytes(b, tgt) && #[trigger] sealer::unseals_to(b, key, payload))
    &&& env.len() >= tgt
    &&& lines.len() == fec::symbols_needed(env.len(), sym as nat) + repair
    &&& (forall|i: int|
        0 <= i < lines.len() ==> #[trigger] lines[i] == disguise::cover_line(
            wire_frame(seq_id, ts, packets[i]),
            seq_id,
        ))
}

/// Sender half of a session: owns the key, the codec binding and the
/// running sequence number.
pub struct Sender {
    key: Vec<u8>,
    symbol_size: u16,
    target_size: usize,
    seq: u32,
}

impl Sender {
    /// The provisioned key.
    pub closed spec fn key(&self) -> Seq<u8> {
        self.key@
    }

    /// The erasure-coding symbol size both ends agreed on.
    pub closed spec fn symbol_size(&self) -> u16 {
        self.symbol_size
    }

    /// The uniform on-wire envelope size both ends agreed on.
    pub closed spec fn target_size(&self) -> nat {
        self.target_size as nat
    }

    /// Sequence number the next burst will carry.
    pub closed spec fn seq(&self) -> u32 {
        self.seq
    }

    /// The sender's invariant: a 32-byte key and a codec binding the
    /// erasure coder accepts.
    pub closed spec fn wf(&self) -> bool {
        self.key@.len() == 32 && 1 <= self.symbol_size && self.target_size as nat
            <= self.symbol_size as nat * fec::MAX_SOURCE_SYMBOLS as nat
    }

    /// A sender over an externally provisioned key. `target_size` is the
    /// uniform envelope size negotiated for the session.
    pub fn new(key: Vec<u8>, symbol_size: u16, target_size: usize) -> (r: Self)
        requires
            key@.len() == 32,
            1 <= symbol_size,
            target_size as nat <= symbol_size as nat * fec::MAX_SOURCE_SYMBOLS as nat,
        ensures
            r.wf(),
            r.key() == key@,
            r.symbol_size() == symbol_size,
            r.target_size() == target_size,
            r.seq() == 0,
    {
        Sender { key, symbol_size, target_size, seq: 0 }
    }

    /// Sequence number the next burst will carry, as a runtime value.
    pub fn current_seq(&self) -> (r: u32)
        ensures
            r == self.seq(),
    {
        self.seq
    }

    /// Seal one payload and wrap it in the uniform-size envelope: the
    /// result opens back to a blob that unseals to exactly the payload.
    pub fn seal_payload(&self, payload: &Vec<u8>) -> (r: Vec<u8>)
        requires
            self.wf(),
            payload@.len() + sealer::SEAL_OVERHEAD <= u16::MAX,
        ensures
            exists|b: Seq<u8>|
                r@ == framing::envelope_bytes(b, self.target_size()) && #[trigger] sealer::unseals_to(
                    b,
                    self.key(),
                    payload@,
                ),
            r@.len() >= self.target_size(),
            r@.len() == vstd::math::max(
                self.target_size() as int,
                payload@.len() + sealer::SEAL_OVERHEAD + 2,
            ),
    {
        let blob = sealer::encrypt(payload, &self.key);
        let r = framing::envelope_wrap(&blob, self.target_size);
        proof {
            assert(sealer::unseals_to(blob@, self.key(), payload@));
            assert(r@ == framing::envelope_bytes(blob@, self.target_size()));
        }
        r
    }

    /// One full send cycle: seal the payload, spread the envelope over its
    /// source symbols plus `repair` repair symbols, stamp each with this
    /// burst's header, and disguise each as a cover line. Consumes one
    /// sequence number.
    pub fn next_burst(&mut self, payload: &Vec<u8>, repair: u32) -> (r: Vec<Vec<u8>>)
        requires
            old(self).wf(),
            old(self).seq() < u32::MAX,
            payload@.len() + sealer::SEAL_OVERHEAD + 2 <= u16::MAX,
            payload@.len() + sealer::SEAL_OVERHEAD + 2 <= old(self).symbol_size() as nat
                * fec::MAX_SOURCE_SYMBOLS as nat,
            repair <= 0xFF0000,
        ensures
            final(self).wf(),
            final(self).key() == old(self).key(),
            final(self).symbol_size() == old(self).symbol_size(),
            final(self).target_size() == old(self).target_size(),
            final(self).seq() == old(self).seq() + 1,
            exists|env: Seq<u8>, ts: u64|
                #[trigger] burst_shape(
                    views_of(r@),
                    old(self).key(),
                    payload@,
                    old(self).symbol_size(),
                    old(self).target_size(),
                    old(self).seq(),
                    repair,
                    env,
                    ts,
                ),
    {
        let env = self.seal_payload(payload);
        let packets = fec::encode_symbols(&env, self.symbol_size, repair);
        let header = framing::PacketHeader::new(self.seq);
        let ghost ts = header.timestamp;
        let header_bytes = header.to_bytes();
        let mut r: Vec<Vec<u8>> = Vec::new();
        let mut i: usize = 0;
        while i < packets.len()
            invariant
                i <= packets@.len(),
                r@.len() == i,
                header == (framing::PacketHeader { seq_id: self.seq, timestamp: ts }),
                header_bytes@ == framing::header_bytes(header),
                forall|t: int|
                    0 <= t < i ==> (#[trigger] r@[t])@ == disguise::cover_line(
                        framing::header_bytes(header) + packets@[t]@,
                        header.seq_id,
                    ),
            decreases packets@.len() - i,
        {
            let mut wire = Vec::new();
            let mut hb = header_bytes.clone();
            wire.append(&mut hb);
            let mut sym = packets[i].clone();
            wire.append(&mut sym);
            proof {
                assert(wire@ == framing::header_bytes(header) + packets@[i as int]@);
            }
            let line = disguise::encode_cover(&wire, self.seq);
            r.push(line);
            i = i + 1;
        }
        self.seq = self.seq + 1;
        proof {
            let env_s = env@;
            let packets_s = fec::fec_packets(env_s, old(self).symbol_size(), repair);
            assert(packets@.map_values(|v: Vec<u8>| v@) == packets_s);
            assert forall|t: int| 0 <= t < views_of(r@).len() implies #[trigger] views_of(r@)[t]
                == disguise::cover_line(
                wire_frame(old(self).seq(), ts, packets_s[t]),
                old(self).seq(),
            ) by {
                assert(views_of(r@)[t] == r@[t]@);
                assert(packets_s[t] == packets@.map_values(|v: Vec<u8>| v@)[t]);
                assert(packets_s[t] == packets@[t]@);
            }
            assert(burst_shape(
                views_of(r@),
                old(self).key(),
                payload@,
                old(self).symbol_size(),
                old(self).target_size(),
                old(self).seq(),
                repair,
                env_s,
                ts,
            ));
        }
        r
    }
}

/// The envelope's payload unseals under `key` to some message: what must
/// hold of a reconstruction for the receiver to deliver.
pub open spec fn envelope_unseals(env: Seq<u8>, key: Seq<u8>) -> bool {
    match framing::envelope_payload(env) {
        Some(b) => exists|m: Seq<u8>| #[trigger] sealer::unseals_to(b, key, m),
        None => false,
    }
}

/// The line is a well-formed cover line whose embedded frame is a 12-byte
/// header followed by the one serialized symbol `w` for symbol size `ss`.
pub open spec fn line_symbol(line: Seq<u8>, w: Seq<u8>, ss: u16) -> bool {
    exists|i: int, j: int, k: int, f: Seq<u8>, s: u32|
        #[trigger] disguise::cover_fields(line, i, j, k, f, s) && f.len() == 16 + ss && f[12]
            == 0u8 && w == f.skip(12)
}

/// What handling one incoming unit did: dropped as malformed, fed into the
/// decoder (echoing the frame's identifiers for feedback), completed the
/// message, failed authentication, or arrived after completion.
pub enum ReceiveOutcome {
    /// The unit had no well-formed disguise or frame; drop and keep
    /// scanning.
    Malformed,
    /// One more symbol was fed; the identifiers to acknowledge.
    Accepted { seq_id: u32, timestamp: u64 },
    /// Reconstruction and decryption succeeded; surfaced exactly once.
    Delivered { plaintext: Vec<u8> },
    /// Reconstruction succeeded but the envelope or the tag check did not;
    /// drop the candidate and keep listening.
    AuthFailed,
    /// The message was already delivered; later symbols are discarded.
    AlreadyComplete,
}

/// Receiver half of a session over a datagram-style transport: consumes
/// one cover line at a time.
pub struct Receiver {
    key: Vec<u8>,
    decoder: fec::FecDecoder,
    complete: bool,
}

impl Receiver {
    /// The provisioned key.
    pub closed spec fn key(&self) -> Seq<u8> {
        self.key@
    }

    /// Whether the message has been delivered.
    pub closed spec fn complete(&self) -> bool {
        self.complete
    }

    /// The serialized symbols fed to the decoder so far.
    pub closed spec fn fed(&self) -> Seq<Seq<u8>> {
        self.decoder.fed()
    }

    /// The envelope length this session reconstructs toward.
    pub closed spec fn transfer_len(&self) -> u64 {
        self.decoder.transfer_len()
    }

    /// The erasure-coding symbol size both ends agreed on.
    pub closed spec fn symbol_size(&self) -> u16 {
        self.decoder.symbol_size()
    }

    /// The receiver's invariant.
    pub closed spec fn wf(&self) -> bool {
        self.key@.len() == 32 && self.decoder.wf()
    }

    /// A receiver bound to the negotiated envelope length and symbol size,
    /// over an externally provisioned key.
    pub fn new(key: Vec<u8>, transfer_len: u64, symbol_size: u16) -> (r: Self)
        requires
            key@.len() == 32,
            1 <= transfer_len,
            1 <= symbol_size,
            transfer_len as nat <= symbol_size as nat * fec::MAX_SOURCE_SYMBOLS as nat,
            transfer_len <= 0xFFFF_FFFF,
        ensures
            r.wf(),
            r.key() == key@,
            !r.complete(),
            r.fed() == Seq::<Seq<u8>>::empty(),
            r.transfer_len() == transfer_len,
            r.symbol_size() == symbol_size,
    {
        Receiver { key, decoder: fec::FecDecoder::new(transfer_len, symbol_size), complete: false }
    }

    /// Handle one line from the channel: strip the disguise, parse the
    /// frame header, feed the symbol, and on reconstruction unwrap the
    /// envelope and decrypt. Anything the sender's burst produced reaches
    /// the decoder; everything else is dropped without effect. Delivery is
    /// owed and happens exactly when the fed symbols reconstruct an
    /// envelope whose payload unseals; a reconstruction that fails the
    /// envelope or the tag check is dropped and the decoder rebound empty,
    /// so later symbols can still form the message.
    pub fn process_line(&mut self, line: &Vec<u8>) -> (r: ReceiveOutcome)
        requires
            old(self).wf(),
        ensures
            final(self).wf(),
            final(self).key() == old(self).key(),
            final(self).transfer_len() == old(self).transfer_len(),
            final(self).symbol_size() == old(self).symbol_size(),
            r is AlreadyComplete <==> old(self).complete(),
            old(self).complete() ==> final(self).fed() == old(self).fed()
                && final(self).complete(),
            final(self).complete() == (old(self).complete() || r is Delivered),
            r is Malformed ==> final(self).fed() == old(self).fed() && !final(self).complete(),
            (r is Accepted || r is Delivered) ==> final(self).fed() == old(self).fed().push(
                final(self).fed().last(),
            ) && line_symbol(line@, final(self).fed().last(), old(self).symbol_size()),
            r is Accepted ==> fec::fec_reassembly(
                final(self).fed(),
                old(self).transfer_len() as nat,
                old(self).symbol_size(),
            ) is None && !final(self).complete(),
            r is AuthFailed ==> final(self).fed() == Seq::<Seq<u8>>::empty()
                && !final(self).complete() && (exists|w: Seq<u8>|
                {
                    let rea = fec::fec_reassembly(
                        old(self).fed().push(w),
                        old(self).transfer_len() as nat,
                        old(self).symbol_size(),
                    );
                    &&& #[trigger] line_symbol(line@, w, old(self).symbol_size())
                    &&& rea is Some
                    &&& !envelope_unseals(rea.unwrap(), old(self).key())
                }),
            forall|f: Seq<u8>, s: u32|
                (!old(self).complete() && line@ == #[trigger] disguise::cover_line(f, s) && f.len()
                    == 16 + old(self).symbol_size() && f[12] == 0u8) ==> {
                    &&& (r is Accepted || r is Delivered || r is AuthFailed)
                    &&& ((r is Accepted || r is Delivered) ==> final(self).fed() == old(
                        self,
                    ).fed().push(f.skip(12)))
                    &&& (r is AuthFailed ==> fec::fec_reassembly(
                        old(self).fed().push(f.skip(12)),
                        old(self).transfer_len() as nat,
                        old(self).symbol_size(),
                    ) is Some)
                },
            match r {
                ReceiveOutcome::Delivered { plaintext } => {
                    let rea = fec::fec_reassembly(
                        final(self).fed(),
                        old(self).transfer_len() as nat,
                        old(self).symbol_size(),
                    );
                    &&& rea is Some
                    &&& framing::envelope_payload(rea.unwrap()) is Some
                    &&& sealer::unseals_to(
                        framing::envelope_payload(rea.unwrap()).unwrap(),
                        old(self).key(),
                        plaintext@,
                    )
                },
                _ => true,
            },
    {
        let ghost ss = old(self).symbol_size();
        let ghost tl = old(self).transfer_len() as nat;
        if self.complete {
            return ReceiveOutcome::AlreadyComplete;
        }
        let parsed = disguise::decode_cover(line);
        let (wire, sv) = match parsed {
            Some(p) => p,
            None => {
                return ReceiveOutcome::Malformed;
            },
        };
        let want = 16 + self.decoder.current_symbol_size() as usize;
        if wire.len() != want {
            return ReceiveOutcome::Malformed;
        }
        let header = match framing::PacketHeader::from_bytes(wire.as_slice()) {
            Some(h) => h,
            None => {
                return ReceiveOutcome::Malformed;
            },
        };
        let symbol = crate::subvec(&wire, 12, wire.len());
        proof {
            assert(symbol@[0] == wire@[12]);
            assert(symbol@ =~= wire@.skip(12));
        }
        if symbol[0] != 0 {
            return ReceiveOutcome::Malformed;
        }
        proof {
            assert(exists|i2: int, j2: int, k2: int|
                disguise::cover_fields(line@, i2, j2, k2, wire@, sv));
            let (i2, j2, k2): (int, int, int) = choose|i2: int, j2: int, k2: int|
                disguise::cover_fields(line@, i2, j2, k2, wire@, sv);
            assert(disguise::cover_fields(line@, i2, j2, k2, wire@, sv));
            assert(line_symbol(line@, symbol@, ss));
        }
        match self.decoder.feed(&symbol) {
            None => {
                proof {
                    assert(self.decoder.fed().last() == symbol@);
                }
                ReceiveOutcome::Accepted { seq_id: header.seq_id, timestamp: header.timestamp }
            },
            Some(env) => {
                match framing::envelope_unwrap(&env) {
                    None => {
                        proof {
                            assert(fec::fec_reassembly(old(self).fed().push(symbol@), tl, ss)
                                == Some(env@));
                            assert(!envelope_unseals(env@, old(self).key()));
                        }
                        self.decoder = self.decoder.rebound();
                        ReceiveOutcome::AuthFailed
                    },
                    Some(b) => {
                        match sealer::decrypt(&b, &self.key) {
                            Ok(m) => {
                                self.complete = true;
                                proof {
                                    let rea = fec::fec_reassembly(self.decoder.fed(), tl, ss);
                                    assert(rea == Some(env@));
                                    assert(framing::envelope_payload(env@) == Some(b@));
                                    assert(sealer::unseals_to(b@, old(self).key(), m@));
                                    assert(self.decoder.fed().last() == symbol@);
                                }
                                ReceiveOutcome::Delivered { plaintext: m }
                            },
                            Err(_) => {
                                proof {
                                    assert(fec::fec_reassembly(
                                        old(self).fed().push(symbol@),
                                        tl,
                                        ss,
                                    ) == Some(env@));
                                    assert(framing::envelope_payload(env@) == Some(b@));
                                    assert(forall|m: Seq<u8>|
                                        !sealer::unseals_to(b@, old(self).key(), m));
                                    assert(!envelope_unseals(env@, old(self).key()));
                                }
                                self.decoder = self.decoder.rebound();
                                ReceiveOutcome::AuthFailed
                            },
                        }
                    },
                }
            },
        }
    }
}

/// The frame is one well-formed serialized symbol for symbol size `ss`:
/// the 4-byte payload id (source block 0) plus exactly `ss` data bytes.
pub open spec fn frame_ok(f: Seq<u8>, ss: u16) -> bool {
    f.len() == 4 + ss && f[0] == 0u8
}

/// The symbols `fed` reconstruct a blob that unseals under `key` to some
/// plaintext: the moment the stream receiver completes.
pub open spec fn decodes_to_plain(fed: Seq<Seq<u8>>, tl: nat, ss: u16, key: Seq<u8>) -> bool {
    match fec::fec_reassembly(fed, tl, ss) {
        Some(blob) => exists|m: Seq<u8>| #[trigger] sealer::unseals_to(blob, key, m),
        None => false,
    }
}

/// One step of the stream receiver over one reframed frame: after
/// completion frames are discarded; malformed frames are skipped; a
/// well-formed one is fed, and completion is reached exactly when the fed
/// symbols first reconstruct a blob that unseals. A reconstruction that
/// fails the tag check is dropped and the decoder rebound empty, so later
/// symbols can still form the message.
pub open spec fn stream_step(
    fed: Seq<Seq<u8>>,
    complete: bool,
    f: Seq<u8>,
    tl: nat,
    ss: u16,
    key: Seq<u8>,
) -> (Seq<Seq<u8>>, bool) {
    if complete || !frame_ok(f, ss) {
        (fed, complete)
    } else if decodes_to_plain(fed.push(f), tl, ss, key) {
        (fed.push(f), true)
    } else if fec::fec_reassembly(fed.push(f), tl, ss) is Some {
        (Seq::empty(), false)
    } else {
        (fed.push(f), false)
    }
}

/// The stream receiver's decoder state after handling a run of reframed
/// frames in order, folding `stream_step` from the front.
pub open spec fn stream_progress(
    fed: Seq<Seq<u8>>,
    complete: bool,
    frames: Seq<Seq<u8>>,
    tl: nat,
    ss: u16,
    key: Seq<u8>,
) -> (Seq<Seq<u8>>, bool)
    decreases frames.len(),
{
    if frames.len() == 0 {
        (fed, complete)
    } else {
        let stepped = stream_step(fed, complete, frames[0], tl, ss, key);
        stream_progress(stepped.0, stepped.1, frames.skip(1), tl, ss, key)
    }
}

/// Folding one more frame at the end applies one more step.
proof fn lemma_stream_progress_snoc(
    fed: Seq<Seq<u8>>,
    complete: bool,
    frames: Seq<Seq<u8>>,
    f: Seq<u8>,
    tl: nat,
    ss: u16,
    key: Seq<u8>,
)
    ensures
        stream_progress(fed, complete, frames.push(f), tl, ss, key) == stream_step(
            stream_progress(fed, complete, frames, tl, ss, key).0,
            stream_progress(fed, complete, frames, tl, ss, key).1,
            f,
            tl,
            ss,
            key,
        ),
    decreases frames.len(),
{
    if frames.len() == 0 {
        assert(frames.push(f)[0] == f);
        assert(frames.push(f).skip(1) =~= Seq::<Seq<u8>>::empty());
        let stepped = stream_step(fed, complete, f, tl, ss, key);
        assert(stream_progress(fed, complete, frames.push(f), tl, ss, key) == stream_progress(
            stepped.0,
            stepped.1,
            Seq::<Seq<u8>>::empty(),
            tl,
            ss,
            key,
        ));
        assert(stream_progress(fed, complete, frames, tl, ss, key) == (fed, complete));
    } else {
        assert(frames.push(f)[0] == frames[0]);
        assert(frames.push(f).skip(1) =~= frames.skip(1).push(f));
        let stepped = stream_step(fed, complete, frames[0], tl, ss, key);
        lemma_stream_progress_snoc(stepped.0, stepped.1, frames.skip(1), f, tl, ss, key);
        assert(stream_progress(fed, complete, frames.push(f), tl, ss, key) == stream_progress(
            stepped.0,
            stepped.1,
            frames.skip(1).push(f),
            tl,
            ss,
            key,
        ));
        assert(stream_progress(fed, complete, frames, tl, ss, key) == stream_progress(
            stepped.0,
            stepped.1,
            frames.skip(1),
            tl,
            ss,
            key,
        ));
    }
}

/// Receiver half of a session over an ordered byte-stream transport:
/// consumes arbitrarily chunked bytes, reframes them, and feeds every
/// complete frame to the decoder. On this path the sealed blob travels
/// bare (its length came through the handshake), so reconstruction is
/// followed directly by decryption.
pub struct StreamReceiver {
    key: Vec<u8>,
    decoder: fec::FecDecoder,
    reframer: stream::StreamReframer,
    complete: bool,
}

impl StreamReceiver {
    /// The provisioned key.
    pub closed spec fn key(&self) -> Seq<u8> {
        self.key@
    }

    /// Whether the message has been delivered.
    pub closed spec fn complete(&self) -> bool {
        self.complete
    }

    /// The serialized symbols fed to the decoder so far.
    pub closed spec fn fed(&self) -> Seq<Seq<u8>> {
        self.decoder.fed()
    }

    /// Every stream byte ever fed.
    pub closed spec fn stream_history(&self) -> Seq<u8> {
        self.reframer.history()
    }

    /// Bytes pending in the reframing buffer.
    pub closed spec fn pending(&self) -> nat {
        self.reframer.pending()
    }

    /// Every frame the reframer has cut from the stream so far.
    pub closed spec fn frames_seen(&self) -> Seq<Seq<u8>> {
        self.reframer.emitted()
    }

    /// The sealed blob length this session reconstructs toward.
    pub closed spec fn transfer_len(&self) -> u64 {
        self.decoder.transfer_len()
    }

    /// The erasure-coding symbol size both ends agreed on.
    pub closed spec fn symbol_size(&self) -> u16 {
        self.decoder.symbol_size()
    }

    /// The receiver's invariant: the reframer cuts frames of exactly one
    /// serialized symbol.
    pub closed spec fn wf(&self) -> bool {
        &&& self.key@.len() == 32
        &&& self.decoder.wf()
        &&& self.reframer.wf()
        &&& self.reframer.frame_len_spec() == 4 + self.decoder.symbol_size()
    }

    /// A stream receiver bound to the handshaken blob length and the
    /// negotiated symbol size, over an externally provisioned key.
    pub fn new(key: Vec<u8>, transfer_len: u64, symbol_size: u16) -> (r: Self)
        requires
            key@.len() == 32,
            1 <= transfer_len,
            1 <= symbol_size,
            transfer_len as nat <= symbol_size as nat * fec::MAX_SOURCE_SYMBOLS as nat,
            transfer_len <= 0xFFFF_FFFF,
        ensures
            r.wf(),
            r.key() == key@,
            !r.complete(),
            r.fed() == Seq::<Seq<u8>>::empty(),
            r.stream_history() == Seq::<u8>::empty(),
            r.frames_seen() == Seq::<Seq<u8>>::empty(),
            r.transfer_len() == transfer_len,
            r.symbol_size() == symbol_size,
    {
        StreamReceiver {
            key,
            decoder: fec::FecDecoder::new(transfer_len, symbol_size),
            reframer: stream::StreamReframer::new(4 + symbol_size as usize),
            complete: false,
        }
    }

    /// Feed the next chunk of the stream, however the transport split it.
    /// Every frame the accumulated bytes complete is fed onward; the
    /// plaintext comes out exactly once, when reconstruction and the tag
    /// check first succeed, and is always what the reconstructed blob
    /// seals. A candidate that fails the tag check is dropped and the
    /// decoder rebound, exactly as `stream_step` folds it.
    pub fn feed_bytes(&mut self, chunk: &[u8]) -> (r: Option<Vec<u8>>)
        requires
            old(self).wf(),
            old(self).pending() + chunk@.len() <= usize::MAX,
        ensures
            final(self).wf(),
            final(self).key() == old(self).key(),
            final(self).transfer_len() == old(self).transfer_len(),
            final(self).symbol_size() == old(self).symbol_size(),
            final(self).stream_history() == old(self).stream_history() + chunk@,
            final(self).frames_seen() == stream::frames_of(
                final(self).stream_history(),
                4 + old(self).symbol_size() as nat,
            ),
            (final(self).fed(), final(self).complete()) == stream_progress(
                old(self).fed(),
                old(self).complete(),
                final(self).frames_seen().skip(old(self).frames_seen().len() as int),
                old(self).transfer_len() as nat,
                old(self).symbol_size(),
                old(self).key(),
            ),
            final(self).complete() == (old(self).complete() || r is Some),
            r is Some ==> !old(self).complete(),
            match r {
                Some(m) => {
                    let rea = fec::fec_reassembly(
                        final(self).fed(),
                        old(self).transfer_len() as nat,
                        old(self).symbol_size(),
                    );
                    &&& rea is Some
                    &&& sealer::unseals_to(rea.unwrap(), old(self).key(), m@)
                },
                None => true,
            },
    {
        let ghost tl = old(self).transfer_len() as nat;
        let ghost ss = old(self).symbol_size();
        let ghost k = old(self).key();
        let frames = self.reframer.feed(chunk);
        let ghost reframer_now = self.reframer;
        let ghost fed0 = self.decoder.fed();
        let ghost c0 = self.complete;
        let mut result: Option<Vec<u8>> = None;
        let mut i: usize = 0;
        proof {
            assert(views_of(frames@).take(0) =~= Seq::<Seq<u8>>::empty());
        }
        while i < frames.len()
            invariant
                i <= frames@.len(),
                self.key@ == old(self).key@,
                self.key@.len() == 32,
                self.decoder.wf(),
                self.decoder.transfer_len() == old(self).transfer_len(),
                self.decoder.symbol_size() == old(self).symbol_size(),
                self.reframer == reframer_now,
                tl == old(self).transfer_len() as nat,
                ss == old(self).symbol_size(),
                k == old(self).key(),
                fed0 == old(self).fed(),
                c0 == old(self).complete,
                forall|t: int|
                    0 <= t < frames@.len() ==> (#[trigger] frames@[t])@.len() == 4 + old(
                        self,
                    ).symbol_size(),
                (self.decoder.fed(), self.complete) == stream_progress(
                    fed0,
                    c0,
                    views_of(frames@).take(i as int),
                    tl,
                    ss,
                    k,
                ),
                self.complete == (old(self).complete || result is Some),
                result is Some ==> !old(self).complete,
                match result {
                    Some(m) => {
                        let rea = fec::fec_reassembly(
                            self.decoder.fed(),
                            old(self).transfer_len() as nat,
                            old(self).symbol_size(),
                        );
                        &&& rea is Some
                        &&& sealer::unseals_to(rea.unwrap(), old(self).key(), m@)
                    },
                    None => true,
                },
            decreases frames@.len() - i,
        {
            let ghost prev_fed = self.decoder.fed();
            let ghost prev_complete = self.complete;
            let ghost f = frames@[i as int]@;
            if !self.complete {
                let fr = &frames[i];
                if fr.len() >= 1 && fr[0] == 0 {
                    match self.decoder.feed(fr) {
                        Some(blob) => {
                            match sealer::decrypt(&blob, &self.key) {
                                Ok(m) => {
                                    self.complete = true;
                                    proof {
                                        assert(Some(blob@) == fec::fec_reassembly(
                                            self.decoder.fed(),
                                            tl,
                                            ss,
                                        ));
                                        assert(fec::fec_reassembly(
                                            self.decoder.fed(),
                                            tl,
                                            ss,
                                        ).unwrap() == blob@);
                                        assert(sealer::unseals_to(
                                            fec::fec_reassembly(self.decoder.fed(), tl, ss).unwrap(),
                                            k,
                                            m@,
                                        ));
                                        assert(decodes_to_plain(self.decoder.fed(), tl, ss, k));
                                    }
                                    result = Some(m);
                                },
                                Err(_) => {
                                    proof {
                                        assert(forall|m: Seq<u8>|
                                            !sealer::unseals_to(blob@, k, m));
                                        assert(!decodes_to_plain(self.decoder.fed(), tl, ss, k));
                                        assert(fec::fec_reassembly(
                                            self.decoder.fed(),
                                            tl,
                                            ss,
                                        ) is Some);
                                    }
                                    // The candidate failed the tag check:
                                    // drop it and start accumulating again.
                                    self.decoder = self.decoder.rebound();
                                },
                            }
                        },
                        None => {
                            proof {
                                assert(!decodes_to_plain(self.decoder.fed(), tl, ss, k));
                            }
                        },
                    }
                    proof {
                        assert(frame_ok(f, ss));
                        assert((self.decoder.fed(), self.complete) == stream_step(
                            prev_fed,
                            prev_complete,
                            f,
                            tl,
                            ss,
                            k,
                        ));
                    }
                } else {
                    proof {
                        assert(f[0] != 0u8);
                        assert(!frame_ok(f, ss));
                        assert((self.decoder.fed(), self.complete) == stream_step(
                            prev_fed,
                            prev_complete,
                            f,
                            tl,
                            ss,
                            k,
                        ));
                    }
                }
            } else {
                proof {
                    assert((self.decoder.fed(), self.complete) == stream_step(
                        prev_fed,
                        prev_complete,
                        f,
                        tl,
                        ss,
                        k,
                    ));
                }
            }
            proof {
                lemma_stream_progress_snoc(fed0, c0, views_of(frames@).take(i as int), f, tl, ss, k);
                assert(views_of(frames@).take(i + 1) =~= views_of(frames@).take(i as int).push(f));
            }
            i = i + 1;
        }
        proof {
            assert(views_of(frames@).take(frames@.len() as int) =~= views_of(frames@));
            assert(reframer_now.emitted() =~= stream::frames_of(
                reframer_now.history(),
                4 + ss as nat,
            ));
            assert(reframer_now.emitted().skip(old(self).frames_seen().len() as int)
                =~= views_of(frames@));
        }
        result
    }
}

} // verus!
