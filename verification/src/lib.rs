//! Core engine of a loss-tolerant covert data tunnel.
//!
//! Payload bytes are authenticated-encrypted (`sealer`), spread over a
//! rateless stream of erasure-coded symbols (`fec`), framed with a compact
//! binary header (`framing`), disguised as innocuous HTTP request lines
//! (`disguise`), and paced by an adaptive RTT/loss estimator (`oracle`).
//! The sender and receiver state machines in `session` tie the layers
//! together; `stream` reframes byte-stream transports back into discrete
//! frames.

pub mod disguise;
pub mod fec;
pub mod framing;
pub mod oracle;
pub mod sealer;
pub mod session;
pub mod stream;

use vstd::prelude::*;

verus! {

/// Largest datagram the tunnel will emit in one send (MTU safe).
pub const MAX_UDP_SIZE: usize = 1400;

/// Erasure-coding symbol size shared by both endpoints of a session.
pub const SYMBOL_SIZE: u16 = 512;

/// Copy of the byte range `from .. to` of a vector.
pub fn subvec(v: &Vec<u8>, from: usize, to: usize) -> (r: Vec<u8>)
    requires
        from <= to <= v@.len(),
    ensures
        r@ == v@.subrange(from as int, to as int),
{
    let mut r: Vec<u8> = Vec::new();
    let mut i: usize = from;
    while i < to
        invariant
            from <= i <= to <= v@.len(),
            r@ == v@.subrange(from as int, i as int),
        decreases to - i,
    {
        r.push(v[i]);
        i = i + 1;
        proof {
            assert(r@ =~= v@.subrange(from as int, i as int));
        }
    }
    r
}

/// On-wire unit exchanged by the datagram endpoints: either a coded data
/// symbol or a control/feedback record.
#[derive(Debug, PartialEq, Eq)]
pub enum ProteusPacket {
    Data { seq: u32, payload: Vec<u8> },
    Control { current_rank: u32, is_complete: bool },
}

} // verus!
