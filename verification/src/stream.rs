//! Byte-stream reframing: locating markers in an accumulated stream and
//! cutting fixed-length frames back out of it, independent of how the
//! stream was chunked by the transport.

use vstd::prelude::*;

verus! {

/// `needle` occurs in `haystack` starting at index `i`.
pub open spec fn matches_at(haystack: Seq<u8>, needle: Seq<u8>, i: int) -> bool {
    0 <= i && i + needle.len() <= haystack.len() && haystack.subrange(i, i + needle.len())
        == needle
}

/// Do the `needle.len()` bytes of `haystack` starting at `at` equal `needle`?
fn range_eq(haystack: &[u8], at: usize, needle: &[u8]) -> (r: bool)
    requires
        at + needle@.len() <= haystack@.len(),
    ensures
        r == matches_at(haystack@, needle@, at as int),
{
    let hlen = haystack.len();
    let mut i: usize = 0;
    while i < needle.len()
        invariant
            i <= needle@.len(),
            at + needle@.len() <= haystack@.len(),
            hlen == haystack@.len(),
            forall|k: int| 0 <= k < i ==> haystack@[at + k] == needle@[k],
        decreases needle@.len() - i,
    {
        if haystack[at + i] != needle[i] {
            proof {
                let s = haystack@.subrange(at as int, at + needle@.len());
                assert(s[i as int] == haystack@[at + i]);
            }
            return false;
        }
        i = i + 1;
    }
    proof {
        assert(haystack@.subrange(at as int, at + needle@.len()) =~= needle@);
    }
    true
}

/// First index at which `needle` occurs in `haystack`, scanning left to
/// right; `None` when it occurs nowhere.
pub fn find_subsequence(haystack: &[u8], needle: &[u8]) -> (r: Option<usize>)
    requires
        needle@.len() >= 1,
    ensures
        match r {
            Some(i) => matches_at(haystack@, needle@, i as int) && forall|k: int|
                0 <= k < i ==> !matches_at(haystack@, needle@, k),
            None => forall|k: int| !matches_at(haystack@, needle@, k),
        },
{
    if haystack.len() < needle.len() {
        return None;
    }
    let last = haystack.len() - needle.len();
    let mut i: usize = 0;
    while i <= last
        invariant
            needle@.len() >= 1,
            last == haystack@.len() - needle@.len(),
            haystack@.len() <= usize::MAX,
            i <= last + 1,
            forall|k: int| 0 <= k < i ==> !matches_at(haystack@, needle@, k),
        decreases last + 1 - i,
    {
        if range_eq(haystack, i, needle) {
            return Some(i);
        }
        i = i + 1;
    }
    proof {
        assert(forall|k: int| k > last ==> !matches_at(haystack@, needle@, k));
    }
    None
}

/// `"PROT:"`, the marker that opens every frame on a byte-stream transport.
pub open spec fn frame_marker() -> Seq<u8> {
    seq![80u8, 82, 79, 84, 58]
}

/// Executable copy of the frame marker.
pub fn marker_bytes() -> (r: Vec<u8>)
    ensures
        r@ == frame_marker(),
{
    let mut v: Vec<u8> = Vec::new();
    v.push(80);
    v.push(82);
    v.push(79);
    v.push(84);
    v.push(58);
    proof {
        assert(v@ =~= frame_marker());
    }
    v
}

/// Index of the first occurrence of `pat` at or after `i`.
pub open spec fn first_match_from(s: Seq<u8>, pat: Seq<u8>, i: int) -> Option<int>
    decreases s.len() - i,
        when 0 <= i <= s.len() && 1 <= pat.len()
{
    if i + pat.len() > s.len() {
        None
    } else if matches_at(s, pat, i) {
        Some(i)
    } else {
        first_match_from(s, pat, i + 1)
    }
}

/// Index of the first occurrence of `pat` in `s`.
pub open spec fn first_match(s: Seq<u8>, pat: Seq<u8>) -> Option<int> {
    first_match_from(s, pat, 0)
}

/// `first_match_from` returns the leftmost occurrence at or after `i`, and
/// `None` exactly when there is none.
pub proof fn lemma_first_match_from(s: Seq<u8>, pat: Seq<u8>, i: int)
    requires
        0 <= i <= s.len(),
        1 <= pat.len(),
    ensures
        match first_match_from(s, pat, i) {
            Some(m) => i <= m && matches_at(s, pat, m) && forall|k: int|
                i <= k < m ==> !matches_at(s, pat, k),
            None => forall|k: int| k >= i ==> !matches_at(s, pat, k),
        },
    decreases s.len() - i,
{
    if i + pat.len() > s.len() {
    } else if matches_at(s, pat, i) {
    } else {
        lemma_first_match_from(s, pat, i + 1);
    }
}

/// An occurrence at `p` with none earlier pins `first_match` to `p`.
pub proof fn lemma_first_match_is(s: Seq<u8>, pat: Seq<u8>, p: int)
    requires
        1 <= pat.len(),
        matches_at(s, pat, p),
        forall|k: int| 0 <= k < p ==> !matches_at(s, pat, k),
    ensures
        first_match(s, pat) == Some(p),
{
    lemma_first_match_from(s, pat, 0);
}

/// With no occurrence anywhere, `first_match` is `None`.
pub proof fn lemma_first_match_none(s: Seq<u8>, pat: Seq<u8>)
    requires
        1 <= pat.len(),
        forall|k: int| !matches_at(s, pat, k),
    ensures
        first_match(s, pat) is None,
{
    lemma_first_match_from(s, pat, 0);
}

/// The frames a byte stream carries, each `flen` bytes long: repeatedly
/// take the first marker, and if the fixed frame length is fully available
/// behind it, cut that frame out and continue after it; stop at the first
/// marker whose frame is still incomplete, or when no marker is left.
pub open spec fn frames_of(s: Seq<u8>, flen: nat) -> Seq<Seq<u8>>
    decreases s.len(),
{
    match first_match(s, frame_marker()) {
        Some(p) => if 0 <= p && p + 5 + flen <= s.len() {
            seq![s.subrange(p + 5, p + 5 + flen as int)] + frames_of(
                s.skip(p + 5 + flen as int),
                flen,
            )
        } else {
            Seq::empty()
        },
        None => Seq::empty(),
    }
}

/// A stream is stuck when no further frame can be cut from it yet: either
/// no marker is left, or the bytes behind the first marker still fall short
/// of one frame.
pub open spec fn stuck(s: Seq<u8>, flen: nat) -> bool {
    match first_match(s, frame_marker()) {
        Some(p) => p + 5 + flen > s.len(),
        None => true,
    }
}

/// A stuck stream yields no frames.
pub proof fn lemma_stuck_no_frames(s: Seq<u8>, flen: nat)
    requires
        stuck(s, flen),
    ensures
        frames_of(s, flen) == Seq::<Seq<u8>>::empty(),
{
}

/// Whether `pat` occurs at `k` inside the first `n` bytes of a stream does
/// not depend on what follows those bytes.
pub proof fn lemma_matches_at_prefix(d: Seq<u8>, x: Seq<u8>, pat: Seq<u8>, k: int)
    requires
        0 <= k,
        k + pat.len() <= d.len(),
    ensures
        matches_at(d + x, pat, k) == matches_at(d, pat, k),
{
    assert((d + x).subrange(k, k + pat.len() as int) =~= d.subrange(k, k + pat.len() as int));
}

/// Cutting one complete frame distributes over concatenation: when `d` ends
/// exactly at the end of its first frame, the frames of `d + x` are that
/// frame followed by the frames of `x`.
pub proof fn lemma_frames_of_consume(d: Seq<u8>, x: Seq<u8>, flen: nat, p: int)
    requires
        matches_at(d, frame_marker(), p),
        forall|k: int| 0 <= k < p ==> !matches_at(d, frame_marker(), k),
        d.len() == p + 5 + flen,
    ensures
        frames_of(d + x, flen) == seq![d.subrange(p + 5, p + 5 + flen as int)] + frames_of(
            x,
            flen,
        ),
{
    lemma_matches_at_prefix(d, x, frame_marker(), p);
    assert forall|k: int| 0 <= k < p implies !matches_at(d + x, frame_marker(), k) by {
        lemma_matches_at_prefix(d, x, frame_marker(), k);
    }
    lemma_first_match_is(d + x, frame_marker(), p);
    assert((d + x).subrange(p + 5, p + 5 + flen as int) =~= d.subrange(
        p + 5,
        p + 5 + flen as int,
    ));
    assert((d + x).skip(p + 5 + flen as int) =~= x);
}

/// Two reframers that saw the same bytes have emitted the same frames,
/// however differently those bytes were chunked into feeds: what comes out
/// depends only on the concatenated history.
pub proof fn lemma_chunking_independent(a: &StreamReframer, b: &StreamReframer)
    requires
        a.wf(),
        b.wf(),
        a.history() == b.history(),
        a.frame_len_spec() == b.frame_len_spec(),
    ensures
        a.emitted() == b.emitted(),
{
    a.lemma_emitted_complete();
    b.lemma_emitted_complete();
}

/// Reassembles discrete frames out of an ordered byte stream, however the
/// transport happened to chunk it: bytes accumulate in a pending buffer,
/// and every complete `marker ‖ frame` unit is cut out as soon as its last
/// byte has arrived.
pub struct StreamReframer {
    buf: Vec<u8>,
    frame_len: usize,
    hist: Ghost<Seq<u8>>,
    cons: Ghost<Seq<u8>>,
    done: Ghost<Seq<Seq<u8>>>,
}

impl StreamReframer {
    /// Every byte ever fed, in order.
    pub closed spec fn history(&self) -> Seq<u8> {
        self.hist@
    }

    /// Every frame emitted so far, in order.
    pub closed spec fn emitted(&self) -> Seq<Seq<u8>> {
        self.done@
    }

    /// The fixed frame length this reframer cuts.
    pub closed spec fn frame_len_spec(&self) -> nat {
        self.frame_len as nat
    }

    /// Bytes currently pending in the buffer, not yet part of any frame.
    pub closed spec fn pending(&self) -> nat {
        self.buf@.len()
    }

    /// The reframer's invariant: the history splits into a consumed prefix
    /// and the pending buffer; the frames of the consumed prefix, extended
    /// by anything, are exactly the emitted frames followed by the frames
    /// of the extension; and the pending buffer holds no complete frame.
    pub closed spec fn wf(&self) -> bool {
        &&& self.hist@ == self.cons@ + self.buf@
        &&& forall|x: Seq<u8>|
            frames_of(self.cons@ + x, self.frame_len as nat) == self.done@ + frames_of(
                x,
                self.frame_len as nat,
            )
        &&& stuck(self.buf@, self.frame_len as nat)
    }

    /// A well-formed reframer has emitted exactly the frames of its
    /// history: what came out never depends on how the bytes were chunked.
    pub proof fn lemma_emitted_complete(&self)
        requires
            self.wf(),
        ensures
            self.emitted() == frames_of(self.history(), self.frame_len_spec()),
    {
        let flen = self.frame_len as nat;
        assert(frames_of(self.cons@ + self.buf@, flen) == self.done@ + frames_of(
            self.buf@,
            flen,
        ));
        lemma_stuck_no_frames(self.buf@, flen);
        assert(self.done@ + Seq::<Seq<u8>>::empty() =~= self.done@);
    }

    /// A fresh reframer cutting frames of `frame_len` bytes.
    pub fn new(frame_len: usize) -> (r: Self)
        ensures
            r.wf(),
            r.history() == Seq::<u8>::empty(),
            r.emitted() == Seq::<Seq<u8>>::empty(),
            r.frame_len_spec() == frame_len,
            r.pending() == 0,
    {
        let r = StreamReframer {
            buf: Vec::new(),
            frame_len,
            hist: Ghost(Seq::empty()),
            cons: Ghost(Seq::empty()),
            done: Ghost(Seq::empty()),
        };
        proof {
            assert(r.hist@ =~= r.cons@ + r.buf@);
            assert forall|x: Seq<u8>|
                frames_of(r.cons@ + x, frame_len as nat) == r.done@ + frames_of(
                    x,
                    frame_len as nat,
                ) by {
                assert(r.cons@ + x =~= x);
                assert(r.done@ + frames_of(x, frame_len as nat) =~= frames_of(
                    x,
                    frame_len as nat,
                ));
            }
        }
        r
    }

    /// Feed the next chunk of the stream, however small, and take whatever
    /// complete frames it completes. Over a whole session the frames
    /// emitted are exactly `frames_of` the concatenated history, so feeding
    /// a stream byte by byte emits the same frames as feeding it whole.
    pub fn feed(&mut self, chunk: &[u8]) -> (r: Vec<Vec<u8>>)
        requires
            old(self).wf(),
            old(self).pending() + chunk@.len() <= usize::MAX,
        ensures
            final(self).wf(),
            final(self).frame_len_spec() == old(self).frame_len_spec(),
            final(self).history() == old(self).history() + chunk@,
            final(self).emitted() == old(self).emitted() + r@.map_values(|v: Vec<u8>| v@),
            final(self).emitted() == frames_of(
                final(self).history(),
                final(self).frame_len_spec(),
            ),
            forall|t: int|
                0 <= t < r@.len() ==> (#[trigger] r@[t])@.len() == final(self).frame_len_spec(),
    {
        let ghost flen = self.frame_len as nat;
        let ghost hist0 = self.hist@;
        let ghost done0 = self.done@;
        let mut t: usize = 0;
        while t < chunk.len()
            invariant
                t <= chunk@.len(),
                self.buf@ == old(self).buf@ + chunk@.subrange(0, t as int),
                old(self).buf@.len() + chunk@.len() <= usize::MAX,
                self.frame_len == old(self).frame_len,
                self.hist@ == old(self).hist@,
                self.cons@ == old(self).cons@,
                self.done@ == old(self).done@,
            decreases chunk@.len() - t,
        {
            self.buf.push(chunk[t]);
            t = t + 1;
            proof {
                assert(self.buf@ =~= old(self).buf@ + chunk@.subrange(0, t as int));
            }
        }
        proof {
            assert(chunk@.subrange(0, chunk@.len() as int) =~= chunk@);
        }
        self.hist = Ghost(self.hist@ + chunk@);
        proof {
            assert(self.cons@ + self.buf@ =~= self.hist@);
        }
        let marker = marker_bytes();
        let mut out: Vec<Vec<u8>> = Vec::new();
        loop
            invariant
                self.frame_len == old(self).frame_len,
                self.hist@ == hist0 + chunk@,
                self.hist@ == self.cons@ + self.buf@,
                forall|x: Seq<u8>|
                    frames_of(self.cons@ + x, flen) == self.done@ + frames_of(x, flen),
                self.done@ == done0 + out@.map_values(|v: Vec<u8>| v@),
                forall|t2: int| 0 <= t2 < out@.len() ==> (#[trigger] out@[t2])@.len() == flen,
                flen == self.frame_len as nat,
                marker@ == frame_marker(),
            ensures
                stuck(self.buf@, flen),
            decreases self.buf@.len(),
        {
            let p = match find_subsequence(self.buf.as_slice(), marker.as_slice()) {
                Some(p) => p,
                None => {
                    proof {
                        lemma_first_match_none(self.buf@, frame_marker());
                    }
                    break ;
                },
            };
            proof {
                lemma_first_match_is(self.buf@, frame_marker(), p as int);
            }
            if self.buf.len() - (p + 5) < self.frame_len {
                break ;
            }
            let end = p + 5 + self.frame_len;
            let frame = crate::subvec(&self.buf, p + 5, end);
            let rest = crate::subvec(&self.buf, end, self.buf.len());
            let ghost bufp = self.buf@;
            let ghost d = self.buf@.take(end as int);
            let ghost cons0 = self.cons@;
            let ghost donep = self.done@;
            proof {
                assert(matches_at(d, frame_marker(), p as int)) by {
                    assert(self.buf@ =~= d + self.buf@.skip(end as int));
                    lemma_matches_at_prefix(d, self.buf@.skip(end as int), frame_marker(), p as int);
                }
                assert forall|k: int| 0 <= k < p implies !matches_at(d, frame_marker(), k) by {
                    assert(self.buf@ =~= d + self.buf@.skip(end as int));
                    lemma_matches_at_prefix(d, self.buf@.skip(end as int), frame_marker(), k);
                }
                assert(frame@ =~= d.subrange(p + 5, p + 5 + flen as int));
                assert forall|x2: Seq<u8>|
                    frames_of(cons0 + d + x2, flen) == donep.push(frame@) + frames_of(
                        x2,
                        flen,
                    ) by {
                    assert(cons0 + d + x2 =~= cons0 + (d + x2));
                    assert(frames_of(cons0 + (d + x2), flen) == donep + frames_of(d + x2, flen));
                    lemma_frames_of_consume(d, x2, flen, p as int);
                    assert(donep + (seq![frame@] + frames_of(x2, flen)) =~= donep.push(frame@)
                        + frames_of(x2, flen));
                }
            }
            self.cons = Ghost(self.cons@ + d);
            self.done = Ghost(self.done@.push(frame@));
            self.buf = rest;
            out.push(frame);
            proof {
                assert(self.hist@ =~= self.cons@ + self.buf@) by {
                    assert(self.buf@ =~= bufp.skip(end as int));
                    assert(cons0 + d + bufp.skip(end as int) =~= cons0 + bufp);
                }
                assert(self.done@ =~= done0 + out@.map_values(|v: Vec<u8>| v@));
            }
        }
        proof {
            self.lemma_emitted_complete();
            assert(self.done@ == done0 + out@.map_values(|v: Vec<u8>| v@));
        }
        out
    }
}

} // verus!
