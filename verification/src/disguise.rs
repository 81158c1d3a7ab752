//! Covert disguise codec: a frame travels as the query field of a synthetic
//! HTTP request line, `GET /search?q=<base64 frame>&seq=<seq> HTTP/1.1`,
//! newline terminated. Decoding locates the field markers, strips the
//! base64, and tolerates arbitrary unrelated lines by failing silently.

use base64::engine::general_purpose;
use base64::Engine;
use vstd::prelude::*;

verus! {

/// The byte is one of the 65 bytes standard base64 output can contain:
/// `A`-`Z`, `a`-`z`, `0`-`9`, `+`, `/` and the `=` pad.
pub open spec fn is_b64_byte(b: u8) -> bool {
    (65 <= b <= 90) || (97 <= b <= 122) || (48 <= b <= 57) || b == 43 || b == 47 || b == 61
}

/// The alphabet byte standing for the 6-bit value `v`: `A`-`Z` for 0-25,
/// `a`-`z` for 26-51, `0`-`9` for 52-61, then `+` and `/`.
pub open spec fn b64_char(v: u8) -> u8 {
    if v < 26 {
        (65 + v) as u8
    } else if v < 52 {
        (71 + v) as u8
    } else if v < 62 {
        (v - 4) as u8
    } else if v == 62 {
        43
    } else {
        47
    }
}

/// The standard, padded base64 encoding of a byte string, as ASCII bytes:
/// each group of three input bytes becomes four alphabet bytes, and a final
/// group of one or two bytes is completed with `=` padding.
pub open spec fn b64_of(data: Seq<u8>) -> Seq<u8>
    decreases data.len(),
{
    if data.len() == 0 {
        Seq::empty()
    } else if data.len() == 1 {
        let b0 = data[0];
        seq![b64_char(b0 >> 2), b64_char((b0 & 3) << 4), 61, 61]
    } else if data.len() == 2 {
        let b0 = data[0];
        let b1 = data[1];
        seq![b64_char(b0 >> 2), b64_char((b0 & 3) << 4 | b1 >> 4), b64_char((b1 & 15) << 2), 61]
    } else {
        let b0 = data[0];
        let b1 = data[1];
        let b2 = data[2];
        seq![
            b64_char(b0 >> 2),
            b64_char((b0 & 3) << 4 | b1 >> 4),
            b64_char((b1 & 15) << 2 | b2 >> 6),
            b64_char(b2 & 63),
        ] + b64_of(data.skip(3))
    }
}

/// Base64 output consists of alphabet bytes only and is four bytes for
/// every started group of three input bytes.
pub proof fn lemma_b64_of_shape(data: Seq<u8>)
    ensures
        b64_of(data).len() == 4 * ((data.len() + 2) / 3),
        forall|i: int| 0 <= i < b64_of(data).len() ==> is_b64_byte(#[trigger] b64_of(data)[i]),
    decreases data.len(),
{
    assert(forall|v: u8| is_b64_byte(#[trigger] b64_char(v)));
    if data.len() <= 2 {
    } else {
        lemma_b64_of_shape(data.skip(3));
    }
}

/// Relies on base64's general_purpose::STANDARD engine: the canonical
/// padded encoding of the input, a function of the input alone.
#[verifier::external_body]
fn b64_encode(data: &Vec<u8>) -> (r: Vec<u8>)
    ensures
        r@ == b64_of(data@),
{
    general_purpose::STANDARD.encode(data.as_slice()).into_bytes()
}

/// Relies on base64's general_purpose::STANDARD engine: strict decoding
/// accepts exactly the canonical padded encodings and inverts the encoder.
#[verifier::external_body]
fn b64_decode(data: &Vec<u8>) -> (r: Option<Vec<u8>>)
    ensures
        forall|m: Seq<u8>| data@ == b64_of(m) ==> (r is Some && r.unwrap()@ == m),
        r is Some ==> data@ == b64_of(r.unwrap()@),
{
    general_purpose::STANDARD.decode(data.as_slice()).ok()
}

/// The byte is an ASCII decimal digit.
pub open spec fn is_digit(b: u8) -> bool {
    48 <= b <= 57
}

/// The ASCII decimal rendering of `n`, without leading zeros.
pub open spec fn dec_digits(n: nat) -> Seq<u8>
    decreases n,
{
    if n < 10 {
        seq![(48 + n) as u8]
    } else {
        dec_digits(n / 10).push((48 + n % 10) as u8)
    }
}

/// The number an ASCII digit string denotes.
pub open spec fn dec_value(s: Seq<u8>) -> nat
    decreases s.len(),
{
    if s.len() == 0 {
        0
    } else {
        dec_value(s.drop_last()) * 10 + (if s.last() >= 48 {
            (s.last() - 48) as nat
        } else {
            0
        })
    }
}

/// The string is the canonical decimal rendering of some number: nonempty,
/// all digits, and no leading zero unless it is exactly "0".
pub open spec fn is_canonical_dec(s: Seq<u8>) -> bool {
    s.len() >= 1 && (forall|i: int| 0 <= i < s.len() ==> is_digit(#[trigger] s[i])) && (s.len() > 1
        ==> s[0] != 48)
}

/// `dec_digits(n)` is canonical and denotes `n`; its first digit is nonzero
/// whenever `n` is.
pub proof fn lemma_dec_digits_canonical(n: nat)
    ensures
        is_canonical_dec(dec_digits(n)),
        dec_value(dec_digits(n)) == n,
        n >= 1 ==> dec_digits(n)[0] != 48,
        dec_digits(n).len() >= 1,
    decreases n,
{
    if n < 10 {
        let s = dec_digits(n);
        assert(s == seq![(48 + n) as u8]);
        assert(s.last() == (48 + n) as u8);
        assert(s.drop_last() =~= Seq::<u8>::empty());
        assert(dec_value(s.drop_last()) == 0);
        assert(dec_value(s) == n);
    } else {
        lemma_dec_digits_canonical(n / 10);
        let s = dec_digits(n);
        let p = dec_digits(n / 10);
        assert(s == p.push((48 + n % 10) as u8));
        assert(s.drop_last() =~= p);
        assert(s.last() == (48 + n % 10) as u8);
        assert(dec_value(s) == dec_value(p) * 10 + n % 10);
        assert(s[0] == p[0]);
        assert(forall|i: int|
            0 <= i < s.len() ==> is_digit(#[trigger] s[i]) == if i < p.len() {
                is_digit(p[i])
            } else {
                is_digit((48 + n % 10) as u8)
            });
    }
}

/// Render a `u32` in decimal ASCII.
pub fn u32_to_decimal(n: u32) -> (r: Vec<u8>)
    ensures
        r@ == dec_digits(n as nat),
    decreases n,
{
    if n < 10 {
        let mut v: Vec<u8> = Vec::new();
        v.push(48 + n as u8);
        proof {
            assert(v@ =~= dec_digits(n as nat));
        }
        v
    } else {
        let mut v = u32_to_decimal(n / 10);
        v.push(48 + (n % 10) as u8);
        proof {
            assert(v@ =~= dec_digits(n as nat));
        }
        v
    }
}

/// Appending one digit multiplies the denoted value by ten and adds it.
proof fn lemma_dec_value_push(s: Seq<u8>, d: u8)
    requires
        is_digit(d),
    ensures
        dec_value(s.push(d)) == dec_value(s) * 10 + (d - 48),
{
    assert(s.push(d).drop_last() =~= s);
    assert(s.push(d).last() == d);
}

/// Parse a canonical ASCII decimal into a `u32`. Returns `None` exactly on
/// strings that are not canonical renderings or denote more than
/// `u32::MAX`.
pub fn parse_decimal_u32(s: &[u8]) -> (r: Option<u32>)
    ensures
        match r {
            Some(v) => is_canonical_dec(s@) && v == dec_value(s@) && dec_value(s@) <= u32::MAX,
            None => !(is_canonical_dec(s@) && dec_value(s@) <= u32::MAX),
        },
{
    if s.len() == 0 {
        return None;
    }
    if s.len() > 1 && s[0] == 48 {
        return None;
    }
    let mut acc: u32 = 0;
    let mut i: usize = 0;
    while i < s.len()
        invariant
            i <= s@.len(),
            s@.len() >= 1,
            s@.len() <= usize::MAX,
            s@.len() > 1 ==> s@[0] != 48,
            acc == dec_value(s@.subrange(0, i as int)),
            forall|k: int| 0 <= k < i ==> is_digit(#[trigger] s@[k]),
        decreases s@.len() - i,
    {
        let b = s[i];
        if b < 48 || b > 57 {
            proof {
                assert(!is_digit(s@[i as int]));
            }
            return None;
        }
        let d = (b - 48) as u32;
        if acc > (u32::MAX - d) / 10 {
            proof {
                lemma_dec_value_grows(s@, i as int);
                assert(dec_value(s@.subrange(0, i + 1)) == acc * 10 + d) by {
                    assert(s@.subrange(0, i + 1).drop_last() =~= s@.subrange(0, i as int));
                    assert(s@.subrange(0, i + 1).last() == s@[i as int]);
                };
                assert(dec_value(s@.subrange(0, i + 1)) > u32::MAX) by (nonlinear_arith)
                    requires
                        dec_value(s@.subrange(0, i + 1)) == acc * 10 + d,
                        acc > (u32::MAX - d) / 10,
                        d <= 9,
                ;
            }
            return None;
        }
        proof {
            assert(acc * 10 + d <= u32::MAX) by (nonlinear_arith)
                requires
                    acc <= (u32::MAX - d) / 10,
                    d <= 9,
            ;
            assert(dec_value(s@.subrange(0, i + 1)) == acc * 10 + d) by {
                lemma_dec_value_push(s@.subrange(0, i as int), s@[i as int]);
                assert(s@.subrange(0, i + 1).drop_last() =~= s@.subrange(0, i as int));
                assert(s@.subrange(0, i + 1) =~= s@.subrange(0, i as int).push(s@[i as int]));
            };
        }
        acc = acc * 10 + d;
        i = i + 1;
    }
    proof {
        assert(s@.subrange(0, s@.len() as int) =~= s@);
    }
    Some(acc)
}

/// `"GET /search?q="`, the text leading every cover line.
pub open spec fn cover_prefix() -> Seq<u8> {
    seq![71u8, 69, 84, 32, 47, 115, 101, 97, 114, 99, 104, 63, 113, 61]
}

/// `"&seq="`, the marker separating the frame field from the sequence
/// number.
pub open spec fn cover_mid() -> Seq<u8> {
    seq![38u8, 115, 101, 113, 61]
}

/// `" HTTP/1.1\n"`, the text closing every cover line.
pub open spec fn cover_suffix() -> Seq<u8> {
    seq![32u8, 72, 84, 84, 80, 47, 49, 46, 49, 10]
}

/// `"q="`, the marker the decoder scans for to locate the frame field.
pub open spec fn qmark() -> Seq<u8> {
    seq![113u8, 61]
}

/// The full cover line disguising `frame` under sequence number `seq_no`:
/// `GET /search?q=<base64 frame>&seq=<seq_no> HTTP/1.1` plus newline.
pub open spec fn cover_line(frame: Seq<u8>, seq_no: u32) -> Seq<u8> {
    cover_prefix() + b64_of(frame) + cover_mid() + dec_digits(seq_no as nat) + cover_suffix()
}

fn push_cover_prefix(v: &mut Vec<u8>)
    ensures
        final(v)@ == old(v)@ + cover_prefix(),
{
    v.push(71);
    v.push(69);
    v.push(84);
    v.push(32);
    v.push(47);
    v.push(115);
    v.push(101);
    v.push(97);
    v.push(114);
    v.push(99);
    v.push(104);
    v.push(63);
    v.push(113);
    v.push(61);
    proof {
        assert(v@ =~= old(v)@ + cover_prefix());
    }
}

fn push_cover_mid(v: &mut Vec<u8>)
    ensures
        final(v)@ == old(v)@ + cover_mid(),
{
    v.push(38);
    v.push(115);
    v.push(101);
    v.push(113);
    v.push(61);
    proof {
        assert(v@ =~= old(v)@ + cover_mid());
    }
}

fn push_cover_suffix(v: &mut Vec<u8>)
    ensures
        final(v)@ == old(v)@ + cover_suffix(),
{
    v.push(32);
    v.push(72);
    v.push(84);
    v.push(84);
    v.push(80);
    v.push(47);
    v.push(49);
    v.push(46);
    v.push(49);
    v.push(10);
    proof {
        assert(v@ =~= old(v)@ + cover_suffix());
    }
}

/// Disguise a frame as a synthetic HTTP request line carrying it base64
/// encoded, tagged with the frame's sequence number.
pub fn encode_cover(frame: &Vec<u8>, seq_no: u32) -> (r: Vec<u8>)
    ensures
        r@ == cover_line(frame@, seq_no),
{
    let mut r: Vec<u8> = Vec::new();
    push_cover_prefix(&mut r);
    let mut b = b64_encode(frame);
    r.append(&mut b);
    push_cover_mid(&mut r);
    let mut d = u32_to_decimal(seq_no);
    r.append(&mut d);
    push_cover_suffix(&mut r);
    proof {
        assert(r@ =~= cover_line(frame@, seq_no));
    }
    r
}

/// What a successful decode found in the line: the first `q=` at `i`, the
/// first `&seq=` at `j`, the base64 of the returned frame between them, and
/// a canonical run of digits denoting the returned sequence number from
/// `j + 5` up to the first non-digit at `k`.
pub open spec fn cover_fields(
    line: Seq<u8>,
    i: int,
    j: int,
    k: int,
    frame: Seq<u8>,
    seq_no: u32,
) -> bool {
    &&& crate::stream::matches_at(line, qmark(), i)
    &&& forall|t: int| 0 <= t < i ==> !crate::stream::matches_at(line, qmark(), t)
    &&& crate::stream::matches_at(line, cover_mid(), j)
    &&& forall|t: int| 0 <= t < j ==> !crate::stream::matches_at(line, cover_mid(), t)
    &&& i + 2 <= j
    &&& j + 5 < k <= line.len()
    &&& line.subrange(i + 2, j) == b64_of(frame)
    &&& forall|t: int| j + 5 <= t < k ==> is_digit(#[trigger] line[t])
    &&& (k < line.len() ==> !is_digit(line[k]))
    &&& is_canonical_dec(line.subrange(j + 5, k))
    &&& seq_no == dec_value(line.subrange(j + 5, k))
}

/// How a well-formed cover line is laid out: the markers sit exactly where
/// the encoder put them, nowhere earlier, and the field regions read back
/// the encoded frame and digits.
proof fn lemma_cover_structure(line: Seq<u8>, f: Seq<u8>, s: u32)
    requires
        line == cover_line(f, s),
    ensures
        line.len() == 29 + b64_of(f).len() + dec_digits(s as nat).len(),
        crate::stream::matches_at(line, qmark(), 12),
        forall|k: int| 0 <= k < 12 ==> !crate::stream::matches_at(line, qmark(), k),
        crate::stream::matches_at(line, cover_mid(), 14 + b64_of(f).len() as int),
        forall|k: int|
            0 <= k < 14 + b64_of(f).len() ==> !crate::stream::matches_at(line, cover_mid(), k),
        line.subrange(14, 14 + b64_of(f).len() as int) == b64_of(f),
        line.subrange(
            19 + b64_of(f).len() as int,
            19 + b64_of(f).len() + dec_digits(s as nat).len() as int,
        ) == dec_digits(s as nat),
        forall|t: int|
            19 + b64_of(f).len() <= t < 19 + b64_of(f).len() + dec_digits(s as nat).len() as int
                ==> is_digit(#[trigger] line[t]),
        !is_digit(line[19 + b64_of(f).len() + dec_digits(s as nat).len() as int]),
{
    let bl = b64_of(f).len() as int;
    let dl = dec_digits(s as nat).len() as int;
    lemma_b64_of_shape(f);
    lemma_dec_digits_canonical(s as nat);
    assert(line.len() == 29 + bl + dl);
    assert forall|t: int| 0 <= t < 14 implies line[t] == cover_prefix()[t] by {}
    assert forall|t: int| 0 <= t < bl implies line[14 + t] == b64_of(f)[t] by {}
    assert forall|t: int| 0 <= t < 5 implies line[14 + bl + t] == cover_mid()[t] by {}
    assert forall|t: int| 0 <= t < dl implies line[19 + bl + t] == dec_digits(s as nat)[t] by {}
    assert forall|t: int| 0 <= t < 10 implies line[19 + bl + dl + t] == cover_suffix()[t] by {}
    assert(line.subrange(12, 14) =~= qmark());
    assert forall|k: int| 0 <= k < 12 implies !crate::stream::matches_at(line, qmark(), k) by {
        assert(line[k] == cover_prefix()[k]);
        assert(line[k] != 113);
        if crate::stream::matches_at(line, qmark(), k) {
            assert(line.subrange(k, k + 2)[0] == line[k]);
        }
    }
    assert(line.subrange(14 + bl, 19 + bl) =~= cover_mid());
    assert forall|k: int|
        0 <= k < 14 + bl implies !crate::stream::matches_at(line, cover_mid(), k) by {
        if k < 14 {
            assert(line[k] == cover_prefix()[k]);
            assert(line[k] != 38);
        } else {
            assert(line[k] == b64_of(f)[k - 14]);
            assert(is_b64_byte(b64_of(f)[k - 14]));
            assert(line[k] != 38);
        }
        if crate::stream::matches_at(line, cover_mid(), k) {
            assert(line.subrange(k, k + 5)[0] == line[k]);
        }
    }
    assert(line.subrange(14, 14 + bl) =~= b64_of(f));
    assert(line.subrange(19 + bl, 19 + bl + dl) =~= dec_digits(s as nat));
    assert(line[19 + bl + dl] == cover_suffix()[0]);
}

/// Scan forward from `start` over ASCII digits; the index returned is the
/// first non-digit position (or the end of the line).
fn scan_digits(line: &Vec<u8>, start: usize) -> (k: usize)
    requires
        start <= line@.len(),
    ensures
        start <= k <= line@.len(),
        forall|t: int| start <= t < k ==> is_digit(#[trigger] line@[t]),
        k < line@.len() ==> !is_digit(line@[k as int]),
{
    let mut k = start;
    while k < line.len()
        invariant
            start <= k <= line@.len(),
            forall|t: int| start <= t < k ==> is_digit(#[trigger] line@[t]),
        decreases line@.len() - k,
    {
        let b = line[k];
        if b < 48 || b > 57 {
            return k;
        }
        k = k + 1;
    }
    k
}

/// Extract the frame and sequence number hidden in a cover line. Decoding a
/// line the encoder produced returns exactly what was encoded, whatever
/// bytes the frame held; on lines without the markers, with malformed
/// base64 or without a canonical sequence field, it fails silently with
/// `None`.
#[verifier::rlimit(100)]
pub fn decode_cover(line: &Vec<u8>) -> (r: Option<(Vec<u8>, u32)>)
    ensures
        forall|f: Seq<u8>, s: u32|
            line@ == cover_line(f, s) ==> (r is Some && r.unwrap().0@ == f && r.unwrap().1 == s),
        r is Some ==> exists|i: int, j: int, k: int|
            cover_fields(line@, i, j, k, r.unwrap().0@, r.unwrap().1),
{
    let llen = line.len();
    proof {
        assert(llen == line@.len());
    }
    let qm = {
        let mut v: Vec<u8> = Vec::new();
        v.push(113);
        v.push(61);
        proof {
            assert(v@ =~= qmark());
        }
        v
    };
    let i = match crate::stream::find_subsequence(line.as_slice(), qm.as_slice()) {
        Some(i) => i,
        None => {
            proof {
                assert forall|f: Seq<u8>, s: u32| line@ != cover_line(f, s) by {
                    if line@ == cover_line(f, s) {
                        lemma_cover_structure(line@, f, s);
                    }
                }
            }
            return None;
        },
    };
    let mm = {
        let mut v: Vec<u8> = Vec::new();
        push_cover_mid(&mut v);
        v
    };
    let j = match crate::stream::find_subsequence(line.as_slice(), mm.as_slice()) {
        Some(j) => j,
        None => {
            proof {
                assert forall|f: Seq<u8>, s: u32| line@ != cover_line(f, s) by {
                    if line@ == cover_line(f, s) {
                        lemma_cover_structure(line@, f, s);
                    }
                }
            }
            return None;
        },
    };
    proof {
        assert forall|f: Seq<u8>, s: u32|
            line@ == cover_line(f, s) implies i == 12 && j == 14 + b64_of(f).len() by {
            lemma_cover_structure(line@, f, s);
        }
    }
    proof {
        assert(i + 2 <= line@.len());
        assert(j + 5 <= line@.len());
    }
    if j < i + 2 {
        proof {
            assert forall|f: Seq<u8>, s: u32| line@ != cover_line(f, s) by {
                if line@ == cover_line(f, s) {
                    lemma_cover_structure(line@, f, s);
                }
            }
        }
        return None;
    }
    let b64field = crate::subvec(line, i + 2, j);
    let frame = match b64_decode(&b64field) {
        Some(fr) => fr,
        None => {
            proof {
                assert forall|f: Seq<u8>, s: u32| line@ != cover_line(f, s) by {
                    if line@ == cover_line(f, s) {
                        lemma_cover_structure(line@, f, s);
                        assert(b64field@ == b64_of(f));
                    }
                }
            }
            return None;
        },
    };
    let start = j + 5;
    let k = scan_digits(line, start);
    if k == start {
        proof {
            assert forall|f: Seq<u8>, s: u32| line@ != cover_line(f, s) by {
                if line@ == cover_line(f, s) {
                    lemma_cover_structure(line@, f, s);
                    lemma_dec_digits_canonical(s as nat);
                    assert(is_digit(line@[start as int]));
                }
            }
        }
        return None;
    }
    let digits = crate::subvec(line, start, k);
    let v = match parse_decimal_u32(digits.as_slice()) {
        Some(v) => v,
        None => {
            proof {
                assert forall|f: Seq<u8>, s: u32| line@ != cover_line(f, s) by {
                    if line@ == cover_line(f, s) {
                        lemma_cover_structure(line@, f, s);
                        lemma_dec_digits_canonical(s as nat);
                        assert(k == 19 + b64_of(f).len() + dec_digits(s as nat).len());
                        assert(digits@ == dec_digits(s as nat));
                    }
                }
            }
            return None;
        },
    };
    proof {
        assert forall|f: Seq<u8>, s: u32|
            line@ == cover_line(f, s) implies frame@ == f && v == s by {
            lemma_cover_structure(line@, f, s);
            lemma_dec_digits_canonical(s as nat);
            assert(b64field@ == b64_of(f));
            assert(k == 19 + b64_of(f).len() + dec_digits(s as nat).len());
            assert(digits@ == dec_digits(s as nat));
        }
        assert(cover_fields(line@, i as int, j as int, k as int, frame@, v));
    }
    let res = Some((frame, v));
    proof {
        assert(cover_fields(line@, i as int, j as int, k as int, res.unwrap().0@, res.unwrap().1));
        assert(exists|i2: int, j2: int, k2: int|
            cover_fields(line@, i2, j2, k2, res.unwrap().0@, res.unwrap().1));
    }
    res
}

/// Once a digit-string prefix denotes more than `u32::MAX`, every extension
/// by further digits still does.
proof fn lemma_dec_value_grows(s: Seq<u8>, i: int)
    requires
        0 <= i < s.len(),
    ensures
        dec_value(s.subrange(0, i + 1)) > u32::MAX ==> dec_value(s) > u32::MAX,
    decreases s.len() - i,
{
    if i + 1 == s.len() {
        assert(s.subrange(0, i + 1) =~= s);
    } else {
        lemma_dec_value_grows(s, i + 1);
        let p = s.subrange(0, i + 1);
        let q = s.subrange(0, i + 2);
        assert(q.drop_last() =~= p);
        assert(dec_value(q) == dec_value(p) * 10 + (if q.last() >= 48 {
            (q.last() - 48) as nat
        } else {
            0
        }));
        assert(dec_value(p) > u32::MAX ==> dec_value(q) > u32::MAX) by (nonlinear_arith)
            requires
                dec_value(q) >= dec_value(p) * 10,
        ;
    }
}

} // verus!
