//! The wire-protocol codec: framing and length-prefixed decoding over a raw
//! byte buffer, and encoding of reply frames back to bytes.
//!
//! A frame is one self-delimited message. Decoding consumes bytes from the
//! front of a buffer and reports exactly how many bytes the frame occupied,
//! which is what keeps pipelining sound: unread bytes after a frame belong
//! to the next request.
//!
//! Frames whose payloads are text carry raw bytes; the protocol itself is
//! byte-oriented and no decoding step depends on a character encoding.

use vstd::prelude::*;

use crate::numbers::{
    dec_digits, digits_val, fmt_i64, fmt_u64, parse_i64, spec_fmt_int, spec_parse_i64,
    spec_parse_int,
};
use crate::text::append_bytes;

verus! {

/// One decoded protocol frame.
#[derive(Debug, PartialEq)]
pub enum RESPType {
    SimpleString(Vec<u8>),
    Error(Vec<u8>),
    Integer(i64),
    BulkString(Option<BulkStringData>),
    Array(Vec<RESPType>),
}

/// Payload of a non-null bulk string: the text bytes and the declared
/// length from the wire, which for a well-formed frame equals the number
/// of text bytes.
#[derive(Debug, PartialEq)]
pub struct BulkStringData {
    pub text: Vec<u8>,
    pub prefix_length: usize,
}

/// The mathematical shape of a frame, with byte payloads as sequences.
pub enum FrameModel {
    Simple(Seq<u8>),
    Error(Seq<u8>),
    Integer(int),
    Bulk(Option<Seq<u8>>),
    Array(Seq<FrameModel>),
}

/// The model of a concrete frame value.
pub open spec fn frame_model(f: RESPType) -> FrameModel
    decreases f,
    via frame_model_decreases
{
    match f {
        RESPType::SimpleString(s) => FrameModel::Simple(s@),
        RESPType::Error(s) => FrameModel::Error(s@),
        RESPType::Integer(v) => FrameModel::Integer(v as int),
        RESPType::BulkString(o) => match o {
            None => FrameModel::Bulk(None),
            Some(b) => FrameModel::Bulk(Some(b.text@)),
        },
        RESPType::Array(v) => FrameModel::Array(frame_models(v@)),
    }
}

#[via_fn]
proof fn frame_model_decreases(f: RESPType) {
    match f {
        RESPType::Array(v) => {
            assert(decreases_to!(v => v@));
        },
        _ => {},
    }
}

/// The models of a sequence of frames, in order.
pub open spec fn frame_models(s: Seq<RESPType>) -> Seq<FrameModel>
    decreases s,
{
    if s.len() == 0 {
        Seq::empty()
    } else {
        seq![frame_model(s.first())] + frame_models(s.drop_first())
    }
}

/// `frame_models` maps the sequence element by element.
pub proof fn lemma_frame_models_index(s: Seq<RESPType>)
    ensures
        frame_models(s).len() == s.len(),
        forall|i: int| 0 <= i < s.len() ==> frame_models(s)[i] == frame_model(#[trigger] s[i]),
    decreases s.len(),
{
    if s.len() > 0 {
        lemma_frame_models_index(s.drop_first());
        assert forall|i: int| 0 <= i < s.len() implies frame_models(s)[i] == frame_model(
            #[trigger] s[i],
        ) by {
            if i == 0 {
                assert(s[0] == s.first());
                assert(frame_models(s)[0] == frame_model(s.first()));
            } else {
                assert(s.drop_first()[i - 1] == s[i]);
                assert(frame_models(s)[i] == frame_models(s.drop_first())[i - 1]);
            }
        }
    }
}

/// Appending a frame appends its model.
pub proof fn lemma_frame_models_snoc(s: Seq<RESPType>, x: RESPType)
    ensures
        frame_models(s.push(x)) == frame_models(s).push(frame_model(x)),
    decreases s.len(),
{
    if s.len() == 0 {
        reveal_with_fuel(frame_models, 2);
        assert(s =~= Seq::<RESPType>::empty());
        assert(s.push(x).len() == 1);
        assert(s.push(x).first() == x);
        assert(s.push(x).drop_first() =~= Seq::<RESPType>::empty());
        assert(frame_models(s.push(x)) =~= frame_models(s).push(frame_model(x)));
    } else {
        assert(s.push(x).first() == s.first());
        assert(s.push(x).drop_first() =~= s.drop_first().push(x));
        lemma_frame_models_snoc(s.drop_first(), x);
        assert(frame_models(s.push(x)) == seq![frame_model(s.first())] + frame_models(
            s.drop_first(),
        ).push(frame_model(x)));
        assert(frame_models(s) == seq![frame_model(s.first())] + frame_models(s.drop_first()));
        assert((seq![frame_model(s.first())] + frame_models(s.drop_first())).push(frame_model(x))
            =~= seq![frame_model(s.first())] + frame_models(s.drop_first()).push(frame_model(x)));
    }
}

/// A frame the encoder can emit faithfully: line payloads hold no CRLF,
/// and a bulk string declares exactly its text length.
pub open spec fn frame_wf(f: RESPType) -> bool
    decreases f,
{
    match f {
        RESPType::SimpleString(s) => find_crlf(s@) is None,
        RESPType::Error(s) => find_crlf(s@) is None,
        RESPType::Integer(_) => true,
        RESPType::BulkString(o) => match o {
            None => true,
            Some(b) => b.prefix_length == b.text@.len(),
        },
        RESPType::Array(v) => forall|i: int| 0 <= i < v@.len() ==> frame_wf(#[trigger] v[i]),
    }
}

/// Position of the first CRLF pair, if any.
pub open spec fn find_crlf(s: Seq<u8>) -> Option<int>
    decreases s.len(),
{
    if s.len() < 2 {
        None
    } else if s[0] == 13 && s[1] == 10 {
        Some(0)
    } else {
        match find_crlf(s.drop_first()) {
            Some(i) => Some(i + 1),
            None => None,
        }
    }
}

pub proof fn lemma_find_crlf_some(s: Seq<u8>, p: int)
    requires
        0 <= p,
        p + 2 <= s.len(),
        s[p] == 13,
        s[p + 1] == 10,
        forall|q: int| 0 <= q < p ==> !(#[trigger] s[q] == 13 && s[q + 1] == 10),
    ensures
        find_crlf(s) == Some(p),
    decreases s.len(),
{
    if p == 0 {
    } else {
        let t = s.drop_first();
        assert(forall|q: int| 0 <= q < t.len() ==> #[trigger] t[q] == s[q + 1]);
        lemma_find_crlf_some(t, p - 1);
    }
}

pub proof fn lemma_find_crlf_none(s: Seq<u8>)
    requires
        forall|q: int| 0 <= q && q + 2 <= s.len() ==> !(#[trigger] s[q] == 13 && s[q + 1] == 10),
    ensures
        find_crlf(s) is None,
    decreases s.len(),
{
    if s.len() >= 2 {
        let t = s.drop_first();
        assert(forall|q: int| 0 <= q < t.len() ==> #[trigger] t[q] == s[q + 1]);
        lemma_find_crlf_none(t);
    }
}

/// What a `Some` answer of `find_crlf` means: a CRLF at that position and
/// none before it.
pub proof fn lemma_find_crlf_props(s: Seq<u8>)
    ensures
        match find_crlf(s) {
            Some(p) => 0 <= p && p + 2 <= s.len() && s[p] == 13 && s[p + 1] == 10 && forall|
                q: int,
            | 0 <= q < p ==> !(#[trigger] s[q] == 13 && s[q + 1] == 10),
            None => forall|q: int|
                0 <= q && q + 2 <= s.len() ==> !(#[trigger] s[q] == 13 && s[q + 1] == 10),
        },
    decreases s.len(),
{
    if s.len() < 2 {
    } else if s[0] == 13 && s[1] == 10 {
    } else {
        let t = s.drop_first();
        assert(forall|q: int| 0 <= q < t.len() ==> #[trigger] t[q] == s[q + 1]);
        lemma_find_crlf_props(t);
        match find_crlf(t) {
            Some(p2) => {
                assert forall|q: int| 0 <= q < p2 + 1 implies !(#[trigger] s[q] == 13 && s[q + 1]
                    == 10) by {
                    if q > 0 {
                        assert(t[q - 1] == s[q]);
                        assert(t[q] == s[q + 1]);
                        assert(!(t[q - 1] == 13 && t[q] == 10));
                    }
                }
            },
            None => {
                assert forall|q: int| 0 <= q && q + 2 <= s.len() implies !(#[trigger] s[q] == 13
                    && s[q + 1] == 10) by {
                    if q > 0 {
                        assert(t[q - 1] == s[q]);
                        assert(t[q] == s[q + 1]);
                        assert(!(t[q - 1] == 13 && t[q] == 10));
                    }
                }
            },
        }
    }
}

/// Decodes one frame from the front of `buf`.
///
/// `None` means the bytes are a strict prefix of some frame, or no frame
/// at all (an unknown leading byte, a malformed integer or length, or a
/// negative length other than the null-bulk sentinel): the caller treats
/// both alike and waits for more bytes. `Some((frame, n))` means a whole
/// frame occupies exactly the first `n` bytes.
pub open spec fn spec_decode(buf: Seq<u8>) -> Option<(FrameModel, int)>
    decreases buf.len(), 1int,
{
    if buf.len() == 0 {
        None
    } else if buf[0] == 43 || buf[0] == 45 {
        // simple string or error line
        match find_crlf(buf) {
            None => None,
            Some(p) => if p < 1 || p + 2 > buf.len() {
                None
            } else {
                let payload = buf.subrange(1, p);
                if buf[0] == 43 {
                    Some((FrameModel::Simple(payload), p + 2))
                } else {
                    Some((FrameModel::Error(payload), p + 2))
                }
            },
        }
    } else if buf[0] == 58 {
        // integer line
        match find_crlf(buf) {
            None => None,
            Some(p) => if p < 1 || p + 2 > buf.len() {
                None
            } else {
                match spec_parse_i64(buf.subrange(1, p)) {
                    Some(v) => Some((FrameModel::Integer(v), p + 2)),
                    None => None,
                }
            },
        }
    } else if buf[0] == 36 {
        // bulk string: length line, payload bytes, closing CRLF
        match find_crlf(buf) {
            None => None,
            Some(p) => if p < 1 || p + 2 > buf.len() {
                None
            } else {
                match spec_parse_int(buf.subrange(1, p)) {
                    None => None,
                    Some(l) => if l == -1 {
                        Some((FrameModel::Bulk(None), p + 2))
                    } else if l < 0 || l > i32::MAX {
                        None
                    } else if p + 2 + l + 2 > buf.len() {
                        None
                    } else if buf[p + 2 + l] == 13 && buf[p + 2 + l + 1] == 10 {
                        Some(
                            (FrameModel::Bulk(Some(buf.subrange(p + 2, p + 2 + l))), p + 2 + l
                                + 2),
                        )
                    } else {
                        None
                    },
                }
            },
        }
    } else if buf[0] == 42 {
        // array: count line, then that many child frames
        match find_crlf(buf) {
            None => None,
            Some(p) => if p < 1 || p + 2 > buf.len() {
                None
            } else {
                match spec_parse_int(buf.subrange(1, p)) {
                    None => None,
                    Some(c) => if c < 0 || c > i32::MAX {
                        None
                    } else if c == 0 {
                        Some((FrameModel::Array(Seq::empty()), p + 2))
                    } else {
                        match spec_decode_list(buf.skip(p + 2), c) {
                            None => None,
                            Some((elems, used)) => Some((FrameModel::Array(elems), p + 2 + used)),
                        }
                    },
                }
            },
        }
    } else {
        None
    }
}

/// Decodes `n` consecutive frames from the front of `buf`.
pub open spec fn spec_decode_list(buf: Seq<u8>, n: int) -> Option<(Seq<FrameModel>, int)>
    decreases buf.len(), 3int + n,
{
    if n <= 0 {
        Some((Seq::empty(), 0))
    } else {
        match spec_decode(buf) {
            None => None,
            Some((f, used)) => if used < 1 || used > buf.len() {
                None
            } else {
                match spec_decode_list(buf.skip(used), n - 1) {
                    None => None,
                    Some((rest, used2)) => Some((seq![f] + rest, used + used2)),
                }
            },
        }
    }
}

/// What the decoder guarantees of its result for the buffer suffix that
/// begins at `start`.
pub open spec fn decode_post(full: Seq<u8>, start: int, r0: Option<RESPType>, r1: int) -> bool {
    match r0 {
        Some(f) => frame_wf(f) && 1 <= r1 && start + r1 <= full.len() && spec_decode(
            full.skip(start),
        ) == Some((frame_model(f), r1)),
        None => spec_decode(full.skip(start)) is None && r1 == 0,
    }
}

/// Encoded bytes of a frame model.
pub open spec fn spec_encode(m: FrameModel) -> Seq<u8>
    decreases m,
{
    match m {
        FrameModel::Simple(s) => seq![43u8] + s + seq![13u8, 10u8],
        FrameModel::Error(s) => seq![45u8] + s + seq![13u8, 10u8],
        FrameModel::Integer(v) => seq![58u8] + spec_fmt_int(v) + seq![13u8, 10u8],
        FrameModel::Bulk(None) => seq![36u8, 45u8, 49u8, 13u8, 10u8],
        FrameModel::Bulk(Some(t)) => seq![36u8] + dec_digits(t.len() as int) + seq![13u8, 10u8]
            + t + seq![13u8, 10u8],
        FrameModel::Array(elems) => seq![42u8] + dec_digits(elems.len() as int)
            + seq![13u8, 10u8] + spec_encode_list(elems),
    }
}

/// Concatenated encodings of a sequence of frame models.
pub open spec fn spec_encode_list(s: Seq<FrameModel>) -> Seq<u8>
    decreases s,
{
    if s.len() == 0 {
        Seq::empty()
    } else {
        spec_encode(s.first()) + spec_encode_list(s.drop_first())
    }
}

/// The byte sequence holds no CRLF pair.
pub open spec fn seq_no_crlf(s: Seq<u8>) -> bool {
    forall|q: int| 0 <= q && q + 2 <= s.len() ==> !(#[trigger] s[q] == 13 && s[q + 1] == 10)
}

/// A frame model the wire carries faithfully: line payloads hold no
/// CRLF, integers fit their type, and bulk payloads and arrays stay
/// within the length prefix's range.
pub open spec fn model_wf(m: FrameModel) -> bool
    decreases m,
{
    match m {
        FrameModel::Simple(s) => seq_no_crlf(s),
        FrameModel::Error(s) => seq_no_crlf(s),
        FrameModel::Integer(v) => i64::MIN <= v <= i64::MAX,
        FrameModel::Bulk(o) => match o {
            None => true,
            Some(t) => t.len() <= i32::MAX,
        },
        FrameModel::Array(elems) => elems.len() <= i32::MAX && forall|i: int|
            0 <= i < elems.len() ==> model_wf(#[trigger] elems[i]),
    }
}

/// In a line made of a CRLF-free payload, its terminator, and anything
/// after, the first CRLF is exactly the terminator.
proof fn lemma_line_crlf(head: Seq<u8>, tail: Seq<u8>)
    requires
        seq_no_crlf(head),
    ensures
        find_crlf(head + seq![13u8, 10u8] + tail) == Some(head.len() as int),
{
    let buf = head + seq![13u8, 10u8] + tail;
    let p = head.len() as int;
    assert(buf[p] == 13);
    assert(buf[p + 1] == 10);
    assert forall|q: int| 0 <= q < p implies !(#[trigger] buf[q] == 13 && buf[q + 1] == 10) by {
        if q + 1 < p {
            assert(buf[q] == head[q]);
            assert(buf[q + 1] == head[q + 1]);
        } else {
            assert(buf[q] == head[q]);
            assert(buf[q + 1] == 13);
        }
    }
    lemma_find_crlf_some(buf, p);
}

/// Decimal digit runs hold no carriage return, no line feed, and no
/// sign byte.
proof fn lemma_digits_bytes(n: int)
    requires
        n >= 0,
    ensures
        seq_no_crlf(dec_digits(n)),
        forall|i: int|
            0 <= i < dec_digits(n).len() ==> 48 <= #[trigger] dec_digits(n)[i] <= 57,
{
    crate::numbers::lemma_dec_digits_are_digits(n);
}

/// A rendered integer holds no CRLF.
proof fn lemma_fmt_no_crlf(v: int)
    ensures
        seq_no_crlf(spec_fmt_int(v)),
        spec_fmt_int(v).len() >= 1,
        spec_fmt_int(v)[0] != 13,
{
    if v < 0 {
        lemma_digits_bytes(-v);
        let s = seq![45u8] + dec_digits(-v);
        assert forall|q: int| 0 <= q && q + 2 <= s.len() implies !(#[trigger] s[q] == 13 && s[q
            + 1] == 10) by {
            if q > 0 {
                assert(s[q] == dec_digits(-v)[q - 1]);
            }
        }
    } else {
        lemma_digits_bytes(v);
    }
}

/// Parsing the rendered digits of a length gives the length back.
proof fn lemma_parse_digits(n: int)
    requires
        0 <= n,
    ensures
        spec_parse_int(dec_digits(n)) == Some(n),
{
    lemma_digits_bytes(n);
    crate::numbers::lemma_digits_val_of_dec_digits(n);
    let ds = dec_digits(n);
    assert(ds[0] != 43 && ds[0] != 45);
}

/// Round trip with pipelining: the encoding of a well-formed frame,
/// followed by any trailing bytes, decodes back to exactly that frame,
/// consuming exactly the encoding and leaving the trailing bytes
/// untouched.
#[verifier::rlimit(60)]
pub proof fn lemma_encode_decode(m: FrameModel, tail: Seq<u8>)
    requires
        model_wf(m),
    ensures
        spec_decode(spec_encode(m) + tail) == Some((m, spec_encode(m).len() as int)),
    decreases m, 0int,
{
    let enc = spec_encode(m);
    let buf = enc + tail;
    match m {
        FrameModel::Simple(s) => {
            assert(buf =~= (seq![43u8] + s) + seq![13u8, 10u8] + tail);
            assert(seq_no_crlf(seq![43u8] + s)) by {
                let h = seq![43u8] + s;
                assert forall|q: int|
                    0 <= q && q + 2 <= h.len() implies !(#[trigger] h[q] == 13 && h[q + 1]
                    == 10) by {
                    if q > 0 {
                        assert(h[q] == s[q - 1]);
                        assert(h[q + 1] == s[q]);
                    }
                }
            }
            lemma_line_crlf(seq![43u8] + s, tail);
            let p = 1 + s.len() as int;
            assert(buf[0] == 43);
            assert(buf.subrange(1, p) =~= s);
            assert(spec_decode(buf) == Some((FrameModel::Simple(s), p + 2)));
        },
        FrameModel::Error(s) => {
            assert(buf =~= (seq![45u8] + s) + seq![13u8, 10u8] + tail);
            assert(seq_no_crlf(seq![45u8] + s)) by {
                let h = seq![45u8] + s;
                assert forall|q: int|
                    0 <= q && q + 2 <= h.len() implies !(#[trigger] h[q] == 13 && h[q + 1]
                    == 10) by {
                    if q > 0 {
                        assert(h[q] == s[q - 1]);
                        assert(h[q + 1] == s[q]);
                    }
                }
            }
            lemma_line_crlf(seq![45u8] + s, tail);
            let p = 1 + s.len() as int;
            assert(buf[0] == 45);
            assert(buf.subrange(1, p) =~= s);
            assert(spec_decode(buf) == Some((FrameModel::Error(s), p + 2)));
        },
        FrameModel::Integer(v) => {
            let d = spec_fmt_int(v);
            lemma_fmt_no_crlf(v);
            assert(buf =~= (seq![58u8] + d) + seq![13u8, 10u8] + tail);
            assert(seq_no_crlf(seq![58u8] + d)) by {
                let h = seq![58u8] + d;
                assert forall|q: int|
                    0 <= q && q + 2 <= h.len() implies !(#[trigger] h[q] == 13 && h[q + 1]
                    == 10) by {
                    if q > 0 {
                        assert(h[q] == d[q - 1]);
                        assert(h[q + 1] == d[q]);
                    }
                }
            }
            lemma_line_crlf(seq![58u8] + d, tail);
            let p = 1 + d.len() as int;
            assert(buf[0] == 58);
            assert(buf.subrange(1, p) =~= d);
            crate::numbers::lemma_parse_fmt_roundtrip(v);
            assert(spec_decode(buf) == Some((FrameModel::Integer(v), p + 2)));
        },
        FrameModel::Bulk(o) => {
            match o {
                None => {
                    assert(buf =~= seq![36u8, 45u8, 49u8] + seq![13u8, 10u8] + tail);
                    assert(seq_no_crlf(seq![36u8, 45u8, 49u8]));
                    lemma_line_crlf(seq![36u8, 45u8, 49u8], tail);
                    assert(buf[0] == 36);
                    let header = buf.subrange(1, 3);
                    assert(header =~= seq![45u8, 49u8]);
                    assert(spec_parse_int(header) == Some(-1)) by {
                        reveal_with_fuel(digits_val, 3);
                        assert(header[0] == 45);
                        let ds = header.drop_first();
                        assert(ds =~= seq![49u8]);
                        assert(crate::numbers::all_digits(ds));
                        assert(ds.drop_last() =~= Seq::<u8>::empty());
                        assert(digits_val(ds) == 1);
                    }
                    assert(spec_decode(buf) == Some((FrameModel::Bulk(None), 5int)));
                    assert(enc.len() == 5);
                },
                Some(t) => {
                    let d = dec_digits(t.len() as int);
                    lemma_digits_bytes(t.len() as int);
                    lemma_parse_digits(t.len() as int);
                    assert(buf =~= (seq![36u8] + d) + seq![13u8, 10u8] + (t + seq![13u8, 10u8]
                        + tail));
                    assert(seq_no_crlf(seq![36u8] + d)) by {
                        let h = seq![36u8] + d;
                        assert forall|q: int|
                            0 <= q && q + 2 <= h.len() implies !(#[trigger] h[q] == 13 && h[q
                            + 1] == 10) by {
                            if q > 0 {
                                assert(h[q] == d[q - 1]);
                                assert(h[q + 1] == d[q]);
                            }
                        }
                    }
                    lemma_line_crlf(seq![36u8] + d, t + seq![13u8, 10u8] + tail);
                    let p = 1 + d.len() as int;
                    let l = t.len() as int;
                    assert(buf[0] == 36);
                    assert(buf.subrange(1, p) =~= d);
                    assert(buf[p + 2 + l] == 13);
                    assert(buf[p + 2 + l + 1] == 10);
                    assert(buf.subrange(p + 2, p + 2 + l) =~= t);
                    assert(spec_decode(buf) == Some((FrameModel::Bulk(Some(t)), p + 2 + l + 2)));
                    assert(enc.len() == p + 2 + l + 2);
                },
            }
        },
        FrameModel::Array(elems) => {
            let n = elems.len() as int;
            let d = dec_digits(n);
            lemma_digits_bytes(n);
            lemma_parse_digits(n);
            let body = spec_encode_list(elems);
            assert(buf =~= (seq![42u8] + d) + seq![13u8, 10u8] + (body + tail));
            assert(seq_no_crlf(seq![42u8] + d)) by {
                let h = seq![42u8] + d;
                assert forall|q: int|
                    0 <= q && q + 2 <= h.len() implies !(#[trigger] h[q] == 13 && h[q + 1]
                    == 10) by {
                    if q > 0 {
                        assert(h[q] == d[q - 1]);
                        assert(h[q + 1] == d[q]);
                    }
                }
            }
            lemma_line_crlf(seq![42u8] + d, body + tail);
            let p = 1 + d.len() as int;
            assert(buf[0] == 42);
            assert(buf.subrange(1, p) =~= d);
            if n == 0 {
                assert(elems =~= Seq::<FrameModel>::empty());
                assert(body == Seq::<u8>::empty());
                assert(spec_decode(buf) == Some((FrameModel::Array(elems), p + 2)));
                assert(enc.len() == p + 2);
            } else {
                assert(buf.skip(p + 2) =~= body + tail);
                lemma_encode_decode_list(elems, tail);
                assert(spec_decode(buf) == Some((FrameModel::Array(elems), p + 2
                    + body.len())));
                assert(enc.len() == p + 2 + body.len());
            }
        },
    }
}

/// Round trip for a run of frames: the concatenated encodings of
/// well-formed frames, followed by any trailing bytes, decode back to
/// exactly those frames.
proof fn lemma_encode_decode_list(elems: Seq<FrameModel>, tail: Seq<u8>)
    requires
        forall|i: int| 0 <= i < elems.len() ==> model_wf(#[trigger] elems[i]),
    ensures
        spec_decode_list(spec_encode_list(elems) + tail, elems.len() as int) == Some(
            (elems, spec_encode_list(elems).len() as int),
        ),
    decreases elems, 1int,
{
    let body = spec_encode_list(elems);
    let buf = body + tail;
    if elems.len() == 0 {
        assert(body == Seq::<u8>::empty());
        assert(spec_decode_list(buf, 0) == Some((Seq::<FrameModel>::empty(), 0int)));
        assert(elems =~= Seq::<FrameModel>::empty());
    } else {
        let first = elems.first();
        let rest = elems.drop_first();
        let e1 = spec_encode(first);
        let rest_body = spec_encode_list(rest);
        assert(model_wf(first));
        assert(buf =~= e1 + (rest_body + tail));
        lemma_encode_decode(first, rest_body + tail);
        let l1 = e1.len() as int;
        assert(spec_decode(buf) == Some((first, l1)));
        assert(l1 >= 1);
        assert(l1 <= buf.len());
        assert(buf.skip(l1) =~= rest_body + tail);
        assert(forall|i: int| 0 <= i < rest.len() ==> model_wf(#[trigger] rest[i])) by {
            assert(forall|i: int|
                0 <= i < rest.len() ==> #[trigger] rest[i] == elems[i + 1]);
        }
        lemma_encode_decode_list(rest, tail);
        assert(spec_decode_list(buf, elems.len() as int) == Some(
            (seq![first] + rest, l1 + rest_body.len()),
        ));
        assert(seq![first] + rest =~= elems);
        assert(body.len() == l1 + rest_body.len());
    }
}

/// In the encoding of any well-formed frame, no CRLF pair precedes the
/// one that ends the first line, which sits right after the symbol and
/// the line's payload or length digits.
proof fn lemma_encode_head_crlf(m: FrameModel)
    requires
        model_wf(m),
    ensures
        ({
            let enc = spec_encode(m);
            let p = match m {
                FrameModel::Simple(s) => 1 + s.len() as int,
                FrameModel::Error(s) => 1 + s.len() as int,
                FrameModel::Integer(v) => 1 + spec_fmt_int(v).len() as int,
                FrameModel::Bulk(o) => match o {
                    None => 3int,
                    Some(t) => 1 + dec_digits(t.len() as int).len() as int,
                },
                FrameModel::Array(elems) => 1 + dec_digits(elems.len() as int).len() as int,
            };
            &&& p + 2 <= enc.len()
            &&& enc[p] == 13
            &&& enc[p + 1] == 10
            &&& forall|q: int| 0 <= q < p ==> !(#[trigger] enc[q] == 13 && enc[q + 1] == 10)
        }),
{
    let enc = spec_encode(m);
    match m {
        FrameModel::Simple(s) => {
            let p = 1 + s.len() as int;
            assert forall|q: int| 0 <= q < p implies !(#[trigger] enc[q] == 13 && enc[q + 1]
                == 10) by {
                if q > 0 && q + 1 < p {
                    assert(enc[q] == s[q - 1]);
                    assert(enc[q + 1] == s[q]);
                } else if q > 0 {
                    assert(enc[q] == s[q - 1]);
                    assert(enc[q + 1] == 13);
                }
            }
        },
        FrameModel::Error(s) => {
            let p = 1 + s.len() as int;
            assert forall|q: int| 0 <= q < p implies !(#[trigger] enc[q] == 13 && enc[q + 1]
                == 10) by {
                if q > 0 && q + 1 < p {
                    assert(enc[q] == s[q - 1]);
                    assert(enc[q + 1] == s[q]);
                } else if q > 0 {
                    assert(enc[q] == s[q - 1]);
                    assert(enc[q + 1] == 13);
                }
            }
        },
        FrameModel::Integer(v) => {
            let d = spec_fmt_int(v);
            lemma_fmt_no_crlf(v);
            let p = 1 + d.len() as int;
            assert forall|q: int| 0 <= q < p implies !(#[trigger] enc[q] == 13 && enc[q + 1]
                == 10) by {
                if q > 0 && q + 1 < p {
                    assert(enc[q] == d[q - 1]);
                    assert(enc[q + 1] == d[q]);
                } else if q > 0 {
                    assert(enc[q] == d[q - 1]);
                    assert(enc[q + 1] == 13);
                }
            }
        },
        FrameModel::Bulk(o) => {
            match o {
                None => {
                    assert(enc[0] == 36);
                    assert(enc[1] == 45);
                    assert(enc[2] == 49);
                },
                Some(t) => {
                    let d = dec_digits(t.len() as int);
                    lemma_digits_bytes(t.len() as int);
                    let p = 1 + d.len() as int;
                    assert forall|q: int| 0 <= q < p implies !(#[trigger] enc[q] == 13 && enc[q
                        + 1] == 10) by {
                        if q > 0 && q + 1 < p {
                            assert(enc[q] == d[q - 1]);
                            assert(enc[q + 1] == d[q]);
                        } else if q > 0 {
                            assert(enc[q] == d[q - 1]);
                            assert(enc[q + 1] == 13);
                        }
                    }
                },
            }
        },
        FrameModel::Array(elems) => {
            let d = dec_digits(elems.len() as int);
            lemma_digits_bytes(elems.len() as int);
            let p = 1 + d.len() as int;
            assert forall|q: int| 0 <= q < p implies !(#[trigger] enc[q] == 13 && enc[q + 1]
                == 10) by {
                if q > 0 && q + 1 < p {
                    assert(enc[q] == d[q - 1]);
                    assert(enc[q + 1] == d[q]);
                } else if q > 0 {
                    assert(enc[q] == d[q - 1]);
                    assert(enc[q + 1] == 13);
                }
            }
        },
    }
}

/// Any strict prefix of the encoding of a well-formed frame decodes to
/// "no complete frame yet".
#[verifier::rlimit(100)]
pub proof fn lemma_decode_prefix(m: FrameModel, cut: int)
    requires
        model_wf(m),
        0 <= cut < spec_encode(m).len(),
    ensures
        spec_decode(spec_encode(m).take(cut)) is None,
    decreases m, 0int,
{
    let enc = spec_encode(m);
    let buf = enc.take(cut);
    if cut == 0 {
        return ;
    }
    lemma_encode_head_crlf(m);
    let p = match m {
        FrameModel::Simple(s) => 1 + s.len() as int,
        FrameModel::Error(s) => 1 + s.len() as int,
        FrameModel::Integer(v) => 1 + spec_fmt_int(v).len() as int,
        FrameModel::Bulk(o) => match o {
            None => 3int,
            Some(t) => 1 + dec_digits(t.len() as int).len() as int,
        },
        FrameModel::Array(elems) => 1 + dec_digits(elems.len() as int).len() as int,
    };
    assert(forall|q: int| 0 <= q < buf.len() ==> #[trigger] buf[q] == enc[q]);
    if cut < p + 2 {
        // the first line's terminator is not fully there yet
        assert forall|q: int| 0 <= q && q + 2 <= buf.len() implies !(#[trigger] buf[q] == 13
            && buf[q + 1] == 10) by {
            assert(buf[q] == enc[q]);
            assert(buf[q + 1] == enc[q + 1]);
        }
        lemma_find_crlf_none(buf);
    } else {
        // the first line is complete; what follows it is short
        assert forall|q: int| 0 <= q < p implies !(#[trigger] buf[q] == 13 && buf[q + 1]
            == 10) by {
            assert(buf[q] == enc[q]);
            assert(buf[q + 1] == enc[q + 1]);
        }
        assert(buf[p] == 13);
        assert(buf[p + 1] == 10);
        lemma_find_crlf_some(buf, p);
        assert(buf.subrange(1, p) =~= enc.subrange(1, p));
        match m {
            FrameModel::Simple(s) => {
                assert(false);
            },
            FrameModel::Error(s) => {
                assert(false);
            },
            FrameModel::Integer(v) => {
                assert(false);
            },
            FrameModel::Bulk(o) => {
                match o {
                    None => {
                        assert(false);
                    },
                    Some(t) => {
                        let l = t.len() as int;
                        lemma_parse_digits(l);
                        assert(enc.subrange(1, p) =~= dec_digits(l));
                        assert(enc.len() == p + 2 + l + 2);
                        assert(p + 2 + l + 2 > buf.len());
                    },
                }
            },
            FrameModel::Array(elems) => {
                let n = elems.len() as int;
                lemma_parse_digits(n);
                assert(enc.subrange(1, p) =~= dec_digits(n));
                let body = spec_encode_list(elems);
                assert(enc =~= (seq![42u8] + dec_digits(n)) + seq![13u8, 10u8] + body);
                assert(enc.len() == p + 2 + body.len());
                if n == 0 {
                    assert(false);
                } else {
                    let cut2 = cut - (p + 2);
                    assert(buf.skip(p + 2) =~= body.take(cut2));
                    lemma_decode_list_prefix(elems, cut2);
                }
            },
        }
    }
}

/// Any strict prefix of the concatenated encodings of one or more
/// well-formed frames decodes, as that many frames, to "not yet".
#[verifier::rlimit(60)]
proof fn lemma_decode_list_prefix(elems: Seq<FrameModel>, cut: int)
    requires
        forall|i: int| 0 <= i < elems.len() ==> model_wf(#[trigger] elems[i]),
        0 <= cut < spec_encode_list(elems).len(),
    ensures
        spec_decode_list(spec_encode_list(elems).take(cut), elems.len() as int) is None,
    decreases elems, 1int,
{
    let body = spec_encode_list(elems);
    let buf = body.take(cut);
    assert(elems.len() > 0);
    let first = elems.first();
    let rest = elems.drop_first();
    let e1 = spec_encode(first);
    let rest_body = spec_encode_list(rest);
    assert(model_wf(first));
    assert(body =~= e1 + rest_body);
    assert(forall|i: int| 0 <= i < rest.len() ==> model_wf(#[trigger] rest[i])) by {
        assert(forall|i: int| 0 <= i < rest.len() ==> #[trigger] rest[i] == elems[i + 1]);
    }
    if cut < e1.len() {
        assert(buf =~= e1.take(cut));
        lemma_decode_prefix(first, cut);
    } else {
        let l1 = e1.len() as int;
        assert(buf =~= e1 + rest_body.take(cut - l1));
        lemma_encode_decode(first, rest_body.take(cut - l1));
        assert(spec_decode(buf) == Some((first, l1)));
        assert(l1 >= 1);
        assert(buf.skip(l1) =~= rest_body.take(cut - l1));
        if rest.len() == 0 {
            assert(false);
        } else {
            lemma_decode_list_prefix(rest, cut - l1);
        }
    }
}

/// Copies `buf[from..to]` into a fresh vector.
fn copy_range(buf: &[u8], from: usize, to: usize) -> (r: Vec<u8>)
    requires
        from <= to <= buf@.len(),
    ensures
        r@ == buf@.subrange(from as int, to as int),
{
    let mut out: Vec<u8> = Vec::new();
    let mut i: usize = from;
    while i < to
        invariant
            from <= i <= to <= buf@.len(),
            out@ == buf@.subrange(from as int, i as int),
        decreases to - i,
    {
        out.push(buf[i]);
        proof {
            assert(buf@.subrange(from as int, i + 1) =~= buf@.subrange(from as int, i as int).push(
                buf@[i as int],
            ));
        }
        i = i + 1;
    }
    out
}

/// Finds the first CRLF pair at or after `start`.
fn find_crlf_from(buf: &[u8], start: usize) -> (r: Option<usize>)
    requires
        start <= buf@.len(),
    ensures
        match r {
            Some(p) => start <= p && p + 2 <= buf@.len() && find_crlf(buf@.skip(start as int))
                == Some(p - start),
            None => find_crlf(buf@.skip(start as int)) is None,
        },
{
    let n = buf.len();
    let ghost t = buf@.skip(start as int);
    let mut i: usize = start;
    while n - i > 1
        invariant
            start <= i,
            i <= n,
            n == buf@.len(),
            t =~= buf@.skip(start as int),
            forall|q: int| 0 <= q < i - start ==> !(#[trigger] t[q] == 13 && t[q + 1] == 10),
        decreases n - i,
    {
        if buf[i] == 13 && buf[i + 1] == 10 {
            proof {
                assert(t[i - start] == buf@[i as int]);
                assert(t[i - start + 1] == buf@[i + 1]);
                lemma_find_crlf_some(t, i - start);
            }
            return Some(i);
        }
        proof {
            assert(t[i - start] == buf@[i as int]);
            assert(t[i - start + 1] == buf@[i + 1]);
        }
        i = i + 1;
    }
    proof {
        assert(forall|q: int|
            0 <= q && q + 2 <= t.len() ==> !(#[trigger] t[q] == 13 && t[q + 1] == 10));
        lemma_find_crlf_none(t);
    }
    None
}

/// Decodes a simple-string or error line at `start`.
fn decode_line(buf: &[u8], start: usize) -> (r: (Option<RESPType>, usize))
    requires
        start < buf@.len(),
        buf@[start as int] == 43 || buf@[start as int] == 45,
    ensures
        decode_post(buf@, start as int, r.0, r.1 as int),
{
    let ghost t = buf@.skip(start as int);
    proof {
        assert(t[0] == buf@[start as int]);
    }
    match find_crlf_from(buf, start) {
        None => (None, 0),
        Some(p) => {
            proof {
                lemma_find_crlf_props(t);
                assert(t[(p - start) as int] == 13);
                assert(p - start >= 1);
            }
            let prel: usize = p - start;
            let payload = copy_range(buf, start + 1, p);
            proof {
                assert(payload@ =~= t.subrange(1, prel as int));
                assert(forall|q: int|
                    0 <= q && q + 2 <= payload@.len() ==> #[trigger] payload@[q] == t[q + 1]
                        && payload@[q + 1] == t[q + 2]);
                assert(forall|q: int|
                    0 <= q && q + 2 <= payload@.len() ==> !(#[trigger] payload@[q] == 13
                        && payload@[q + 1] == 10));
                lemma_find_crlf_none(payload@);
            }
            if buf[start] == 43 {
                (Some(RESPType::SimpleString(payload)), prel + 2)
            } else {
                (Some(RESPType::Error(payload)), prel + 2)
            }
        },
    }
}

/// Decodes an integer line at `start`.
fn decode_integer(buf: &[u8], start: usize) -> (r: (Option<RESPType>, usize))
    requires
        start < buf@.len(),
        buf@[start as int] == 58,
    ensures
        decode_post(buf@, start as int, r.0, r.1 as int),
{
    let n = buf.len();
    let ghost t = buf@.skip(start as int);
    proof {
        assert(t[0] == buf@[start as int]);
    }
    match find_crlf_from(buf, start) {
        None => (None, 0),
        Some(p) => {
            proof {
                lemma_find_crlf_props(t);
                assert(t[(p - start) as int] == 13);
                assert(p - start >= 1);
            }
            let prel: usize = p - start;
            let payload = copy_range(buf, start + 1, p);
            proof {
                assert(payload@ =~= t.subrange(1, prel as int));
            }
            match parse_i64(payload.as_slice()) {
                Some(v) => (Some(RESPType::Integer(v)), prel + 2),
                None => (None, 0),
            }
        },
    }
}

/// Decodes a bulk-string frame at `start`.
fn decode_bulk(buf: &[u8], start: usize) -> (r: (Option<RESPType>, usize))
    requires
        start < buf@.len(),
        buf@[start as int] == 36,
    ensures
        decode_post(buf@, start as int, r.0, r.1 as int),
{
    let ghost t = buf@.skip(start as int);
    proof {
        assert(t[0] == buf@[start as int]);
    }
    let n = buf.len();
    match find_crlf_from(buf, start) {
        None => (None, 0),
        Some(p) => {
            proof {
                lemma_find_crlf_props(t);
                assert(t[(p - start) as int] == 13);
                assert(p - start >= 1);
            }
            let prel: usize = p - start;
            let header = copy_range(buf, start + 1, p);
            proof {
                assert(header@ =~= t.subrange(1, prel as int));
            }
            match parse_i64(header.as_slice()) {
                None => {
                    proof {
                        match spec_parse_int(t.subrange(1, prel as int)) {
                            None => {},
                            Some(l) => {
                                assert(l < i64::MIN || l > i64::MAX);
                            },
                        }
                    }
                    (None, 0)
                },
                Some(l) => {
                    if l == -1 {
                        return (Some(RESPType::BulkString(None)), prel + 2);
                    }
                    if l < 0 || l > 2147483647i64 {
                        return (None, 0);
                    }
                    let lu: usize = l as usize;
                    // both CRLFs must be present before the frame is complete
                    if lu + 2 > n - (p + 2) {
                        return (None, 0);
                    }
                    let pay_start = p + 2;
                    let pay_end = pay_start + lu;
                    proof {
                        assert(t[prel + 2 + l] == buf@[pay_end as int]);
                        assert(t[prel + 2 + l + 1] == buf@[pay_end + 1]);
                    }
                    if !(buf[pay_end] == 13 && buf[pay_end + 1] == 10) {
                        return (None, 0);
                    }
                    let text = copy_range(buf, pay_start, pay_end);
                    proof {
                        assert(text@ =~= t.subrange(prel + 2, prel + 2 + l));
                    }
                    let data = BulkStringData { text, prefix_length: lu };
                    (Some(RESPType::BulkString(Some(data))), prel + 2 + lu + 2)
                },
            }
        },
    }
}

/// Decodes `c` child frames beginning at `child0`, returning them with
/// the total byte count they occupied.
#[verifier::loop_isolation(false)]
fn decode_children(buf: &[u8], child0: usize, c: usize) -> (r: Option<(Vec<RESPType>, usize)>)
    requires
        child0 <= buf@.len(),
        1 <= c,
    ensures
        match r {
            Some(pair) => {
                &&& pair.0@.len() == c
                &&& forall|j: int| 0 <= j < c ==> frame_wf(#[trigger] pair.0@[j])
                &&& 1 <= pair.1
                &&& child0 + pair.1 <= buf@.len()
                &&& spec_decode_list(buf@.skip(child0 as int), c as int) == Some(
                    (frame_models(pair.0@), pair.1 as int),
                )
            },
            None => spec_decode_list(buf@.skip(child0 as int), c as int) is None,
        },
    decreases buf@.len() - child0, 2int,
{
    let n = buf.len();
    let mut elems: Vec<RESPType> = Vec::new();
    let mut off: usize = child0;
    let mut k: usize = 0;
    proof {
        assert(frame_models(elems@) =~= Seq::<FrameModel>::empty());
        match spec_decode_list(buf@.skip(child0 as int), c as int) {
            Some(pair) => {
                assert(Seq::<FrameModel>::empty() + pair.0 =~= pair.0);
            },
            None => {},
        }
    }
    while k < c
        invariant
            0 <= k <= c,
            child0 <= off <= buf@.len(),
            k >= 1 ==> off > child0,
            elems@.len() == k,
            forall|j: int| 0 <= j < k ==> frame_wf(#[trigger] elems@[j]),
            match spec_decode_list(buf@.skip(off as int), c - k) {
                Some(pair) => spec_decode_list(buf@.skip(child0 as int), c as int) == Some(
                    (frame_models(elems@) + pair.0, off - child0 + pair.1),
                ),
                None => spec_decode_list(buf@.skip(child0 as int), c as int) is None,
            },
        decreases c - k,
    {
        let (child, used) = decode_at(buf, off);
        match child {
            None => {
                proof {
                    assert(spec_decode_list(buf@.skip(off as int), c - k) is None);
                }
                return None;
            },
            Some(cf) => {
                proof {
                    let m = frame_model(cf);
                    assert(buf@.skip(off as int).skip(used as int) =~= buf@.skip(off + used));
                    match spec_decode_list(buf@.skip(off + used), c - k - 1) {
                        None => {
                            assert(spec_decode_list(buf@.skip(off as int), c - k) is None);
                        },
                        Some(pair) => {
                            assert(spec_decode_list(buf@.skip(off as int), c - k) == Some(
                                (seq![m] + pair.0, used + pair.1),
                            ));
                            lemma_frame_models_snoc(elems@, cf);
                            assert(frame_models(elems@) + (seq![m] + pair.0) =~= frame_models(
                                elems@.push(cf),
                            ) + pair.0);
                        },
                    }
                }
                elems.push(cf);
                off = off + used;
                k = k + 1;
            },
        }
    }
    proof {
        assert(spec_decode_list(buf@.skip(off as int), 0) == Some(
            (Seq::<FrameModel>::empty(), 0int),
        ));
        assert(frame_models(elems@) + Seq::<FrameModel>::empty() =~= frame_models(elems@));
    }
    Some((elems, off - child0))
}

/// Decodes an array frame at `start`.
fn decode_array(buf: &[u8], start: usize) -> (r: (Option<RESPType>, usize))
    requires
        start < buf@.len(),
        buf@[start as int] == 42,
    ensures
        decode_post(buf@, start as int, r.0, r.1 as int),
    decreases buf@.len() - start, 0int,
{
    let n = buf.len();
    let ghost t = buf@.skip(start as int);
    proof {
        assert(t[0] == buf@[start as int]);
    }
    match find_crlf_from(buf, start) {
        None => (None, 0),
        Some(p) => {
            proof {
                lemma_find_crlf_props(t);
                assert(t[(p - start) as int] == 13);
                assert(p - start >= 1);
            }
            let prel: usize = p - start;
            let header = copy_range(buf, start + 1, p);
            proof {
                assert(header@ =~= t.subrange(1, prel as int));
            }
            match parse_i64(header.as_slice()) {
                None => {
                    proof {
                        match spec_parse_int(t.subrange(1, prel as int)) {
                            None => {},
                            Some(c) => {
                                assert(c < i64::MIN || c > i64::MAX);
                            },
                        }
                    }
                    (None, 0)
                },
                Some(c) => {
                    if c < 0 || c > 2147483647i64 {
                        return (None, 0);
                    }
                    if c == 0 {
                        let out: Vec<RESPType> = Vec::new();
                        proof {
                            assert(out@ =~= Seq::<RESPType>::empty());
                            assert(frame_models(out@) =~= Seq::<FrameModel>::empty());
                        }
                        return (Some(RESPType::Array(out)), prel + 2);
                    }
                    let cu: usize = c as usize;
                    let child0: usize = p + 2;
                    proof {
                        assert(buf@.skip(child0 as int) =~= t.skip(prel + 2));
                    }
                    match decode_children(buf, child0, cu) {
                        None => (None, 0),
                        Some(pair) => {
                            let (elems, used) = pair;
                            (Some(RESPType::Array(elems)), prel + 2 + used)
                        },
                    }
                },
            }
        },
    }
}

/// Decodes one frame from `buf[start..]`.
fn decode_at(buf: &[u8], start: usize) -> (r: (Option<RESPType>, usize))
    requires
        start <= buf@.len(),
    ensures
        decode_post(buf@, start as int, r.0, r.1 as int),
    decreases buf@.len() - start, 1int,
{
    let n = buf.len();
    if start >= n {
        return (None, 0);
    }
    let sym = buf[start];
    proof {
        assert(buf@.skip(start as int)[0] == sym);
    }
    if sym == 43 || sym == 45 {
        decode_line(buf, start)
    } else if sym == 58 {
        decode_integer(buf, start)
    } else if sym == 36 {
        decode_bulk(buf, start)
    } else if sym == 42 {
        decode_array(buf, start)
    } else {
        (None, 0)
    }
}

/// Decodes one frame from the front of the buffer.
///
/// Returns the frame and the number of bytes it occupied, or `(None, 0)`
/// when the buffer holds no complete frame yet: a strict prefix of a
/// frame, an unknown leading byte, or a malformed line. The caller drains
/// exactly the reported count and leaves any following bytes untouched.
pub fn deserialize_buffer(input_buf: &[u8]) -> (r: (Option<RESPType>, usize))
    ensures
        match r.0 {
            Some(f) => frame_wf(f) && 1 <= r.1 <= input_buf@.len() && spec_decode(input_buf@)
                == Some((frame_model(f), r.1 as int)),
            None => spec_decode(input_buf@) is None && r.1 == 0,
        },
{
    let r = decode_at(input_buf, 0);
    proof {
        assert(input_buf@.skip(0) =~= input_buf@);
    }
    r
}

/// Appending one model to a list appends its encoding to the list's
/// encoding.
proof fn lemma_encode_list_snoc(s: Seq<FrameModel>, m: FrameModel)
    ensures
        spec_encode_list(s.push(m)) == spec_encode_list(s) + spec_encode(m),
    decreases s.len(),
{
    if s.len() == 0 {
        assert(s.push(m).len() == 1);
        assert(s.push(m).first() == m);
        assert(s.push(m).drop_first() =~= Seq::<FrameModel>::empty());
        assert(spec_encode_list(Seq::<FrameModel>::empty()) == Seq::<u8>::empty());
        assert(spec_encode_list(s.push(m)) == spec_encode(m) + Seq::<u8>::empty());
        assert(spec_encode(m) + Seq::<u8>::empty() =~= spec_encode(m));
        assert(spec_encode_list(s) == Seq::<u8>::empty());
        assert(Seq::<u8>::empty() + spec_encode(m) =~= spec_encode(m));
    } else {
        assert(s.push(m).first() == s.first());
        assert(s.push(m).drop_first() =~= s.drop_first().push(m));
        lemma_encode_list_snoc(s.drop_first(), m);
        assert(spec_encode_list(s.push(m)) == spec_encode(s.first()) + (spec_encode_list(
            s.drop_first(),
        ) + spec_encode(m)));
        assert(spec_encode(s.first()) + (spec_encode_list(s.drop_first()) + spec_encode(m))
            =~= (spec_encode(s.first()) + spec_encode_list(s.drop_first())) + spec_encode(m));
    }
}

/// Appends the encoding of `f` to `out`.
#[verifier::loop_isolation(false)]
fn encode_into(f: &RESPType, out: &mut Vec<u8>)
    requires
        frame_wf(*f),
    ensures
        final(out)@ == old(out)@ + spec_encode(frame_model(*f)),
    decreases *f,
{
    match f {
        RESPType::SimpleString(s) => {
            out.push(43);
            append_bytes(out, s);
            out.push(13);
            out.push(10);
            proof {
                assert(out@ =~= old(out)@ + spec_encode(frame_model(*f)));
            }
        },
        RESPType::Error(s) => {
            out.push(45);
            append_bytes(out, s);
            out.push(13);
            out.push(10);
            proof {
                assert(out@ =~= old(out)@ + spec_encode(frame_model(*f)));
            }
        },
        RESPType::Integer(v) => {
            out.push(58);
            let digits = fmt_i64(*v);
            append_bytes(out, &digits);
            out.push(13);
            out.push(10);
            proof {
                assert(out@ =~= old(out)@ + spec_encode(frame_model(*f)));
            }
        },
        RESPType::BulkString(o) => {
            match o {
                None => {
                    out.push(36);
                    out.push(45);
                    out.push(49);
                    out.push(13);
                    out.push(10);
                    proof {
                        assert(out@ =~= old(out)@ + spec_encode(frame_model(*f)));
                    }
                },
                Some(b) => {
                    out.push(36);
                    let digits = fmt_u64(b.prefix_length as u64);
                    append_bytes(out, &digits);
                    out.push(13);
                    out.push(10);
                    append_bytes(out, &b.text);
                    out.push(13);
                    out.push(10);
                    proof {
                        assert(out@ =~= old(out)@ + spec_encode(frame_model(*f)));
                    }
                },
            }
        },
        RESPType::Array(v) => {
            out.push(42);
            let digits = fmt_u64(v.len() as u64);
            append_bytes(out, &digits);
            out.push(13);
            out.push(10);
            let ghost header_done = out@;
            proof {
                assert(header_done =~= old(out)@ + (seq![42u8] + dec_digits(v@.len() as int)
                    + seq![13u8, 10u8]));
                assert(spec_encode_list(frame_models(v@).take(0)) == Seq::<u8>::empty()) by {
                    assert(frame_models(v@).take(0) =~= Seq::<FrameModel>::empty());
                }
                assert(header_done + Seq::<u8>::empty() =~= header_done);
            }
            let n = v.len();
            let mut i: usize = 0;
            while i < n
                invariant
                    0 <= i <= n,
                    n == v@.len(),
                    forall|j: int| 0 <= j < n ==> frame_wf(#[trigger] v@[j]),
                    out@ == header_done + spec_encode_list(frame_models(v@).take(i as int)),
                decreases n - i,
            {
                proof {
                    assert(frame_wf(v@[i as int]));
                    assert(decreases_to!(v@ => v@[i as int]));
                }
                encode_into(&v[i], out);
                proof {
                    lemma_encode_list_snoc(frame_models(v@).take(i as int), frame_model(
                        v@[i as int],
                    ));
                    lemma_frame_models_index(v@);
                    assert(frame_models(v@).take(i + 1) =~= frame_models(v@).take(i as int).push(
                        frame_model(v@[i as int]),
                    ));
                    assert(out@ =~= header_done + spec_encode_list(frame_models(v@).take(i + 1)));
                }
                i = i + 1;
            }
            proof {
                lemma_frame_models_index(v@);
                assert(frame_models(v@).take(n as int) =~= frame_models(v@));
                assert(out@ =~= old(out)@ + spec_encode(frame_model(*f)));
            }
        },
    }
}

/// Takes one complete frame off the front of the read buffer, draining
/// exactly the bytes it occupied and leaving everything after it for the
/// next request. Answers nothing when the buffer holds no complete frame
/// yet, leaving the buffer untouched.
pub fn take_frame(buffer: &mut Vec<u8>) -> (r: Option<RESPType>)
    ensures
        match r {
            Some(f) => frame_wf(f) && spec_decode(old(buffer)@) == Some(
                (frame_model(f), old(buffer)@.len() - final(buffer)@.len()),
            ) && final(buffer)@ == old(buffer)@.skip(
                old(buffer)@.len() - final(buffer)@.len(),
            ),
            None => spec_decode(old(buffer)@) is None && final(buffer)@ == old(buffer)@,
        },
{
    let (frame, used) = deserialize_buffer(buffer.as_slice());
    match frame {
        None => None,
        Some(f) => {
            let rest = copy_range(buffer.as_slice(), used, buffer.len());
            proof {
                assert(rest@ =~= buffer@.skip(used as int));
            }
            *buffer = rest;
            Some(f)
        },
    }
}

/// Encodes a frame to its wire bytes.
///
/// Always succeeds for a well-formed frame; the `Option` mirrors the shape
/// callers expect from an encoder that dispatches on the frame kind.
pub fn serialize_data(input_data: &RESPType) -> (r: Option<Vec<u8>>)
    requires
        frame_wf(*input_data),
    ensures
        match r {
            Some(bytes) => bytes@ == spec_encode(frame_model(*input_data)),
            None => false,
        },
{
    let mut out: Vec<u8> = Vec::new();
    encode_into(input_data, &mut out);
    Some(out)
}

} // verus!
