//! Framing of the daemon's replies: lines of `<code><sigil><payload>CRLF`,
//! where `-` continues, `+` opens a body ended by a lone `.` line, and a
//! space ends the reply.
use vstd::prelude::*;

use crate::error::{Error, ProtocolError};
use crate::text::{
    copy_range, crlf, first_occ, find_from, is_digit, lemma_first_occ_is, lemma_first_occ_prefix,
    lemma_first_occ_none, lemma_first_occ_range, occurs_at, push_bytes,
};

verus! {

/// One reply: its status code and its payload, each line followed by CRLF.
#[derive(Debug, Clone, PartialEq, Eq)]
pub struct Response {
    pub code: u16,
    pub data: Vec<u8>,
}

pub struct ResponseView {
    pub code: u16,
    pub data: Seq<u8>,
}

impl View for Response {
    type V = ResponseView;

    open spec fn view(&self) -> ResponseView {
        ResponseView { code: self.code, data: self.data@ }
    }
}

/// What the front of a buffer holds.
pub enum Frame {
    /// A whole reply, `len` bytes long.
    Complete { code: u16, data: Seq<u8>, len: int },
    /// The start of a reply; more bytes are needed.
    Incomplete,
    /// Bytes that are no reply.
    Malformed,
    /// Lines of one reply with different codes.
    Mismatch { first: u16, other: u16 },
}

/// The end of a `+` body: CRLF, a lone dot, CRLF.
pub open spec fn dot_end() -> Seq<u8> {
    seq![13u8, 10u8, 46u8, 13u8, 10u8]
}

/// The status code written at `pos`: three digits, from 100 to 699.
pub open spec fn code_at(buf: Seq<u8>, pos: int) -> Option<u16> {
    if 0 <= pos && pos + 3 <= buf.len() && 49 <= buf[pos] <= 54 && is_digit(buf[pos + 1]) && is_digit(
        buf[pos + 2],
    ) {
        Some(((buf[pos] - 48) * 100 + (buf[pos + 1] - 48) * 10 + (buf[pos + 2] - 48)) as u16)
    } else {
        None
    }
}

/// Reads reply lines from `pos` on. `code` is the code of the lines read so
/// far (none before the first), `acc` their payloads.
pub open spec fn frame_from(buf: Seq<u8>, pos: int, code: Option<u16>, acc: Seq<u8>) -> Frame
    decreases buf.len() - pos,
{
    if pos < 0 || pos + 4 > buf.len() {
        Frame::Incomplete
    } else {
        match code_at(buf, pos) {
            None => Frame::Malformed,
            Some(c) => if code is Some && code->0 != c {
                Frame::Mismatch { first: code->0, other: c }
            } else {
                let s = buf[pos + 3];
                if s == 45u8 || s == 32u8 {
                    let e = first_occ(buf, crlf(), pos + 4);
                    if e + 2 > buf.len() || e < pos + 4 {
                        Frame::Incomplete
                    } else {
                        let acc2 = acc + buf.subrange(pos + 4, e) + crlf();
                        if s == 32u8 {
                            Frame::Complete { code: c, data: acc2, len: e + 2 }
                        } else {
                            frame_from(buf, e + 2, Some(c), acc2)
                        }
                    }
                } else if s == 43u8 {
                    let e = first_occ(buf, dot_end(), pos + 4);
                    if e + 5 > buf.len() || e < pos + 4 {
                        Frame::Incomplete
                    } else {
                        frame_from(buf, e + 5, Some(c), acc + buf.subrange(pos + 4, e) + crlf())
                    }
                } else {
                    Frame::Malformed
                }
            },
        }
    }
}

/// The first reply in `buf`.
pub open spec fn frame(buf: Seq<u8>) -> Frame {
    frame_from(buf, 0, None, Seq::empty())
}

fn code_at_exec(buf: &[u8], pos: usize) -> (r: Option<u16>)
    ensures
        r == code_at(buf@, pos as int),
{
    if pos > buf.len() || buf.len() - pos < 3 {
        return None;
    }
    let a = buf[pos];
    let b = buf[pos + 1];
    let c = buf[pos + 2];
    if 49 <= a && a <= 54 && 48 <= b && b <= 57 && 48 <= c && c <= 57 {
        Some(((a - 48) as u16) * 100 + ((b - 48) as u16) * 10 + ((c - 48) as u16))
    } else {
        None
    }
}

fn bytes_of_slice(s: &[u8]) -> (r: Vec<u8>)
    ensures
        r@ == s@,
{
    let r = copy_range(s, 0, s.len());
    assert(s@.subrange(0, s@.len() as int) =~= s@);
    r
}

/// The first reply in `buf` and its length in bytes; `None` while `buf`
/// holds only the start of one.
pub fn read_response(buf: &[u8]) -> (r: Result<Option<(Response, usize)>, Error>)
    ensures
        match r {
            Ok(Some((resp, n))) => frame(buf@) == Frame::Complete {
                code: resp.code,
                data: resp.data@,
                len: n as int,
            },
            Ok(None) => frame(buf@) == Frame::Incomplete,
            Err(Error::Protocol(ProtocolError::CodeMismatch { first, other })) => frame(buf@)
                == Frame::Mismatch { first, other },
            Err(Error::Parsing(d)) => frame(buf@) == Frame::Malformed && d@ == buf@,
            Err(_) => false,
        },
{
    let sep = crate::text::crlf_bytes();
    let mut dot: Vec<u8> = Vec::new();
    dot.push(13);
    dot.push(10);
    dot.push(46);
    dot.push(13);
    dot.push(10);
    assert(dot@ =~= dot_end());
    let mut pos: usize = 0;
    let mut code: Option<u16> = None;
    let mut acc: Vec<u8> = Vec::new();
    assert(acc@ =~= Seq::<u8>::empty());
    loop
        invariant
            pos <= buf@.len(),
            sep@ == crlf(),
            dot@ == dot_end(),
            frame(buf@) == frame_from(buf@, pos as int, code, acc@),
        decreases buf@.len() - pos,
    {
        if buf.len() - pos < 4 {
            return Ok(None);
        }
        let c = match code_at_exec(buf, pos) {
            Some(c) => c,
            None => {
                return Err(Error::Parsing(bytes_of_slice(buf)));
            },
        };
        match code {
            Some(first) => {
                if first != c {
                    return Err(Error::Protocol(ProtocolError::CodeMismatch { first, other: c }));
                }
            },
            None => {},
        }
        let s = buf[pos + 3];
        if s == 45 || s == 32 {
            let e = find_from(buf, sep.as_slice(), pos + 4);
            proof {
                lemma_first_occ_range(buf@, sep@, pos + 4);
            }
            if e >= buf.len() {
                return Ok(None);
            }
            let payload = copy_range(buf, pos + 4, e);
            push_bytes(&mut acc, payload.as_slice());
            push_bytes(&mut acc, sep.as_slice());
            if s == 32 {
                return Ok(Some((Response { code: c, data: acc }, e + 2)));
            }
            code = Some(c);
            pos = e + 2;
        } else if s == 43 {
            let e = find_from(buf, dot.as_slice(), pos + 4);
            proof {
                lemma_first_occ_range(buf@, dot@, pos + 4);
            }
            if e >= buf.len() {
                return Ok(None);
            }
            let payload = copy_range(buf, pos + 4, e);
            push_bytes(&mut acc, payload.as_slice());
            push_bytes(&mut acc, sep.as_slice());
            code = Some(c);
            pos = e + 5;
        } else {
            return Err(Error::Parsing(bytes_of_slice(buf)));
        }
    }
}


/// The three digits of a status code.
pub open spec fn code_text(c: u16) -> Seq<u8> {
    seq![(48 + c / 100) as u8, (48 + (c / 10) % 10) as u8, (48 + c % 10) as u8]
}

/// A reply of code `c` whose lines carry `ps`: `-` on every line but the
/// last, a space on the last.
pub open spec fn reply_text(c: u16, ps: Seq<Seq<u8>>) -> Seq<u8>
    decreases ps.len(),
{
    if ps.len() == 0 {
        Seq::empty()
    } else if ps.len() == 1 {
        code_text(c) + seq![32u8] + ps[0] + crlf()
    } else {
        code_text(c) + seq![45u8] + ps[0] + crlf() + reply_text(c, ps.drop_first())
    }
}

/// The payload of such a reply: each line's text followed by CRLF.
pub open spec fn joined_lines(ps: Seq<Seq<u8>>) -> Seq<u8>
    decreases ps.len(),
{
    if ps.len() == 0 {
        Seq::empty()
    } else {
        ps[0] + crlf() + joined_lines(ps.drop_first())
    }
}

pub open spec fn no_lf(p: Seq<u8>) -> bool {
    forall|i: int| 0 <= i < p.len() ==> p[i] != 10u8
}

proof fn lemma_code_text(c: u16)
    requires
        100 <= c <= 699,
    ensures
        49 <= code_text(c)[0] <= 54,
        is_digit(code_text(c)[1]),
        is_digit(code_text(c)[2]),
        ((code_text(c)[0] - 48) * 100 + (code_text(c)[1] - 48) * 10 + (code_text(c)[2] - 48)) as u16 == c,
{
    let a = c / 100;
    let b = (c / 10) % 10;
    let d = c % 10;
    assert(a * 100 + b * 10 + d == c) by (nonlinear_arith)
        requires
            a == c / 100,
            b == (c / 10) % 10,
            d == c % 10,
    ;
}

proof fn lemma_frame_at(
    buf: Seq<u8>,
    pos: int,
    prev: Option<u16>,
    acc: Seq<u8>,
    c: u16,
    ps: Seq<Seq<u8>>,
)
    requires
        100 <= c <= 699,
        ps.len() >= 1,
        forall|i: int| 0 <= i < ps.len() ==> no_lf(#[trigger] ps[i]),
        prev is None || prev == Some(c),
        0 <= pos,
        pos + reply_text(c, ps).len() <= buf.len(),
        buf.subrange(pos, pos + reply_text(c, ps).len()) == reply_text(c, ps),
    ensures
        frame_from(buf, pos, prev, acc) == (Frame::Complete {
            code: c,
            data: acc + joined_lines(ps),
            len: pos + reply_text(c, ps).len(),
        }),
    decreases ps.len(),
{
    let t = reply_text(c, ps);
    let p = ps[0];
    let sig: u8 = if ps.len() == 1 {
        32u8
    } else {
        45u8
    };
    let head = code_text(c) + seq![sig] + p + crlf();
    let tail = if ps.len() == 1 {
        Seq::<u8>::empty()
    } else {
        reply_text(c, ps.drop_first())
    };
    assert(t =~= head + tail);
    lemma_code_text(c);
    assert(buf[pos] == t[0] && buf[pos + 1] == t[1] && buf[pos + 2] == t[2] && buf[pos + 3] == t[3]) by {
        assert(buf.subrange(pos, pos + t.len())[0] == buf[pos]);
        assert(buf.subrange(pos, pos + t.len())[1] == buf[pos + 1]);
        assert(buf.subrange(pos, pos + t.len())[2] == buf[pos + 2]);
        assert(buf.subrange(pos, pos + t.len())[3] == buf[pos + 3]);
    }
    assert(code_at(buf, pos) == Some(c));
    let e = pos + 4 + p.len();
    assert forall|k: int| 0 <= k < head.len() implies buf[pos + k] == #[trigger] head[k] by {
        assert(buf.subrange(pos, pos + t.len())[k] == buf[pos + k]);
    }
    assert(buf.subrange(pos + 4, e) =~= p) by {
        assert forall|k: int| 0 <= k < p.len() implies buf.subrange(pos + 4, e)[k] == p[k] by {
            assert(head[4 + k] == p[k]);
        }
    }
    assert(buf[e] == 13u8 && buf[e + 1] == 10u8) by {
        assert(head[4 + p.len() as int] == 13u8);
        assert(head[5 + p.len() as int] == 10u8);
    }
    assert(buf.subrange(e, e + 2) =~= crlf());
    assert forall|j: int| pos + 4 <= j < e implies !occurs_at(buf, crlf(), j) by {
        if j + 1 < e {
            assert(buf[j + 1] == p[j + 1 - pos - 4]);
            assert(buf.subrange(j, j + 2)[1] == buf[j + 1]);
        } else {
            assert(buf.subrange(j, j + 2)[1] == buf[e]);
        }
    }
    lemma_first_occ_is(buf, crlf(), pos + 4, e);
    if ps.len() > 1 {
        let rest = ps.drop_first();
        let tt = reply_text(c, rest);
        assert(buf.subrange(e + 2, e + 2 + tt.len()) =~= tt) by {
            assert forall|k: int| 0 <= k < tt.len() implies buf.subrange(e + 2, e + 2 + tt.len())[k]
                == tt[k] by {
                assert(buf.subrange(pos, pos + t.len())[head.len() + k] == buf[pos + head.len() + k]);
                assert(t[head.len() + k] == tt[k]);
            }
        }
        assert forall|i: int| 0 <= i < rest.len() implies no_lf(#[trigger] rest[i]) by {
            assert(rest[i] == ps[i + 1]);
        }
        lemma_frame_at(buf, e + 2, Some(c), acc + p + crlf(), c, rest);
        assert(acc + p + crlf() + joined_lines(rest) =~= acc + joined_lines(ps));
    } else {
        assert(joined_lines(ps.drop_first()) =~= Seq::<u8>::empty());
        assert(acc + p + crlf() =~= acc + joined_lines(ps));
    }
}

/// A reply of code 100 to 699 whose lines hold no line feed frames to
/// exactly that code and the lines' text, and takes exactly its own bytes,
/// whatever follows it.
pub proof fn lemma_reply_round_trip(c: u16, ps: Seq<Seq<u8>>, rest: Seq<u8>)
    requires
        100 <= c <= 699,
        ps.len() >= 1,
        forall|i: int| 0 <= i < ps.len() ==> no_lf(#[trigger] ps[i]),
    ensures
        frame(reply_text(c, ps) + rest) == (Frame::Complete {
            code: c,
            data: joined_lines(ps),
            len: reply_text(c, ps).len() as int,
        }),
{
    let buf = reply_text(c, ps) + rest;
    assert(buf.subrange(0, reply_text(c, ps).len() as int) =~= reply_text(c, ps));
    lemma_frame_at(buf, 0, None, Seq::empty(), c, ps);
    assert(Seq::<u8>::empty() + joined_lines(ps) =~= joined_lines(ps));
}

proof fn lemma_frame_from_prefix(a: Seq<u8>, b: Seq<u8>, pos: int, code: Option<u16>, acc: Seq<u8>)
    requires
        frame_from(a, pos, code, acc) is Complete,
    ensures
        frame_from(a + b, pos, code, acc) == frame_from(a, pos, code, acc),
    decreases a.len() - pos,
{
    let ab = a + b;
    assert(pos >= 0 && pos + 4 <= a.len());
    assert(ab.subrange(pos, pos + 4) =~= a.subrange(pos, pos + 4));
    assert(ab[pos] == a[pos] && ab[pos + 1] == a[pos + 1] && ab[pos + 2] == a[pos + 2] && ab[pos + 3]
        == a[pos + 3]);
    assert(code_at(ab, pos) == code_at(a, pos));
    let s = a[pos + 3];
    if s == 45u8 || s == 32u8 {
        let e = first_occ(a, crlf(), pos + 4);
        lemma_first_occ_prefix(a, b, crlf(), pos + 4);
        assert(ab.subrange(pos + 4, e) =~= a.subrange(pos + 4, e));
        if s == 45u8 {
            lemma_frame_from_prefix(a, b, e + 2, Some(code_at(a, pos)->0), acc + a.subrange(pos + 4, e) + crlf());
        }
    } else {
        let e = first_occ(a, dot_end(), pos + 4);
        lemma_first_occ_prefix(a, b, dot_end(), pos + 4);
        assert(ab.subrange(pos + 4, e) =~= a.subrange(pos + 4, e));
        lemma_frame_from_prefix(a, b, e + 5, Some(code_at(a, pos)->0), acc + a.subrange(pos + 4, e) + crlf());
    }
}

/// Once the bytes received hold a whole reply, more bytes change neither
/// that reply nor its length: how the stream is cut into reads does not
/// change what is framed.
pub proof fn lemma_frame_stable(a: Seq<u8>, b: Seq<u8>)
    requires
        frame(a) is Complete,
    ensures
        frame(a + b) == frame(a),
{
    lemma_frame_from_prefix(a, b, 0, None, Seq::empty());
}


/// Where `sep` first occurs in `a + b` within `a`, it first occurs there in
/// `a`; where it first occurs past the end of `a`, it does not occur in `a`.
proof fn lemma_first_occ_cut(a: Seq<u8>, b: Seq<u8>, sep: Seq<u8>, p: int)
    requires
        0 <= p,
        sep.len() > 0,
        first_occ(a + b, sep, p) + sep.len() <= (a + b).len(),
    ensures
        first_occ(a + b, sep, p) + sep.len() <= a.len() ==> first_occ(a, sep, p) == first_occ(a + b, sep, p),
        first_occ(a + b, sep, p) + sep.len() > a.len() ==> first_occ(a, sep, p) == a.len(),
{
    let ab = a + b;
    let e = first_occ(ab, sep, p);
    lemma_first_occ_range(ab, sep, p);
    if e + sep.len() <= a.len() {
        assert(a.subrange(e, e + sep.len()) =~= ab.subrange(e, e + sep.len()));
        assert forall|j: int| p <= j < e implies !occurs_at(a, sep, j) by {
            assert(!occurs_at(ab, sep, j));
            assert(a.subrange(j, j + sep.len()) =~= ab.subrange(j, j + sep.len()));
        }
        lemma_first_occ_is(a, sep, p, e);
    } else {
        assert forall|j: int| p <= j < a.len() implies !occurs_at(a, sep, j) by {
            if occurs_at(a, sep, j) {
                assert(a.subrange(j, j + sep.len()) =~= ab.subrange(j, j + sep.len()));
                assert(occurs_at(ab, sep, j));
                assert(j < e);
            }
        }
        lemma_first_occ_none(a, sep, p);
    }
}

proof fn lemma_frame_from_cut(a: Seq<u8>, b: Seq<u8>, pos: int, code: Option<u16>, acc: Seq<u8>)
    requires
        frame_from(a + b, pos, code, acc) is Complete,
        frame_from(a + b, pos, code, acc)->len > a.len(),
    ensures
        frame_from(a, pos, code, acc) == Frame::Incomplete,
    decreases (a + b).len() - pos,
{
    let ab = a + b;
    if pos + 4 <= a.len() {
        assert(ab[pos] == a[pos] && ab[pos + 1] == a[pos + 1] && ab[pos + 2] == a[pos + 2] && ab[pos + 3]
            == a[pos + 3]);
        assert(code_at(ab, pos) == code_at(a, pos));
        let s = a[pos + 3];
        if s == 45u8 || s == 32u8 {
            let e = first_occ(ab, crlf(), pos + 4);
            lemma_first_occ_cut(a, b, crlf(), pos + 4);
            if e + 2 <= a.len() {
                assert(ab.subrange(pos + 4, e) =~= a.subrange(pos + 4, e));
                lemma_frame_from_cut(a, b, e + 2, Some(code_at(a, pos)->0), acc + a.subrange(pos + 4, e) + crlf());
            }
        } else {
            let e = first_occ(ab, dot_end(), pos + 4);
            lemma_first_occ_cut(a, b, dot_end(), pos + 4);
            if e + 5 <= a.len() {
                assert(ab.subrange(pos + 4, e) =~= a.subrange(pos + 4, e));
                lemma_frame_from_cut(a, b, e + 5, Some(code_at(a, pos)->0), acc + a.subrange(pos + 4, e) + crlf());
            }
        }
    }
}

/// However a stream that starts with a whole reply is cut into reads, the
/// bytes received so far frame either to "incomplete" (while the cut lies
/// inside that reply) or to that same reply: never to an error or to another
/// reply.
pub proof fn lemma_frame_chunking(s: Seq<u8>, n: int)
    requires
        frame(s) is Complete,
        0 <= n <= s.len(),
    ensures
        n < frame(s)->len ==> frame(s.subrange(0, n)) == Frame::Incomplete,
        n >= frame(s)->len ==> frame(s.subrange(0, n)) == frame(s),
{
    let a = s.subrange(0, n);
    let b = s.subrange(n, s.len() as int);
    assert(a + b =~= s);
    if n < frame(s)->len {
        lemma_frame_from_cut(a, b, 0, None, Seq::empty());
    } else {
        lemma_frame_complete_prefix(s, n);
    }
}

/// A reply that lies wholly within the first `n` bytes frames the same from
/// those bytes alone.
proof fn lemma_frame_complete_prefix(s: Seq<u8>, n: int)
    requires
        frame(s) is Complete,
        0 <= n,
        frame(s)->len <= n <= s.len(),
    ensures
        frame(s.subrange(0, n)) == frame(s),
{
    let a = s.subrange(0, n);
    let b = s.subrange(n, s.len() as int);
    assert(a + b =~= s);
    if !(frame(a) is Complete) {
        // A cut reading as anything but a whole reply would have to lie inside it.
        lemma_frame_from_not_complete(a, b, 0, None, Seq::empty());
    } else {
        lemma_frame_stable(a, b);
    }
}

/// A whole reply framed from `pos` ends after its first line and within
/// the buffer.
proof fn lemma_frame_len(buf: Seq<u8>, pos: int, code: Option<u16>, acc: Seq<u8>)
    requires
        frame_from(buf, pos, code, acc) is Complete,
    ensures
        pos + 6 <= frame_from(buf, pos, code, acc)->len <= buf.len(),
    decreases buf.len() - pos,
{
    let s = buf[pos + 3];
    if s == 45u8 {
        let e = first_occ(buf, crlf(), pos + 4);
        lemma_frame_len(buf, e + 2, Some(code_at(buf, pos)->0), acc + buf.subrange(pos + 4, e) + crlf());
    } else if s == 43u8 {
        let e = first_occ(buf, dot_end(), pos + 4);
        lemma_frame_len(buf, e + 5, Some(code_at(buf, pos)->0), acc + buf.subrange(pos + 4, e) + crlf());
    }
}

proof fn lemma_frame_from_not_complete(a: Seq<u8>, b: Seq<u8>, pos: int, code: Option<u16>, acc: Seq<u8>)
    requires
        frame_from(a + b, pos, code, acc) is Complete,
        frame_from(a + b, pos, code, acc)->len <= a.len(),
    ensures
        frame_from(a, pos, code, acc) is Complete,
    decreases (a + b).len() - pos,
{
    let ab = a + b;
    lemma_frame_len(ab, pos, code, acc);
    assert(ab[pos] == a[pos] && ab[pos + 1] == a[pos + 1] && ab[pos + 2] == a[pos + 2] && ab[pos + 3]
        == a[pos + 3]);
    assert(code_at(ab, pos) == code_at(a, pos));
    let s = a[pos + 3];
    if s == 45u8 || s == 32u8 {
        lemma_first_occ_cut(a, b, crlf(), pos + 4);
        let e = first_occ(ab, crlf(), pos + 4);
        let acc2 = acc + ab.subrange(pos + 4, e) + crlf();
        if s == 45u8 {
            lemma_frame_len(ab, e + 2, Some(code_at(ab, pos)->0), acc2);
        }
        assert(ab.subrange(pos + 4, e) =~= a.subrange(pos + 4, e));
        if s == 45u8 {
            lemma_frame_from_not_complete(a, b, e + 2, Some(code_at(a, pos)->0), acc2);
        }
    } else {
        lemma_first_occ_cut(a, b, dot_end(), pos + 4);
        let e = first_occ(ab, dot_end(), pos + 4);
        let acc2 = acc + ab.subrange(pos + 4, e) + crlf();
        lemma_frame_len(ab, e + 5, Some(code_at(ab, pos)->0), acc2);
        assert(ab.subrange(pos + 4, e) =~= a.subrange(pos + 4, e));
        lemma_frame_from_not_complete(a, b, e + 5, Some(code_at(a, pos)->0), acc2);
    }
}

} // verus!
