use crate::buf::{bytes_of, bytes_slice, copy_bytes};
use crate::error::{Error, Result};
use bytes::Bytes;
use vstd::prelude::*;
use vstd::utf8::encode_utf8;

verus! {

/// One protocol value.
#[derive(Debug, PartialEq, Eq)]
pub enum RESP {
    Simple(String),
    Integer(i64),
    Error(String),
    Null,
    Bulk(Bytes),
    Array(Vec<RESP>),
}

/// The mathematical value of a frame.
pub enum Frame {
    Simple(Seq<char>),
    Integer(int),
    Error(Seq<char>),
    Null,
    Bulk(Seq<u8>),
    Array(Seq<Frame>),
}

/// What parsing a buffer gives: a frame and how many bytes it spans, a request
/// for more bytes, or a protocol violation.
pub enum Parsed {
    Complete(Frame, nat),
    Incomplete,
    Malformed,
}

/// What parsing a run of array elements gives.
pub enum ParsedItems {
    Done(Seq<Frame>, nat),
    Incomplete,
    Malformed,
}

pub open spec fn frame_of(r: RESP) -> Frame
    decreases r, 0int,
{
    match r {
        RESP::Simple(s) => Frame::Simple(s@),
        RESP::Integer(n) => Frame::Integer(n as int),
        RESP::Error(s) => Frame::Error(s@),
        RESP::Null => Frame::Null,
        RESP::Bulk(b) => Frame::Bulk(bytes_of(b)),
        RESP::Array(v) => Frame::Array(frames_of(v@)),
    }
}

pub open spec fn frames_of(s: Seq<RESP>) -> Seq<Frame>
    decreases s, 1int,
{
    if s.len() == 0 {
        Seq::empty()
    } else {
        seq![frame_of(s[0])] + frames_of(s.subrange(1, s.len() as int))
    }
}

impl View for RESP {
    type V = Frame;

    open spec fn view(&self) -> Frame {
        frame_of(*self)
    }
}


pub open spec fn crlf() -> Seq<u8> {
    seq![13u8, 10u8]
}

/// The decimal digits of a natural number, most significant first.
pub open spec fn digits(n: nat) -> Seq<u8>
    decreases n,
{
    if n < 10 {
        seq![(48 + n) as u8]
    } else {
        digits(n / 10).push((48 + n % 10) as u8)
    }
}

/// The decimal text of an integer, with a leading `-` when negative.
pub open spec fn decimal(n: int) -> Seq<u8> {
    if n < 0 {
        seq![45u8] + digits((-n) as nat)
    } else {
        digits(n as nat)
    }
}

pub open spec fn is_digit(b: u8) -> bool {
    48 <= b <= 57
}

pub open spec fn all_digits(s: Seq<u8>) -> bool {
    forall|i: int| 0 <= i < s.len() ==> is_digit(#[trigger] s[i])
}

/// The number written by a run of decimal digits.
pub open spec fn digits_value(s: Seq<u8>) -> nat
    decreases s.len(),
{
    if s.len() == 0 {
        0
    } else {
        digits_value(s.drop_last()) * 10 + (s.last() - 48) as nat
    }
}

/// A signed decimal: an optional sign, then at least one digit.
pub open spec fn decimal_value(s: Seq<u8>) -> Option<int> {
    if s.len() > 1 && (s[0] == 45u8 || s[0] == 43u8) && all_digits(s.drop_first()) {
        if s[0] == 45u8 {
            Some(-digits_value(s.drop_first()))
        } else {
            Some(digits_value(s.drop_first()) as int)
        }
    } else if s.len() > 0 && all_digits(s) {
        Some(digits_value(s) as int)
    } else {
        None
    }
}

pub open spec fn in_i64(n: int) -> bool {
    i64::MIN <= n <= i64::MAX
}

/// A signed decimal that fits in 64 bits.
pub open spec fn i64_value(s: Seq<u8>) -> Option<int> {
    match decimal_value(s) {
        Some(v) => if in_i64(v) {
            Some(v)
        } else {
            None
        },
        None => None,
    }
}

/// Each byte read as the character of the same code.
pub open spec fn latin1(s: Seq<u8>) -> Seq<char> {
    s.map_values(|b: u8| b as char)
}

/// A line: a tag byte, a body, then CRLF.
pub open spec fn line(tag: u8, body: Seq<u8>) -> Seq<u8> {
    seq![tag] + body + crlf()
}

/// The wire bytes of a frame.
pub open spec fn ser(f: Frame) -> Seq<u8>
    decreases f, 0int,
{
    match f {
        Frame::Simple(s) => line(43u8, encode_utf8(s)),
        Frame::Error(s) => line(45u8, encode_utf8(s)),
        Frame::Integer(n) => line(58u8, decimal(n)),
        Frame::Bulk(b) => line(36u8, decimal(b.len() as int)) + b + crlf(),
        Frame::Null => line(36u8, decimal(-1)),
        Frame::Array(fs) => line(42u8, decimal(fs.len() as int)) + ser_all(fs),
    }
}

/// The wire bytes of a run of frames, one after another.
pub open spec fn ser_all(fs: Seq<Frame>) -> Seq<u8>
    decreases fs, 1int,
{
    if fs.len() == 0 {
        Seq::empty()
    } else {
        ser(fs[0]) + ser_all(fs.subrange(1, fs.len() as int))
    }
}

/// Characters that a status line can carry and give back unchanged.
pub open spec fn line_text(s: Seq<char>) -> bool {
    forall|i: int|
        0 <= i < s.len() ==> '\0' <= #[trigger] s[i] <= '\u{7f}' && s[i] != '\r' && s[i] != '\n'
}

/// Frames that the wire format can carry: status lines of plain ASCII without
/// CR or LF, integers and lengths that fit in 64 bits.
pub open spec fn wf(f: Frame) -> bool
    decreases f, 0int,
{
    match f {
        Frame::Simple(s) => line_text(s),
        Frame::Error(s) => line_text(s),
        Frame::Integer(n) => in_i64(n),
        Frame::Bulk(b) => b.len() <= i64::MAX,
        Frame::Null => true,
        Frame::Array(fs) => fs.len() <= i64::MAX && wf_all(fs),
    }
}

pub open spec fn wf_all(fs: Seq<Frame>) -> bool
    decreases fs, 1int,
{
    if fs.len() == 0 {
        true
    } else {
        wf(fs[0]) && wf_all(fs.subrange(1, fs.len() as int))
    }
}

pub open spec fn crlf_at(s: Seq<u8>, i: int) -> bool {
    0 <= i && i + 1 < s.len() && s[i] == 13u8 && s[i + 1] == 10u8
}

/// The first position at or after `from` where CRLF starts.
pub open spec fn first_crlf(s: Seq<u8>, from: int) -> Option<int>
    decreases s.len() - from,
{
    if from < 0 || from + 1 >= s.len() {
        None
    } else if crlf_at(s, from) {
        Some(from)
    } else {
        first_crlf(s, from + 1)
    }
}

/// How a buffer parses, from its first byte.
pub open spec fn parse_spec(s: Seq<u8>) -> Parsed
    decreases s.len(), 0int,
{
    if s.len() == 0 {
        Parsed::Incomplete
    } else {
        match first_crlf(s, 1) {
            None => if s[0] == 43u8 || s[0] == 45u8 || s[0] == 58u8 || s[0] == 36u8 || s[0] == 42u8 {
                Parsed::Incomplete
            } else {
                Parsed::Malformed
            },
            Some(e) => if e < 1 || e + 2 > s.len() {
                Parsed::Malformed
            } else {
                let body = s.subrange(1, e);
                let next = e + 2;
                if s[0] == 43u8 {
                    Parsed::Complete(Frame::Simple(latin1(body)), next as nat)
                } else if s[0] == 45u8 {
                    Parsed::Complete(Frame::Error(latin1(body)), next as nat)
                } else if s[0] == 58u8 {
                    match i64_value(body) {
                        Some(n) => Parsed::Complete(Frame::Integer(n), next as nat),
                        None => Parsed::Malformed,
                    }
                } else if s[0] == 36u8 {
                    match i64_value(body) {
                        Some(n) => if n == -1 {
                            Parsed::Complete(Frame::Null, next as nat)
                        } else if n < 0 {
                            Parsed::Malformed
                        } else if s.len() < next + n + 2 {
                            Parsed::Incomplete
                        } else if crlf_at(s, next + n) {
                            Parsed::Complete(Frame::Bulk(s.subrange(next, next + n)), (next + n + 2) as nat)
                        } else {
                            Parsed::Malformed
                        },
                        None => Parsed::Malformed,
                    }
                } else if s[0] == 42u8 {
                    match i64_value(body) {
                        Some(n) => if n == -1 {
                            Parsed::Complete(Frame::Null, next as nat)
                        } else if n < 0 {
                            Parsed::Malformed
                        } else {
                            match parse_items(s.subrange(next, s.len() as int), n as nat) {
                                ParsedItems::Done(fs, m) => Parsed::Complete(Frame::Array(fs), (next + m) as nat),
                                ParsedItems::Incomplete => Parsed::Incomplete,
                                ParsedItems::Malformed => Parsed::Malformed,
                            }
                        },
                        None => Parsed::Malformed,
                    }
                } else {
                    Parsed::Malformed
                }
            },
        }
    }
}

/// How `count` frames in a row parse, from the first byte of `s`.
pub open spec fn parse_items(s: Seq<u8>, count: nat) -> ParsedItems
    decreases s.len(), 1int, count,
{
    if count == 0 {
        ParsedItems::Done(Seq::empty(), 0)
    } else {
        match parse_spec(s) {
            Parsed::Complete(f, n) => if 0 < n <= s.len() {
                match parse_items(s.subrange(n as int, s.len() as int), (count - 1) as nat) {
                    ParsedItems::Done(fs, m) => ParsedItems::Done(seq![f] + fs, n + m),
                    other => other,
                }
            } else {
                ParsedItems::Malformed
            },
            Parsed::Incomplete => ParsedItems::Incomplete,
            Parsed::Malformed => ParsedItems::Malformed,
        }
    }
}


/// Relies on String::push: the character is appended at the end.
#[verifier::external_body]
fn push_char(s: &mut String, c: char)
    ensures
        final(s)@ == old(s)@.push(c),
{
    s.push(c)
}

/// The bytes read one character per byte.
pub(crate) fn text_of(bytes: &[u8]) -> (r: String)
    ensures
        r@ == latin1(bytes@),
{
    let mut r = String::new();
    let mut i: usize = 0;
    while i < bytes.len()
        invariant
            i <= bytes@.len(),
            r@ == latin1(bytes@.subrange(0, i as int)),
        decreases bytes@.len() - i,
    {
        push_char(&mut r, bytes[i] as char);
        assert(bytes@.subrange(0, i + 1) =~= bytes@.subrange(0, i as int).push(bytes@[i as int]));
        i = i + 1;
    }
    assert(bytes@.subrange(0, i as int) =~= bytes@);
    r
}

/// The first CRLF at or after `from`.
fn find_crlf(src: &[u8], from: usize) -> (r: Option<usize>)
    ensures
        match r {
            Some(i) => first_crlf(src@, from as int) == Some(i as int),
            None => first_crlf(src@, from as int) is None,
        },
{
    let mut i = from;
    while i < src.len() && i + 1 < src.len()
        invariant
            from <= i,
            first_crlf(src@, from as int) == first_crlf(src@, i as int),
        decreases src@.len() - i,
    {
        if src[i] == 13u8 && src[i + 1] == 10u8 {
            return Some(i);
        }
        i = i + 1;
    }
    None
}

proof fn lemma_digits_value_step(s: Seq<u8>, lo: int, hi: int)
    requires
        0 <= lo <= hi < s.len(),
    ensures
        digits_value(s.subrange(lo, hi + 1)) == digits_value(s.subrange(lo, hi)) * 10 + (s[hi] - 48) as nat,
{
    assert(s.subrange(lo, hi + 1).drop_last() =~= s.subrange(lo, hi));
}

/// A run of digits is worth at least any of its prefixes.
proof fn lemma_digits_value_prefix(s: Seq<u8>, k: int)
    requires
        0 <= k <= s.len(),
        all_digits(s),
    ensures
        digits_value(s) >= digits_value(s.subrange(0, k)),
    decreases s.len(),
{
    if k == s.len() {
        assert(s.subrange(0, k) =~= s);
    } else {
        let t = s.drop_last();
        assert(all_digits(t)) by {
            assert forall|i: int| 0 <= i < t.len() implies is_digit(#[trigger] t[i]) by {
                assert(t[i] == s[i]);
            }
        }
        lemma_digits_value_prefix(t, k);
        assert(t.subrange(0, k) =~= s.subrange(0, k));
    }
}

/// Reads a nonempty run of decimal digits whose value fits in 64 bits.
fn parse_digits(s: &[u8]) -> (r: Option<u64>)
    ensures
        match r {
            Some(v) => s@.len() > 0 && all_digits(s@) && digits_value(s@) == v,
            None => s@.len() == 0 || !all_digits(s@) || digits_value(s@) > u64::MAX,
        },
{
    let n = s.len();
    if n == 0 {
        return None;
    }
    let mut acc: u64 = 0;
    let mut i: usize = 0;
    while i < n
        invariant
            n == s@.len(),
            i <= n,
            acc as int == digits_value(s@.subrange(0, i as int)),
            all_digits(s@.subrange(0, i as int)),
        decreases n - i,
    {
        let b = s[i];
        if b < 48u8 || b > 57u8 {
            assert(!is_digit(s@[i as int]));
            return None;
        }
        proof {
            lemma_digits_value_step(s@, 0, i as int);
        }
        if acc > 1844674407370955161u64 || (acc == 1844674407370955161u64 && b > 53u8) {
            proof {
                if all_digits(s@) {
                    lemma_digits_value_prefix(s@, i + 1);
                }
            }
            return None;
        }
        acc = acc * 10 + (b - 48u8) as u64;
        proof {
            assert forall|j: int| 0 <= j < i + 1 implies is_digit(
                #[trigger] s@.subrange(0, i + 1)[j],
            ) by {
                if j < i {
                    assert(s@.subrange(0, i + 1)[j] == s@.subrange(0, i as int)[j]);
                }
            }
        }
        i = i + 1;
    }
    assert(s@.subrange(0, n as int) =~= s@);
    Some(acc)
}

/// Reads a signed 64-bit decimal.
fn parse_i64(s: &[u8]) -> (r: Option<i64>)
    ensures
        match r {
            Some(v) => i64_value(s@) == Some(v as int),
            None => i64_value(s@) is None,
        },
{
    let n = s.len();
    if n == 0 {
        return None;
    }
    let negative = s[0] == 45u8;
    let start: usize = if s[0] == 45u8 || s[0] == 43u8 { 1 } else { 0 };
    let magnitude = match parse_digits(&s[start..n]) {
        Some(m) => m,
        None => {
            proof {
                if start == 1 {
                    assert(s@.subrange(1, n as int) =~= s@.drop_first());
                    assert(!is_digit(s@[0]));
                } else {
                    assert(s@.subrange(0, n as int) =~= s@);
                }
            }
            return None;
        },
    };
    proof {
        if start == 1 {
            assert(s@.subrange(1, n as int) =~= s@.drop_first());
        } else {
            assert(s@.subrange(0, n as int) =~= s@);
        }
    }
    if negative {
        if magnitude > 9223372036854775808u64 {
            None
        } else if magnitude == 9223372036854775808u64 {
            Some(i64::MIN)
        } else {
            Some(-(magnitude as i64))
        }
    } else if magnitude > 9223372036854775807u64 {
        None
    } else {
        Some(magnitude as i64)
    }
}

/// An unsigned decimal, with an optional `+`, that fits in 64 bits.
pub open spec fn u64_value(s: Seq<u8>) -> Option<int> {
    match decimal_value(s) {
        Some(v) => if s[0] != 45u8 && v <= u64::MAX {
            Some(v)
        } else {
            None
        },
        None => None,
    }
}

/// Reads an unsigned 64-bit decimal.
pub(crate) fn parse_u64(s: &[u8]) -> (r: Option<u64>)
    ensures
        match r {
            Some(v) => u64_value(s@) == Some(v as int),
            None => u64_value(s@) is None,
        },
{
    let n = s.len();
    if n == 0 || s[0] == 45u8 {
        return None;
    }
    let start: usize = if s[0] == 43u8 { 1 } else { 0 };
    let r = parse_digits(&s[start..n]);
    proof {
        if start == 1 {
            assert(s@.subrange(1, n as int) =~= s@.drop_first());
            assert(!is_digit(s@[0]));
        } else {
            assert(s@.subrange(0, n as int) =~= s@);
        }
    }
    r
}

/// The frames of `fs` placed before whatever `r` parsed, `a` bytes earlier.
pub open spec fn after(fs: Seq<Frame>, a: nat, r: ParsedItems) -> ParsedItems {
    match r {
        ParsedItems::Done(gs, m) => ParsedItems::Done(fs + gs, a + m),
        other => other,
    }
}

/// What `RESP::parse` returns, for what the buffer parses as.
pub open spec fn parse_result(r: Result<(RESP, usize)>, p: Parsed) -> bool {
    match r {
        Ok((f, n)) => p == Parsed::Complete(f@, n as nat),
        Err(Error::IncompleteRequestData) => p is Incomplete,
        Err(Error::InvalidRequestData) => p is Malformed,
        Err(_) => false,
    }
}

proof fn lemma_first_crlf_bounds(s: Seq<u8>, from: int)
    ensures
        first_crlf(s, from) matches Some(e) ==> from <= e && crlf_at(s, e),
    decreases s.len() - from,
{
    if 0 <= from && from + 1 < s.len() && !crlf_at(s, from) {
        lemma_first_crlf_bounds(s, from + 1);
    }
}

/// A parsed frame spans at least one byte and no more than the buffer.
pub(crate) proof fn lemma_span(s: Seq<u8>)
    ensures
        parse_spec(s) matches Parsed::Complete(_, n) ==> 0 < n <= s.len(),
    decreases s.len(), 0int,
{
    if s.len() > 0 {
        lemma_first_crlf_bounds(s, 1);
        if let Some(e) = first_crlf(s, 1) {
            if e >= 1 && e + 2 <= s.len() {
                lemma_items_span(s.subrange(e + 2, s.len() as int), 0);
                if let Some(n) = i64_value(s.subrange(1, e)) {
                    if n >= 0 {
                        lemma_items_span(s.subrange(e + 2, s.len() as int), n as nat);
                    }
                }
            }
        }
    }
}

proof fn lemma_items_span(s: Seq<u8>, count: nat)
    ensures
        parse_items(s, count) matches ParsedItems::Done(_, m) ==> m <= s.len(),
    decreases s.len(), 1int, count,
{
    if count > 0 {
        lemma_span(s);
        if let Parsed::Complete(f, n) = parse_spec(s) {
            if 0 < n <= s.len() {
                lemma_items_span(s.subrange(n as int, s.len() as int), (count - 1) as nat);
            }
        }
    }
}

proof fn lemma_frames_of_push(s: Seq<RESP>, x: RESP)
    ensures
        frames_of(s.push(x)) == frames_of(s).push(frame_of(x)),
    decreases s.len(),
{
    if s.len() == 0 {
        assert(s.push(x).subrange(1, 1) =~= Seq::<RESP>::empty());
        assert(frames_of(s.push(x).subrange(1, 1)) =~= Seq::<Frame>::empty());
        assert(frames_of(s.push(x)) =~= frames_of(s).push(frame_of(x)));
    } else {
        let t = s.subrange(1, s.len() as int);
        lemma_frames_of_push(t, x);
        assert(s.push(x).subrange(1, s.len() + 1int) =~= t.push(x));
        assert(frames_of(s.push(x)) =~= frames_of(s).push(frame_of(x)));
    }
}

impl RESP {
    /// Parses one frame from the front of `src`, giving the frame and the
    /// number of bytes it spans.
    pub fn parse(src: &[u8]) -> (r: Result<(RESP, usize)>)
        ensures
            parse_result(r, parse_spec(src@)),
        decreases src@.len(),
    {
        if src.len() == 0 {
            return Err(Error::IncompleteRequestData);
        }
        let tag = src[0];
        let known = tag == 43u8 || tag == 45u8 || tag == 58u8 || tag == 36u8 || tag == 42u8;
        if !known {
            return Err(Error::InvalidRequestData);
        }
        let e = match find_crlf(src, 1) {
            Some(e) => e,
            None => {
                return Err(Error::IncompleteRequestData);
            },
        };
        proof {
            lemma_first_crlf_bounds(src@, 1);
        }
        let body = &src[1..e];
        let next = e + 2;
        if tag == 43u8 {
            Ok((RESP::Simple(text_of(body)), next))
        } else if tag == 45u8 {
            Ok((RESP::Error(text_of(body)), next))
        } else if tag == 58u8 {
            match parse_i64(body) {
                Some(n) => Ok((RESP::Integer(n), next)),
                None => Err(Error::InvalidRequestData),
            }
        } else if tag == 36u8 {
            let n = match parse_i64(body) {
                Some(n) => n,
                None => {
                    return Err(Error::InvalidRequestData);
                },
            };
            if n == -1 {
                return Ok((RESP::Null, next));
            }
            if n < 0 {
                return Err(Error::InvalidRequestData);
            }
            if ((src.len() - next) as u64) < (n as u64) + 2 {
                return Err(Error::IncompleteRequestData);
            }
            let end = next + n as usize;
            if src[end] != 13u8 || src[end + 1] != 10u8 {
                return Err(Error::InvalidRequestData);
            }
            Ok((RESP::Bulk(copy_bytes(&src[next..end])), end + 2))
        } else {
            let n = match parse_i64(body) {
                Some(n) => n,
                None => {
                    return Err(Error::InvalidRequestData);
                },
            };
            if n == -1 {
                return Ok((RESP::Null, next));
            }
            if n < 0 {
                return Err(Error::InvalidRequestData);
            }
            let ghost items = src@.subrange(next as int, src@.len() as int);
            let mut elements: Vec<RESP> = Vec::new();
            let mut cursor = next;
            let mut k: i64 = 0;
            proof {
                assert(frames_of(elements@) =~= Seq::<Frame>::empty());
                assert(src@.subrange(cursor as int, src@.len() as int) == items);
                let r = parse_items(items, n as nat);
                if let ParsedItems::Done(gs, m) = r {
                    assert(Seq::<Frame>::empty() + gs =~= gs);
                }
            }
            while k < n
                invariant
                    0 <= k <= n,
                    3 <= next <= cursor <= src@.len(),
                    src@.len() > 0 && src@[0] == 42u8,
                    next == e + 2,
                    first_crlf(src@, 1) == Some(e as int),
                    i64_value(src@.subrange(1, e as int)) == Some(n as int),
                    items == src@.subrange(next as int, src@.len() as int),
                    parse_items(items, n as nat) == after(
                        frames_of(elements@),
                        (cursor - next) as nat,
                        parse_items(src@.subrange(cursor as int, src@.len() as int), (n - k) as nat),
                    ),
                decreases n - k,
            {
                let rest = &src[cursor..src.len()];
                let (element, offset) = match RESP::parse(rest) {
                    Ok(p) => p,
                    Err(err) => {
                        proof {
                            assert(rest@ == src@.subrange(cursor as int, src@.len() as int));
                            let c = (n - k) as nat;
                            if err is IncompleteRequestData {
                                assert(parse_items(rest@, c) == ParsedItems::Incomplete);
                                assert(parse_items(items, n as nat) == ParsedItems::Incomplete);
                            } else {
                                assert(parse_items(rest@, c) == ParsedItems::Malformed);
                                assert(parse_items(items, n as nat) == ParsedItems::Malformed);
                            }
                        }
                        return Err(err);
                    },
                };
                proof {
                    lemma_span(rest@);
                    lemma_frames_of_push(elements@, element);
                    let c = (n - k) as nat;
                    assert(rest@.subrange(offset as int, rest@.len() as int) =~= src@.subrange(
                        cursor + offset,
                        src@.len() as int,
                    ));
                    let tail = parse_items(src@.subrange(cursor + offset, src@.len() as int), (c - 1) as nat);
                    if let ParsedItems::Done(gs, m) = tail {
                        assert(frames_of(elements@) + (seq![element@] + gs) =~= frames_of(elements@).push(element@) + gs);
                    }
                }
                elements.push(element);
                cursor = cursor + offset;
                k = k + 1;
            }
            proof {
                assert(frames_of(elements@) + Seq::<Frame>::empty() =~= frames_of(elements@));
            }
            Ok((RESP::Array(elements), cursor))
        }
    }
}


pub(crate) proof fn lemma_frames_of_index(s: Seq<RESP>)
    ensures
        frames_of(s).len() == s.len(),
        forall|i: int| 0 <= i < s.len() ==> #[trigger] frames_of(s)[i] == frame_of(s[i]),
    decreases s.len(),
{
    if s.len() > 0 {
        let t = s.subrange(1, s.len() as int);
        lemma_frames_of_index(t);
        assert forall|i: int| 0 <= i < s.len() implies #[trigger] frames_of(s)[i] == frame_of(s[i]) by {
            if i > 0 {
                assert(frames_of(s)[i] == frames_of(t)[i - 1]);
            }
        }
    }
}

proof fn lemma_ser_all_push(fs: Seq<Frame>, x: Frame)
    ensures
        ser_all(fs.push(x)) == ser_all(fs) + ser(x),
    decreases fs.len(),
{
    if fs.len() == 0 {
        assert(fs.push(x).subrange(1, 1) =~= Seq::<Frame>::empty());
        assert(ser_all(fs.push(x).subrange(1, 1)) =~= Seq::<u8>::empty());
        assert(ser_all(fs.push(x)) =~= ser_all(fs) + ser(x));
    } else {
        let t = fs.subrange(1, fs.len() as int);
        lemma_ser_all_push(t, x);
        assert(fs.push(x).subrange(1, fs.len() + 1int) =~= t.push(x));
        assert(ser_all(fs.push(x)) =~= ser_all(fs) + ser(x));
    }
}

fn push_bytes(out: &mut Vec<u8>, bytes: &[u8])
    ensures
        final(out)@ == old(out)@ + bytes@,
{
    let mut i: usize = 0;
    while i < bytes.len()
        invariant
            i <= bytes@.len(),
            out@ == old(out)@ + bytes@.subrange(0, i as int),
        decreases bytes@.len() - i,
    {
        out.push(bytes[i]);
        assert(old(out)@ + bytes@.subrange(0, i + 1) =~= old(out)@ + bytes@.subrange(0, i as int) + seq![bytes@[i as int]]);
        i = i + 1;
    }
    assert(bytes@.subrange(0, i as int) =~= bytes@);
}

fn push_crlf(out: &mut Vec<u8>)
    ensures
        final(out)@ == old(out)@ + crlf(),
{
    out.push(13u8);
    out.push(10u8);
    assert(out@ =~= old(out)@ + crlf());
}

/// Appends the decimal digits of `n`.
fn push_digits(out: &mut Vec<u8>, n: u64)
    ensures
        final(out)@ == old(out)@ + digits(n as nat),
    decreases n,
{
    if n >= 10 {
        push_digits(out, n / 10);
    }
    out.push(48u8 + (n % 10) as u8);
    assert(out@ =~= old(out)@ + digits(n as nat));
}

/// Appends the decimal text of `n`.
fn push_decimal(out: &mut Vec<u8>, n: i64)
    ensures
        final(out)@ == old(out)@ + decimal(n as int),
{
    if n < 0 {
        out.push(45u8);
        let magnitude: u64 = if n == i64::MIN {
            9223372036854775808u64
        } else {
            (-n) as u64
        };
        push_digits(out, magnitude);
        assert(out@ =~= old(out)@ + decimal(n as int));
    } else {
        push_digits(out, n as u64);
    }
}

proof fn lemma_line(out: Seq<u8>, tag: u8, body: Seq<u8>)
    ensures
        out.push(tag) + body + crlf() == out + line(tag, body),
{
    assert(out.push(tag) + body + crlf() =~= out + line(tag, body));
}

impl RESP {
    /// Whether the frame is string-like: a simple or a bulk string.
    pub fn is_string(&self) -> (r: bool)
        ensures
            r == (self@ is Simple || self@ is Bulk),
    {
        match self {
            RESP::Simple(_) | RESP::Bulk(_) => true,
            _ => false,
        }
    }

    /// Appends the wire bytes of this frame to `out`.
    pub fn write_to(&self, out: &mut Vec<u8>)
        ensures
            final(out)@ == old(out)@ + ser(self@),
        decreases self,
    {
        let ghost start = out@;
        match self {
            RESP::Simple(body) => {
                out.push(43u8);
                push_bytes(out, body.as_str().as_bytes());
                push_crlf(out);
                proof { lemma_line(start, 43u8, encode_utf8(body@)); }
            },
            RESP::Error(body) => {
                out.push(45u8);
                push_bytes(out, body.as_str().as_bytes());
                push_crlf(out);
                proof { lemma_line(start, 45u8, encode_utf8(body@)); }
            },
            RESP::Integer(n) => {
                out.push(58u8);
                push_decimal(out, *n);
                push_crlf(out);
                proof { lemma_line(start, 58u8, decimal(*n as int)); }
            },
            RESP::Bulk(body) => {
                let data = bytes_slice(body);
                out.push(36u8);
                push_digits(out, data.len() as u64);
                push_crlf(out);
                push_bytes(out, data);
                push_crlf(out);
                proof {
                    lemma_line(start, 36u8, decimal(data@.len() as int));
                    assert(out@ =~= start + ser(self@));
                }
            },
            RESP::Null => {
                out.push(36u8);
                push_decimal(out, -1);
                push_crlf(out);
                proof { lemma_line(start, 36u8, decimal(-1)); }
            },
            RESP::Array(elements) => {
                out.push(42u8);
                push_digits(out, elements.len() as u64);
                push_crlf(out);
                proof {
                    lemma_line(start, 42u8, decimal(elements@.len() as int));
                    lemma_frames_of_index(elements@);
                    assert(frames_of(elements@).subrange(0, 0) =~= Seq::<Frame>::empty());
                    assert(out@ =~= start + line(42u8, decimal(elements@.len() as int)) + ser_all(frames_of(elements@).subrange(0, 0)));
                }
                let ghost head = out@;
                let mut i: usize = 0;
                while i < elements.len()
                    invariant
                        i <= elements@.len(),
                        *self == RESP::Array(*elements),
                        frames_of(elements@).len() == elements@.len(),
                        forall|j: int| 0 <= j < elements@.len() ==> #[trigger] frames_of(elements@)[j] == frame_of(elements@[j]),
                        head == start + line(42u8, decimal(elements@.len() as int)),
                        out@ == head + ser_all(frames_of(elements@).subrange(0, i as int)),
                    decreases elements@.len() - i,
                {
                    proof {
                        assert(decreases_to!(*self => (*self)->Array_0));
                        assert((*self)->Array_0 == *elements);
                        assert(decreases_to!(*elements => elements@[i as int]));
                    }
                    elements[i].write_to(out);
                    proof {
                        let fs = frames_of(elements@);
                        assert(fs.subrange(0, i + 1) =~= fs.subrange(0, i as int).push(fs[i as int]));
                        lemma_ser_all_push(fs.subrange(0, i as int), fs[i as int]);
                    }
                    i = i + 1;
                }
                proof {
                    assert(frames_of(elements@).subrange(0, i as int) =~= frames_of(elements@));
                }
            },
        }
    }

    /// The wire bytes of this frame.
    pub fn serialize(&self) -> (out: Vec<u8>)
        ensures
            out@ == ser(self@),
    {
        let mut out: Vec<u8> = Vec::new();
        self.write_to(&mut out);
        assert(out@ =~= ser(self@));
        out
    }
}

} // verus!
