//! Laws of the frame codec: serializing then parsing gives the frame back,
//! and no proper prefix of a frame's bytes parses as anything but a request
//! for more bytes.

use crate::resp::{
    all_digits, crlf_at, decimal, digits, digits_value, first_crlf, i64_value, in_i64, is_digit, latin1,
    line_text, parse_items, parse_spec, ser, ser_all, wf, wf_all, Frame, Parsed, ParsedItems,
};
use vstd::prelude::*;
use vstd::utf8::{encode_utf8, is_ascii_chars, is_ascii_chars_encode_utf8};

verus! {

pub open spec fn no_cr(b: Seq<u8>) -> bool {
    forall|i: int| 0 <= i < b.len() ==> #[trigger] b[i] != 13u8
}

proof fn lemma_skip_to(s: Seq<u8>, from: int, e: int)
    requires
        1 <= from <= e,
        forall|i: int| from <= i < e ==> !crlf_at(s, i),
    ensures
        first_crlf(s, from) == first_crlf(s, e),
    decreases e - from,
{
    if from < e {
        lemma_skip_to(s, from + 1, e);
    }
}

/// Where the first CRLF of a buffer that starts with a tag byte and `body`
/// lies, whether or not the line is complete.
proof fn lemma_line_crlf(s: Seq<u8>, body: Seq<u8>)
    requires
        s.len() >= 1,
        no_cr(body),
        forall|i: int| 1 <= i <= body.len() && i < s.len() ==> s[i] == body[i - 1],
    ensures
        s.len() <= body.len() + 2int ==> first_crlf(s, 1) is None,
        s.len() >= body.len() + 3int && s[body.len() + 1int] == 13u8 && s[body.len() + 2int] == 10u8
            ==> first_crlf(s, 1) == Some(body.len() + 1int),
{
    assert forall|i: int| 1 <= i < body.len() + 1int implies !crlf_at(s, i) by {
        if i < s.len() {
            assert(s[i] == body[i - 1]);
        }
    }
    lemma_skip_to(s, 1, body.len() + 1int);
}

proof fn lemma_digits(n: nat)
    ensures
        digits(n).len() >= 1,
        all_digits(digits(n)),
        digits_value(digits(n)) == n,
    decreases n,
{
    if n >= 10 {
        lemma_digits(n / 10);
        let d = digits(n);
        assert(d.drop_last() =~= digits(n / 10));
        assert(d.last() == (48 + n % 10) as u8);
        assert((n / 10) * 10 + n % 10 == n);
        assert forall|i: int| 0 <= i < d.len() implies is_digit(#[trigger] d[i]) by {
            if i < d.len() - 1 {
                assert(d[i] == digits(n / 10)[i]);
            }
        }
    } else {
        assert(digits(n).drop_last() =~= Seq::<u8>::empty());
        assert(digits_value(Seq::<u8>::empty()) == 0);
    }
}

proof fn lemma_decimal(n: int)
    ensures
        no_cr(decimal(n)),
        in_i64(n) ==> i64_value(decimal(n)) == Some(n),
        decimal(n).len() >= 1,
{
    if n < 0 {
        let m = (-n) as nat;
        lemma_digits(m);
        let s = decimal(n);
        assert(s.drop_first() =~= digits(m));
        assert forall|i: int| 0 <= i < s.len() implies #[trigger] s[i] != 13u8 by {
            if i > 0 {
                assert(s[i] == digits(m)[i - 1]);
                assert(is_digit(digits(m)[i - 1]));
            }
        }
    } else {
        lemma_digits(n as nat);
        let s = decimal(n);
        assert(is_digit(s[0]));
        assert forall|i: int| 0 <= i < s.len() implies #[trigger] s[i] != 13u8 by {
            assert(is_digit(s[i]));
        }
    }
}

proof fn lemma_text(s: Seq<char>)
    requires
        line_text(s),
    ensures
        no_cr(encode_utf8(s)),
        latin1(encode_utf8(s)) == s,
{
    assert(is_ascii_chars(s));
    is_ascii_chars_encode_utf8(s);
    let b = encode_utf8(s);
    assert forall|i: int| 0 <= i < b.len() implies #[trigger] b[i] != 13u8 by {
        assert(s[i] as u8 == b[i]);
    }
    assert forall|i: int| 0 <= i < s.len() implies #[trigger] latin1(b)[i] == s[i] by {
        assert(s[i] as u8 == b[i]);
    }
    assert(latin1(b) =~= s);
}

proof fn lemma_ser_nonempty(f: Frame)
    ensures
        ser(f).len() >= 1,
        ser(f)[0] == 43u8 || ser(f)[0] == 45u8 || ser(f)[0] == 58u8 || ser(f)[0] == 36u8
            || ser(f)[0] == 42u8,
{
}

/// A wire-safe frame parses back from its bytes, whatever follows them.
proof fn lemma_parse_ser(f: Frame, rest: Seq<u8>)
    requires
        wf(f),
    ensures
        parse_spec(ser(f) + rest) == Parsed::Complete(f, ser(f).len()),
    decreases f, 0int,
{
    let s = ser(f) + rest;
    match f {
        Frame::Simple(t) => {
            lemma_text(t);
            let b = encode_utf8(t);
            lemma_line_crlf(s, b);
            assert(s.subrange(1, b.len() + 1int) =~= b);
        },
        Frame::Error(t) => {
            lemma_text(t);
            let b = encode_utf8(t);
            lemma_line_crlf(s, b);
            assert(s.subrange(1, b.len() + 1int) =~= b);
        },
        Frame::Integer(n) => {
            lemma_decimal(n);
            let b = decimal(n);
            lemma_line_crlf(s, b);
            assert(s.subrange(1, b.len() + 1int) =~= b);
        },
        Frame::Null => {
            lemma_decimal(-1);
            let b = decimal(-1);
            lemma_line_crlf(s, b);
            assert(s.subrange(1, b.len() + 1int) =~= b);
        },
        Frame::Bulk(data) => {
            let n = data.len() as int;
            lemma_decimal(n);
            let b = decimal(n);
            lemma_line_crlf(s, b);
            assert(s.subrange(1, b.len() + 1int) =~= b);
            let next = b.len() + 3int;
            assert(s.subrange(next, next + n) =~= data);
            assert(s[next + n] == 13u8 && s[next + n + 1] == 10u8);
        },
        Frame::Array(fs) => {
            let n = fs.len() as int;
            lemma_decimal(n);
            let b = decimal(n);
            lemma_line_crlf(s, b);
            assert(s.subrange(1, b.len() + 1int) =~= b);
            let next = b.len() + 3int;
            assert(s.subrange(next, s.len() as int) =~= ser_all(fs) + rest);
            lemma_parse_ser_all(fs, rest);
        },
    }
}

proof fn lemma_parse_ser_all(fs: Seq<Frame>, rest: Seq<u8>)
    requires
        wf_all(fs),
    ensures
        parse_items(ser_all(fs) + rest, fs.len()) == ParsedItems::Done(fs, ser_all(fs).len()),
    decreases fs, 1int,
{
    if fs.len() == 0 {
        assert(fs =~= Seq::<Frame>::empty());
    } else {
        let tail = fs.subrange(1, fs.len() as int);
        let s = ser_all(fs) + rest;
        lemma_ser_nonempty(fs[0]);
        assert(s =~= ser(fs[0]) + (ser_all(tail) + rest));
        lemma_parse_ser(fs[0], ser_all(tail) + rest);
        let a = ser(fs[0]).len();
        assert(s.subrange(a as int, s.len() as int) =~= ser_all(tail) + rest);
        lemma_parse_ser_all(tail, rest);
        assert(seq![fs[0]] + tail =~= fs);
    }
}

/// No proper prefix of a wire-safe frame's bytes parses as more than a
/// request for more bytes.
proof fn lemma_prefix(f: Frame, k: int)
    requires
        wf(f),
        0 <= k < ser(f).len(),
    ensures
        parse_spec(ser(f).subrange(0, k)) == Parsed::Incomplete,
    decreases f, 0int,
{
    let p = ser(f).subrange(0, k);
    if k > 0 {
        lemma_ser_nonempty(f);
        match f {
            Frame::Simple(t) => {
                lemma_text(t);
                lemma_line_crlf(p, encode_utf8(t));
            },
            Frame::Error(t) => {
                lemma_text(t);
                lemma_line_crlf(p, encode_utf8(t));
            },
            Frame::Integer(n) => {
                lemma_decimal(n);
                lemma_line_crlf(p, decimal(n));
            },
            Frame::Null => {
                lemma_decimal(-1);
                lemma_line_crlf(p, decimal(-1));
            },
            Frame::Bulk(data) => {
                let n = data.len() as int;
                lemma_decimal(n);
                let b = decimal(n);
                lemma_line_crlf(p, b);
                if k >= b.len() + 3int {
                    assert(p.subrange(1, b.len() + 1int) =~= b);
                }
            },
            Frame::Array(fs) => {
                let n = fs.len() as int;
                lemma_decimal(n);
                let b = decimal(n);
                lemma_line_crlf(p, b);
                if k >= b.len() + 3int {
                    assert(p.subrange(1, b.len() + 1int) =~= b);
                    let next = b.len() + 3int;
                    assert(p.subrange(next, k) =~= ser_all(fs).subrange(0, k - next));
                    lemma_prefix_all(fs, k - next);
                }
            },
        }
    }
}

proof fn lemma_prefix_all(fs: Seq<Frame>, k: int)
    requires
        wf_all(fs),
        0 <= k < ser_all(fs).len(),
    ensures
        parse_items(ser_all(fs).subrange(0, k), fs.len()) == ParsedItems::Incomplete,
    decreases fs, 1int,
{
    let tail = fs.subrange(1, fs.len() as int);
    let a = ser(fs[0]).len() as int;
    let p = ser_all(fs).subrange(0, k);
    if k < a {
        assert(p =~= ser(fs[0]).subrange(0, k));
        lemma_prefix(fs[0], k);
    } else {
        let q = ser_all(tail).subrange(0, k - a);
        assert(p =~= ser(fs[0]) + q);
        lemma_parse_ser(fs[0], q);
        lemma_ser_nonempty(fs[0]);
        assert(p.subrange(a, p.len() as int) =~= q);
        lemma_prefix_all(tail, k - a);
    }
}

/// Serializing a wire-safe frame and parsing the bytes gives the frame back,
/// and the parse spans every byte.
pub proof fn law_round_trip(f: Frame)
    requires
        wf(f),
    ensures
        parse_spec(ser(f)) == Parsed::Complete(f, ser(f).len()),
{
    lemma_parse_ser(f, Seq::empty());
    assert(ser(f) + Seq::<u8>::empty() =~= ser(f));
}

/// Fed the bytes of a wire-safe frame one at a time, the parser asks for more
/// until the last byte is in, and then gives the frame.
pub proof fn law_incremental(f: Frame, k: int)
    requires
        wf(f),
        0 <= k <= ser(f).len(),
    ensures
        k < ser(f).len() ==> parse_spec(ser(f).subrange(0, k)) == Parsed::Incomplete,
        k == ser(f).len() ==> parse_spec(ser(f).subrange(0, k)) == Parsed::Complete(f, ser(f).len()),
{
    if k < ser(f).len() {
        lemma_prefix(f, k);
    } else {
        law_round_trip(f);
        assert(ser(f).subrange(0, k) =~= ser(f));
    }
}

} // verus!
