//! Parsing wire bytes back into frames.
use vstd::prelude::*;
use vstd::utf8::{decode_utf8, encode_scalar, encode_utf8, valid_utf8};

use crate::bytes::{bytes_equal, crlf, push_crlf, push_range, zeros, CR, LF};
use crate::decimal::{
    canonical_digits, decimal, decimal_at, digit_run, digits_value, is_digit,
    lemma_decimal_canonical, lemma_decimal_nonempty, lemma_digits_value_concat,
    lemma_digits_value_zeros, parse_decimal, plain_decimal, pow10, run_value, scan_digits, MINUS,
    PLUS,
};
use crate::double::{
    above_1e8, double_text, lemma_normal_unique, DoubleModel, RespDouble, DOT, EXP_MARK,
};
use crate::frame::{
    lemma_models_of, models_of, BulkString, RespFrame, RespMap, RespNullBulkString, RespSet,
    SimpleError, SimpleString,
};
use crate::wire::{
    text_line, wire, wire_all, wire_entries, FrameModel, COLON, COMMA, DOLLAR, FALSE_MARK, HASH,
    ONE, PERCENT, STAR, TILDE, TRUE_MARK,
};

verus! {

/// Why bytes could not be parsed as a frame.
#[derive(Debug, Clone, Copy, PartialEq, Eq, Structural)]
pub enum DecodeError {
    /// A frame starts with a byte that names no variant with a wire form, or
    /// a map key is not a simple string.
    InvalidSigil,
    /// A length or count is not a canonical decimal number, or does not fit.
    MalformedLength,
    /// An integer, boolean or double payload is not in its canonical form.
    MalformedValue,
    /// The bytes end before the frame does, or a line lacks its terminator.
    Truncated,
    /// Text is not valid UTF-8.
    InvalidText,
    /// A set holds two equal members, or a map the same key twice.
    Duplicate,
    /// Bytes follow the frame.
    TrailingBytes,
}

/// Text that can stand on one line: no CR and no LF.
pub open spec fn line_safe(s: Seq<char>) -> bool {
    forall|i: int| 0 <= i < s.len() ==> (#[trigger] s[i]) as u32 != 13 && s[i] as u32 != 10
}

/// `bytes` stands at `pos` in `data`.
pub open spec fn bytes_at(data: Seq<u8>, pos: int, bytes: Seq<u8>) -> bool {
    &&& 0 <= pos
    &&& pos + bytes.len() <= data.len()
    &&& data.subrange(pos, pos + bytes.len()) == bytes
}

/// Relies on `String::from_utf8`: it accepts exactly the valid UTF-8 byte
/// sequences, and the string holds the characters that they encode.
#[verifier::external_body]
fn string_from_utf8(bytes: Vec<u8>) -> (r: Option<String>)
    ensures
        r is Some <==> valid_utf8(bytes@),
        r matches Some(s) ==> s@ == decode_utf8(bytes@),
{
    String::from_utf8(bytes).ok()
}

proof fn lemma_scalar_lacks(c: char, b: u8)
    requires
        b < 0x80,
        c as u32 != b as u32,
    ensures
        forall|i: int|
            0 <= i < encode_scalar(c as u32).len() ==> #[trigger] encode_scalar(c as u32)[i] != b,
{
    let v = c as u32;
    vstd::utf8::char_is_scalar(c);
    assert(forall|x: u8| #[trigger] (0x80u8 | x) >= 0x80u8) by (bit_vector);
    assert(forall|x: u8| #[trigger] (0xC0u8 | x) >= 0x80u8) by (bit_vector);
    assert(forall|x: u8| #[trigger] (0xE0u8 | x) >= 0x80u8) by (bit_vector);
    assert(forall|x: u8| #[trigger] (0xF0u8 | x) >= 0x80u8) by (bit_vector);
    if v <= 0x7F {
        assert((v & 0x7F) == v) by (bit_vector)
            requires
                v <= 0x7F,
        ;
    }
}

/// Text without the ASCII character `b` has no byte `b` in its UTF-8 form.
proof fn lemma_utf8_lacks(s: Seq<char>, b: u8)
    requires
        b < 0x80,
        forall|i: int| 0 <= i < s.len() ==> (#[trigger] s[i]) as u32 != b as u32,
    ensures
        forall|i: int| 0 <= i < encode_utf8(s).len() ==> #[trigger] encode_utf8(s)[i] != b,
    decreases s.len(),
{
    if s.len() > 0 {
        let rest = s.drop_first();
        assert forall|i: int| 0 <= i < rest.len() implies (#[trigger] rest[i]) as u32 != b as u32 by {
            assert(rest[i] == s[i + 1]);
        }
        lemma_utf8_lacks(rest, b);
        lemma_scalar_lacks(s[0], b);
        let head = encode_scalar(s[0] as u32);
        assert forall|i: int| 0 <= i < encode_utf8(s).len() implies #[trigger] encode_utf8(s)[i]
            != b by {
            if i >= head.len() {
                assert(encode_utf8(s)[i] == encode_utf8(rest)[i - head.len()]);
            }
        }
    }
}

/// Text with the ASCII character `b` has a byte `b` in its UTF-8 form.
proof fn lemma_utf8_holds(s: Seq<char>, k: int, b: u8)
    requires
        b < 0x80,
        0 <= k < s.len(),
        s[k] as u32 == b as u32,
    ensures
        exists|i: int| 0 <= i < encode_utf8(s).len() && #[trigger] encode_utf8(s)[i] == b,
    decreases k,
{
    let head = encode_scalar(s[0] as u32);
    let rest = s.drop_first();
    if k == 0 {
        let v = s[0] as u32;
        assert((v & 0x7F) == v) by (bit_vector)
            requires
                v <= 0x7F,
        ;
        assert(encode_utf8(s)[0] == head[0]);
    } else {
        assert(rest[k - 1] == s[k]);
        lemma_utf8_holds(rest, k - 1, b);
        let i = choose|i: int| 0 <= i < encode_utf8(rest).len() && #[trigger] encode_utf8(rest)[i] == b;
        assert(encode_utf8(s)[i + head.len()] == encode_utf8(rest)[i]);
    }
}

/// Whether `s` holds neither CR nor LF.
pub fn text_is_line_safe(s: &String) -> (r: bool)
    ensures
        r == line_safe(s@),
{
    let bytes = s.as_str().as_bytes();
    let mut i: usize = 0;
    while i < bytes.len()
        invariant
            bytes@ == encode_utf8(s@),
            i <= bytes@.len(),
            forall|j: int| 0 <= j < i ==> #[trigger] bytes@[j] != CR && bytes@[j] != LF,
        decreases bytes@.len() - i,
    {
        if bytes[i] == CR || bytes[i] == LF {
            proof {
                if line_safe(s@) {
                    lemma_utf8_lacks(s@, CR);
                    lemma_utf8_lacks(s@, LF);
                    assert(bytes@[i as int] != CR);
                }
            }
            return false;
        }
        i = i + 1;
    }
    proof {
        assert forall|k: int| 0 <= k < s@.len() implies (#[trigger] s@[k]) as u32 != 13 && s@[k] as u32
            != 10 by {
            if s@[k] as u32 == 13 {
                lemma_utf8_holds(s@, k, CR);
            }
            if s@[k] as u32 == 10 {
                lemma_utf8_holds(s@, k, LF);
            }
        }
    }
    true
}

/// The first byte of some variant's wire form.
pub open spec fn is_sigil(b: u8) -> bool {
    b == PLUS || b == MINUS || b == COLON || b == DOLLAR || b == STAR || b == TILDE || b
        == PERCENT || b == HASH || b == COMMA
}

/// From `start`, bytes without CR and then CR LF, where those bytes are not
/// valid UTF-8.
pub open spec fn invalid_text_line(data: Seq<u8>, start: int) -> bool {
    exists|i: int|
        #![trigger data[i]]
        start <= i && i + 1 < data.len() && data[i] == CR && data[i + 1] == LF && (forall|j: int|
            start <= j < i ==> #[trigger] data[j] != CR) && !valid_utf8(data.subrange(start, i))
}

/// Reads text up to the first CR at or after `pos`, which must be followed
/// by LF: the text and the position after the LF.
fn parse_text_line(data: &[u8], pos: usize) -> (r: Result<(String, usize), DecodeError>)
    requires
        pos <= data@.len(),
    ensures
        r matches Ok((s, end)) ==> {
            &&& pos <= end <= data@.len()
            &&& data@.subrange(pos as int, end as int) == encode_utf8(s@) + crlf()
        },
        forall|t: Seq<char>|
            line_safe(t) && #[trigger] bytes_at(data@, pos as int, encode_utf8(t) + crlf())
                ==> (r matches Ok((s, end)) && s@ == t && end == pos + encode_utf8(t).len() + 2),
        invalid_text_line(data@, pos as int) ==> r == Err::<(String, usize), DecodeError>(
            DecodeError::InvalidText,
        ),
{
    let mut i: usize = pos;
    while i < data.len() && data[i] != CR
        invariant
            pos <= i <= data@.len(),
            forall|j: int| pos <= j < i ==> data@[j] != CR,
        decreases data@.len() - i,
    {
        i = i + 1;
    }
    proof {
        assert forall|t: Seq<char>|
            line_safe(t) && #[trigger] bytes_at(data@, pos as int, encode_utf8(t) + crlf())
            implies i == pos + encode_utf8(t).len() by {
            let e = encode_utf8(t);
            lemma_utf8_lacks(t, CR);
            let w = e + crlf();
            assert(data@[pos + e.len()] == w[e.len() as int]);
            if i < pos + e.len() {
                assert(data@[i as int] == w[i - pos]);
            }
        }
        if invalid_text_line(data@, pos as int) {
            let w = choose|w: int|
                #![trigger data@[w]]
                pos <= w && w + 1 < data@.len() && data@[w] == CR && data@[w + 1] == LF && (forall|
                    j: int,
                | pos <= j < w ==> #[trigger] data@[j] != CR) && !valid_utf8(
                    data@.subrange(pos as int, w),
                );
            if i > w {
                assert(data@[w] != CR);
            }
            assert(i == w);
        }
    }
    if i >= data.len() || i + 1 >= data.len() || data[i + 1] != LF {
        proof {
            assert forall|t: Seq<char>|
                line_safe(t) && #[trigger] bytes_at(data@, pos as int, encode_utf8(t) + crlf())
                implies false by {
                let w = encode_utf8(t) + crlf();
                assert(data@[i + 1] == w[i + 1 - pos]);
            }
        }
        return Err(DecodeError::Truncated);
    }
    let mut bytes: Vec<u8> = Vec::new();
    push_range(&mut bytes, data, pos, i);
    assert(bytes@ =~= data@.subrange(pos as int, i as int));
    let ghost text_bytes = bytes@;
    match string_from_utf8(bytes) {
        Some(s) => {
            proof {
                vstd::utf8::decode_utf8_encode_utf8(text_bytes);
                assert(data@.subrange(pos as int, i + 2) =~= text_bytes + crlf());
                assert forall|t: Seq<char>|
                    line_safe(t) && #[trigger] bytes_at(data@, pos as int, encode_utf8(t) + crlf())
                    implies s@ == t by {
                    let e = encode_utf8(t);
                    assert(text_bytes =~= data@.subrange(pos as int, pos + e.len()));
                    assert(data@.subrange(pos as int, pos + e.len()) =~= (e + crlf()).subrange(
                        0,
                        e.len() as int,
                    ));
                    assert(text_bytes =~= e);
                    vstd::utf8::encode_utf8_decode_utf8(t);
                }
            }
            Ok((s, i + 2))
        },
        None => {
            proof {
                assert forall|t: Seq<char>|
                    line_safe(t) && #[trigger] bytes_at(data@, pos as int, encode_utf8(t) + crlf())
                    implies false by {
                    let e = encode_utf8(t);
                    assert(data@.subrange(pos as int, pos + e.len()) =~= (e + crlf()).subrange(
                        0,
                        e.len() as int,
                    ));
                    assert(text_bytes =~= e);
                    vstd::utf8::encode_utf8_valid_utf8(t);
                }
            }
            Err(DecodeError::InvalidText)
        },
    }
}

/// The first byte of a frame's wire form.
pub open spec fn sigil_of(f: FrameModel) -> u8 {
    match f {
        FrameModel::SimpleString(_) => PLUS,
        FrameModel::Error(_) => MINUS,
        FrameModel::Integer(_) => COLON,
        FrameModel::BulkString(_) => DOLLAR,
        FrameModel::NullBulkString => DOLLAR,
        FrameModel::Array(_) => STAR,
        FrameModel::Null => 0,
        FrameModel::NullArray => 0,
        FrameModel::Boolean(_) => HASH,
        FrameModel::Double(_) => COMMA,
        FrameModel::RespMap(_) => PERCENT,
        FrameModel::RespSet(_) => TILDE,
    }
}

/// No two members of `items` are equal.
pub open spec fn distinct(items: Seq<FrameModel>) -> bool {
    forall|i: int, j: int| 0 <= i < j < items.len() ==> #[trigger] items[i] != #[trigger] items[j]
}

/// The frames that parsing gives back from their wire form: text on one
/// line, integers within `i64`, doubles in normal form, sets without two
/// equal members and maps without a key twice, at every depth.
pub open spec fn decodable(f: FrameModel) -> bool
    decreases f,
{
    match f {
        FrameModel::SimpleString(s) => line_safe(s),
        FrameModel::Error(s) => line_safe(s),
        FrameModel::Integer(i) => i64::MIN <= i <= i64::MAX,
        FrameModel::BulkString(_) => true,
        FrameModel::NullBulkString => true,
        FrameModel::Boolean(_) => true,
        FrameModel::Double(d) => double_decodable(d),
        FrameModel::Array(items) => forall|i: int|
            0 <= i < items.len() ==> decodable(#[trigger] items[i]),
        FrameModel::RespSet(items) => distinct(items) && forall|i: int|
            0 <= i < items.len() ==> decodable(#[trigger] items[i]),
        FrameModel::RespMap(entries) => {
            &&& forall|i: int, j: int|
                0 <= i < j < entries.len() ==> #[trigger] entries[i].0 != #[trigger] entries[j].0
            &&& forall|i: int|
                0 <= i < entries.len() ==> line_safe(#[trigger] entries[i].0) && decodable(
                    entries[i].1,
                )
        },
        _ => false,
    }
}

proof fn lemma_wire_sigil(f: FrameModel)
    requires
        wire(f) is Some,
    ensures
        wire(f)->0.len() >= 1,
        wire(f)->0[0] == sigil_of(f),
{
    let w = wire(f)->0;
    match f {
        FrameModel::SimpleString(s) => assert(w[0] == PLUS),
        FrameModel::Error(s) => assert(w[0] == MINUS),
        FrameModel::Integer(i) => assert(w[0] == COLON),
        FrameModel::BulkString(b) => assert(w[0] == DOLLAR),
        FrameModel::NullBulkString => assert(w[0] == DOLLAR),
        FrameModel::Array(items) => assert(w[0] == STAR),
        FrameModel::Boolean(b) => assert(w[0] == HASH),
        FrameModel::Double(d) => assert(w[0] == COMMA),
        FrameModel::RespMap(e) => assert(w[0] == PERCENT),
        FrameModel::RespSet(items) => assert(w[0] == TILDE),
        _ => {},
    }
}

proof fn lemma_bytes_at_split(data: Seq<u8>, pos: int, a: Seq<u8>, b: Seq<u8>)
    requires
        bytes_at(data, pos, a + b),
    ensures
        bytes_at(data, pos, a),
        bytes_at(data, pos + a.len(), b),
{
    let whole = data.subrange(pos, pos + (a + b).len());
    assert(whole == a + b);
    assert(data.subrange(pos, pos + a.len()) =~= whole.subrange(0, a.len() as int));
    assert((a + b).subrange(0, a.len() as int) =~= a);
    assert(data.subrange(pos + a.len(), pos + a.len() + b.len()) =~= whole.subrange(
        a.len() as int,
        (a.len() + b.len()) as int,
    ));
    assert((a + b).subrange(a.len() as int, (a.len() + b.len()) as int) =~= b);
}

proof fn lemma_wire_all_step(fs: Seq<FrameModel>, k: int)
    requires
        0 <= k < fs.len(),
        wire_all(fs) is Some,
    ensures
        wire_all(fs.subrange(0, k)) is Some,
        wire(fs[k]) is Some,
        wire_all(fs.subrange(0, k + 1)) == Some(wire_all(fs.subrange(0, k))->0 + wire(fs[k])->0),
        wire_all(fs.subrange(0, k + 1))->0.len() <= wire_all(fs)->0.len(),
        wire_all(fs)->0.subrange(0, wire_all(fs.subrange(0, k + 1))->0.len() as int) == wire_all(
            fs.subrange(0, k + 1),
        )->0,
    decreases fs.len(),
{
    let init = fs.subrange(0, fs.len() - 1);
    if k + 1 < fs.len() {
        lemma_wire_all_step(init, k);
        assert(init.subrange(0, k) =~= fs.subrange(0, k));
        assert(init.subrange(0, k + 1) =~= fs.subrange(0, k + 1));
        let p = wire_all(fs.subrange(0, k + 1))->0;
        assert(wire_all(fs)->0 == wire_all(init)->0 + wire(fs[fs.len() - 1])->0);
        assert(wire_all(fs)->0.subrange(0, p.len() as int) =~= wire_all(init)->0.subrange(
            0,
            p.len() as int,
        ));
    } else {
        assert(fs.subrange(0, k + 1) =~= fs);
        assert(fs.subrange(0, k + 1).subrange(0, k) =~= fs.subrange(0, k));
        assert(wire_all(fs)->0.subrange(0, wire_all(fs)->0.len() as int) =~= wire_all(fs)->0);
    }
}

proof fn lemma_wire_all_len(fs: Seq<FrameModel>)
    requires
        wire_all(fs) is Some,
    ensures
        wire_all(fs)->0.len() >= fs.len(),
    decreases fs.len(),
{
    if fs.len() > 0 {
        lemma_wire_all_len(fs.subrange(0, fs.len() - 1));
        lemma_wire_sigil(fs[fs.len() - 1]);
    }
}

proof fn lemma_wire_entries_step(es: Seq<(Seq<char>, FrameModel)>, k: int)
    requires
        0 <= k < es.len(),
        wire_entries(es) is Some,
    ensures
        wire_entries(es.subrange(0, k)) is Some,
        wire(es[k].1) is Some,
        wire_entries(es.subrange(0, k + 1)) == Some(
            wire_entries(es.subrange(0, k))->0 + text_line(PLUS, es[k].0) + wire(es[k].1)->0,
        ),
        wire_entries(es.subrange(0, k + 1))->0.len() <= wire_entries(es)->0.len(),
        wire_entries(es)->0.subrange(0, wire_entries(es.subrange(0, k + 1))->0.len() as int)
            == wire_entries(es.subrange(0, k + 1))->0,
    decreases es.len(),
{
    let init = es.subrange(0, es.len() - 1);
    if k + 1 < es.len() {
        lemma_wire_entries_step(init, k);
        assert(init.subrange(0, k) =~= es.subrange(0, k));
        assert(init.subrange(0, k + 1) =~= es.subrange(0, k + 1));
        let p = wire_entries(es.subrange(0, k + 1))->0;
        let last = es[es.len() - 1];
        assert(wire_entries(es)->0 == wire_entries(init)->0 + text_line(PLUS, last.0) + wire(
            last.1,
        )->0);
        assert(wire_entries(es)->0.subrange(0, p.len() as int) =~= wire_entries(
            init,
        )->0.subrange(0, p.len() as int));
    } else {
        assert(es.subrange(0, k + 1) =~= es);
        assert(es.subrange(0, k + 1).subrange(0, k) =~= es.subrange(0, k));
        assert(wire_entries(es)->0.subrange(0, wire_entries(es)->0.len() as int) =~= wire_entries(
            es,
        )->0);
    }
}

proof fn lemma_wire_entries_len(es: Seq<(Seq<char>, FrameModel)>)
    requires
        wire_entries(es) is Some,
    ensures
        wire_entries(es)->0.len() >= es.len(),
    decreases es.len(),
{
    if es.len() > 0 {
        lemma_wire_entries_len(es.subrange(0, es.len() - 1));
    }
}

/// Whether `\r\n` stands at `pos`.
fn crlf_at(data: &[u8], pos: usize) -> (r: bool)
    ensures
        r == bytes_at(data@, pos as int, crlf()),
{
    if pos < data.len() && data.len() - pos >= 2 && data[pos] == CR && data[pos + 1] == LF {
        assert(data@.subrange(pos as int, pos + 2) =~= crlf());
        true
    } else {
        proof {
            if bytes_at(data@, pos as int, crlf()) {
                assert(data@[pos as int] == data@.subrange(pos as int, pos + 2)[0]);
                assert(data@[pos + 1] == data@.subrange(pos as int, pos + 2)[1]);
            }
        }
        false
    }
}

/// The frame whose wire form starts at `pos`, and the position after it.
pub fn parse_frame(data: &[u8], pos: usize) -> (r: Result<(RespFrame, usize), DecodeError>)
    requires
        pos <= data@.len(),
    ensures
        r matches Ok((g, end)) ==> {
            &&& pos < end <= data@.len()
            &&& wire(g@) == Some(data@.subrange(pos as int, end as int))
        },
        forall|f: FrameModel|
            decodable(f) && wire(f) is Some && #[trigger] bytes_at(data@, pos as int, wire(f)->0)
                ==> (r matches Ok((g, end)) && g@ == f && end == pos + wire(f)->0.len()),
        pos == data@.len() ==> r == Err::<(RespFrame, usize), DecodeError>(DecodeError::Truncated),
        pos < data@.len() && !is_sigil(data@[pos as int]) ==> r == Err::<
            (RespFrame, usize),
            DecodeError,
        >(DecodeError::InvalidSigil),
        pos < data@.len() && (data@[pos as int] == PLUS || data@[pos as int] == MINUS)
            && invalid_text_line(data@, pos + 1) ==> r == Err::<(RespFrame, usize), DecodeError>(
            DecodeError::InvalidText,
        ),
    decreases data@.len() - pos, 2int,
{
    if pos >= data.len() {
        proof {
            assert forall|f: FrameModel|
                decodable(f) && wire(f) is Some && #[trigger] bytes_at(
                    data@,
                    pos as int,
                    wire(f)->0,
                ) implies false by {
                lemma_wire_sigil(f);
            }
        }
        return Err(DecodeError::Truncated);
    }
    let sigil = data[pos];
    proof {
        assert forall|f: FrameModel|
            decodable(f) && wire(f) is Some && #[trigger] bytes_at(data@, pos as int, wire(f)->0)
            implies sigil_of(f) == sigil by {
            lemma_wire_sigil(f);
            assert(data@[pos as int] == data@.subrange(pos as int, pos + wire(f)->0.len())[0]);
        }
    }
    if sigil == PLUS || sigil == MINUS {
        match parse_text_line(data, pos + 1) {
            Ok((text, end)) => {
                let g = if sigil == PLUS {
                    RespFrame::SimpleString(SimpleString::new(text))
                } else {
                    RespFrame::Error(SimpleError::new(text))
                };
                proof {
                    assert(data@.subrange(pos as int, end as int) =~= seq![sigil] + data@.subrange(
                        pos + 1,
                        end as int,
                    ));
                    assert forall|f: FrameModel|
                        decodable(f) && wire(f) is Some && #[trigger] bytes_at(
                            data@,
                            pos as int,
                            wire(f)->0,
                        ) implies g@ == f && end == pos + wire(f)->0.len() by {
                        let t = if sigil == PLUS { f->SimpleString_0 } else { f->Error_0 };
                        assert(wire(f)->0 =~= seq![sigil] + (encode_utf8(t) + crlf()));
                        lemma_bytes_at_split(data@, pos as int, seq![sigil], encode_utf8(t) + crlf());
                    }
                }
                Ok((g, end))
            },
            Err(e) => {
                proof {
                    assert forall|f: FrameModel|
                        decodable(f) && wire(f) is Some && #[trigger] bytes_at(
                            data@,
                            pos as int,
                            wire(f)->0,
                        ) implies false by {
                        let t = if sigil == PLUS { f->SimpleString_0 } else { f->Error_0 };
                        assert(wire(f)->0 =~= seq![sigil] + (encode_utf8(t) + crlf()));
                        lemma_bytes_at_split(data@, pos as int, seq![sigil], encode_utf8(t) + crlf());
                    }
                }
                Err(e)
            },
        }
    } else if sigil == STAR || sigil == TILDE {
        parse_collection(data, pos)
    } else if sigil == PERCENT {
        parse_map(data, pos)
    } else if sigil == COMMA {
        parse_double(data, pos)
    } else if sigil == COLON {
        parse_integer(data, pos)
    } else if sigil == DOLLAR {
        parse_bulk(data, pos)
    } else if sigil == HASH {
        parse_boolean(data, pos)
    } else {
        Err(DecodeError::InvalidSigil)
    }
}

/// `count` frames, one after another from `start`.
fn parse_sequence(data: &[u8], pos: usize, start: usize, count: u64) -> (r: Result<
    (Vec<RespFrame>, usize),
    DecodeError,
>)
    requires
        pos < start <= data@.len(),
    ensures
        r matches Ok((items, end)) ==> {
            &&& start <= end <= data@.len()
            &&& items@.len() == count
            &&& wire_all(models_of(items@)) == Some(data@.subrange(start as int, end as int))
        },
        forall|fs: Seq<FrameModel>|
            fs.len() == count && (forall|i: int| 0 <= i < fs.len() ==> decodable(#[trigger] fs[i]))
                && wire_all(fs) is Some && #[trigger] bytes_at(data@, start as int, wire_all(fs)->0)
                ==> (r matches Ok((items, end)) && models_of(items@) == fs && end == start
                + wire_all(fs)->0.len()),
    decreases data@.len() - pos, 0int,
{
    let mut items: Vec<RespFrame> = Vec::new();
    let mut cur: usize = start;
    let mut k: u64 = 0;
    assert(data@.subrange(start as int, start as int) =~= Seq::<u8>::empty());
    proof {
        assert forall|fs: Seq<FrameModel>|
            fs.len() == count && (forall|i: int| 0 <= i < fs.len() ==> decodable(#[trigger] fs[i]))
                && wire_all(fs) is Some && #[trigger] bytes_at(
                data@,
                start as int,
                wire_all(fs)->0,
            ) implies models_of(items@) == fs.subrange(0, 0) && wire_all(fs.subrange(0, 0))
            == Some(Seq::<u8>::empty()) by {
            assert(fs.subrange(0, 0) =~= Seq::<FrameModel>::empty());
            assert(models_of(items@) =~= Seq::<FrameModel>::empty());
        }
    }
    while k < count
        invariant
            pos < start <= cur <= data@.len(),
            items@.len() == k,
            k <= count,
            wire_all(models_of(items@)) == Some(data@.subrange(start as int, cur as int)),
            forall|fs: Seq<FrameModel>|
                fs.len() == count && (forall|i: int|
                    0 <= i < fs.len() ==> decodable(#[trigger] fs[i])) && wire_all(fs) is Some
                    && #[trigger] bytes_at(data@, start as int, wire_all(fs)->0) ==> models_of(
                    items@,
                ) == fs.subrange(0, k as int) && wire_all(fs.subrange(0, k as int)) is Some
                    && cur == start + wire_all(fs.subrange(0, k as int))->0.len(),
        decreases count - k,
    {
        proof {
            assert forall|fs: Seq<FrameModel>|
                fs.len() == count && (forall|i: int|
                    0 <= i < fs.len() ==> decodable(#[trigger] fs[i])) && wire_all(fs) is Some
                    && #[trigger] bytes_at(data@, start as int, wire_all(fs)->0) implies bytes_at(
                data@,
                cur as int,
                wire(fs[k as int])->0,
            ) && wire(fs[k as int]) is Some && decodable(fs[k as int]) by {
                lemma_wire_all_step(fs, k as int);
                let w = wire_all(fs)->0;
                let a = wire_all(fs.subrange(0, k as int))->0;
                let b = wire(fs[k as int])->0;
                assert(data@.subrange(start as int, start + w.len()) == w);
                assert(data@.subrange(start as int, start + (a + b).len()) =~= w.subrange(
                    0,
                    (a + b).len() as int,
                ));
                lemma_bytes_at_split(data@, start as int, a, b);
            }
        }
        let (g, e) = match parse_frame(data, cur) {
            Ok(x) => x,
            Err(err) => {
                return Err(err);
            },
        };
        let ghost old_items = items@;
        items.push(g);
        proof {
            assert(items@.subrange(0, items@.len() - 1) =~= old_items);
            assert(models_of(items@) == models_of(old_items).push(g@));
            assert(data@.subrange(start as int, e as int) =~= data@.subrange(start as int, cur as int)
                + data@.subrange(cur as int, e as int));
            assert forall|fs: Seq<FrameModel>|
                fs.len() == count && (forall|i: int|
                    0 <= i < fs.len() ==> decodable(#[trigger] fs[i])) && wire_all(fs) is Some
                    && #[trigger] bytes_at(data@, start as int, wire_all(fs)->0) implies models_of(
                items@,
            ) == fs.subrange(0, k + 1) && wire_all(fs.subrange(0, k + 1)) is Some && e == start
                + wire_all(fs.subrange(0, k + 1))->0.len() by {
                lemma_wire_all_step(fs, k as int);
                assert(fs.subrange(0, k + 1) =~= fs.subrange(0, k as int).push(fs[k as int]));
            }
            let ms = models_of(items@);
            assert(ms.subrange(0, ms.len() - 1) =~= models_of(old_items));
        }
        cur = e;
        k = k + 1;
    }
    Ok((items, cur))
}

/// `*` or `~`, a canonical count and the terminator, then that many frames;
/// a set's members must be distinct.
fn parse_collection(data: &[u8], pos: usize) -> (r: Result<(RespFrame, usize), DecodeError>)
    requires
        pos < data@.len(),
        data@[pos as int] == STAR || data@[pos as int] == TILDE,
    ensures
        r matches Ok((g, end)) ==> {
            &&& pos < end <= data@.len()
            &&& wire(g@) == Some(data@.subrange(pos as int, end as int))
        },
        forall|f: FrameModel|
            decodable(f) && wire(f) is Some && #[trigger] bytes_at(data@, pos as int, wire(f)->0)
                && sigil_of(f) == data@[pos as int] ==> (r matches Ok((g, end)) && g@ == f && end
                == pos + wire(f)->0.len()),
    decreases data@.len() - pos, 1int,
{
    let sigil = data[pos];
    proof {
        assert forall|f: FrameModel|
            decodable(f) && wire(f) is Some && #[trigger] bytes_at(data@, pos as int, wire(f)->0)
                && sigil_of(f) == sigil implies {
                let fs = if sigil == STAR { f->Array_0 } else { f->RespSet_0 };
                &&& fs.len() <= u64::MAX
                &&& decimal_at(data@, pos + 1, fs.len())
                &&& bytes_at(data@, pos + 1 + decimal(fs.len()).len(), crlf())
                &&& wire_all(fs) is Some
                &&& bytes_at(data@, pos + 1 + decimal(fs.len()).len() + 2, wire_all(fs)->0)
            } by {
            let fs = if sigil == STAR { f->Array_0 } else { f->RespSet_0 };
            let d = decimal(fs.len());
            let body = wire_all(fs)->0;
            assert(wire(f)->0 =~= seq![sigil] + (d + (crlf() + body)));
            lemma_bytes_at_split(data@, pos as int, seq![sigil], d + (crlf() + body));
            lemma_bytes_at_split(data@, pos + 1, d, crlf() + body);
            lemma_bytes_at_split(data@, pos + 1 + d.len(), crlf(), body);
            let e = pos + 1 + d.len();
            assert(data@[e] == data@.subrange(e, e + 2)[0]);
            lemma_wire_all_len(fs);
        }
    }
    let (count, p) = match parse_decimal(data, pos + 1) {
        Some(x) => x,
        None => {
            return Err(DecodeError::MalformedLength);
        },
    };
    if !crlf_at(data, p) {
        return Err(DecodeError::Truncated);
    }
    let (items, end) = match parse_sequence(data, pos, p + 2, count) {
        Ok(x) => x,
        Err(e) => {
            return Err(e);
        },
    };
    proof {
        lemma_decimal_canonical(count as nat);
        lemma_models_of(items@);
        assert(data@.subrange(pos as int, end as int) =~= seq![sigil] + data@.subrange(
            pos + 1,
            p as int,
        ) + crlf() + data@.subrange(p + 2, end as int));
        assert forall|f: FrameModel|
            decodable(f) && wire(f) is Some && #[trigger] bytes_at(data@, pos as int, wire(f)->0)
                && sigil_of(f) == sigil implies {
                let fs = if sigil == STAR { f->Array_0 } else { f->RespSet_0 };
                &&& models_of(items@) == fs
                &&& end == pos + wire(f)->0.len()
            } by {
            let fs = if sigil == STAR { f->Array_0 } else { f->RespSet_0 };
            assert(decimal_at(data@, pos + 1, fs.len()));
            assert(count == fs.len());
            assert(bytes_at(data@, p + 2, wire_all(fs)->0));
            assert(forall|i: int| 0 <= i < fs.len() ==> decodable(#[trigger] fs[i]));
        }
    }
    if sigil == STAR {
        let g = RespFrame::Array(items);
        proof {
            assert(wire(g@)->0 =~= data@.subrange(pos as int, end as int));
        }
        return Ok((g, end));
    }
    let ghost ms = models_of(items@);
    match build_set(items) {
        Some(set) => {
            let g = RespFrame::RespSet(set);
            proof {
                assert(wire(g@)->0 =~= data@.subrange(pos as int, end as int));
            }
            Ok((g, end))
        },
        None => {
            proof {
                assert forall|f: FrameModel|
                    decodable(f) && wire(f) is Some && #[trigger] bytes_at(
                        data@,
                        pos as int,
                        wire(f)->0,
                    ) && sigil_of(f) == data@[pos as int] implies false by {
                    assert(distinct(f->RespSet_0));
                }
            }
            Err(DecodeError::Duplicate)
        },
    }
}

/// `%`, a canonical count and the terminator, then that many entries, each a
/// key written as a simple string and a frame; no key may come twice.
#[verifier::rlimit(100)]
#[verifier::spinoff_prover]
fn parse_map(data: &[u8], pos: usize) -> (r: Result<(RespFrame, usize), DecodeError>)
    requires
        pos < data@.len(),
        data@[pos as int] == PERCENT,
    ensures
        r matches Ok((g, end)) ==> {
            &&& pos < end <= data@.len()
            &&& wire(g@) == Some(data@.subrange(pos as int, end as int))
        },
        forall|f: FrameModel|
            decodable(f) && wire(f) is Some && #[trigger] bytes_at(data@, pos as int, wire(f)->0)
                && f is RespMap ==> (r matches Ok((g, end)) && g@ == f && end == pos + wire(
                f,
            )->0.len()),
    decreases data@.len() - pos, 1int,
{
    let len = data.len();
    proof {
        assert forall|f: FrameModel|
            decodable(f) && wire(f) is Some && #[trigger] bytes_at(data@, pos as int, wire(f)->0)
                && f is RespMap implies {
                let es = f->RespMap_0;
                &&& es.len() <= u64::MAX
                &&& decimal_at(data@, pos + 1, es.len())
                &&& bytes_at(data@, pos + 1 + decimal(es.len()).len(), crlf())
                &&& wire_entries(es) is Some
                &&& bytes_at(data@, pos + 1 + decimal(es.len()).len() + 2, wire_entries(es)->0)
            } by {
            let es = f->RespMap_0;
            let d = decimal(es.len());
            let body = wire_entries(es)->0;
            assert(wire(f)->0 =~= seq![PERCENT] + (d + (crlf() + body)));
            lemma_bytes_at_split(data@, pos as int, seq![PERCENT], d + (crlf() + body));
            lemma_bytes_at_split(data@, pos + 1, d, crlf() + body);
            lemma_bytes_at_split(data@, pos + 1 + d.len(), crlf(), body);
            let e = pos + 1 + d.len();
            assert(data@[e] == data@.subrange(e, e + 2)[0]);
            lemma_wire_entries_len(es);
            assert(es.len() <= data@.len());
        }
    }
    let (count, p) = match parse_decimal(data, pos + 1) {
        Some(x) => x,
        None => {
            return Err(DecodeError::MalformedLength);
        },
    };
    if !crlf_at(data, p) {
        return Err(DecodeError::Truncated);
    }
    let start = p + 2;
    proof {
        lemma_decimal_canonical(count as nat);
        assert forall|f: FrameModel|
            decodable(f) && wire(f) is Some && #[trigger] bytes_at(data@, pos as int, wire(f)->0)
                && f is RespMap implies count == f->RespMap_0.len() && bytes_at(
                data@,
                start as int,
                wire_entries(f->RespMap_0)->0,
            ) by {
            assert(decimal_at(data@, pos + 1, f->RespMap_0.len()));
        }
    }
    let mut map = RespMap::new();
    let mut cur: usize = start;
    let mut k: u64 = 0;
    assert(data@.subrange(start as int, start as int) =~= Seq::<u8>::empty());
    proof {
        assert forall|f: FrameModel|
            decodable(f) && wire(f) is Some && #[trigger] bytes_at(data@, pos as int, wire(f)->0)
                && f is RespMap implies map@ == f->RespMap_0.subrange(0, 0) && wire_entries(
                f->RespMap_0.subrange(0, 0),
            ) == Some(Seq::<u8>::empty()) by {
            assert(f->RespMap_0.subrange(0, 0) =~= Seq::<(Seq<char>, FrameModel)>::empty());
            assert(map@ =~= Seq::<(Seq<char>, FrameModel)>::empty());
        }
    }
    while k < count
        invariant
            pos < start <= cur <= data@.len(),
            map@.len() == k,
            k <= count,
            wire_entries(map@) == Some(data@.subrange(start as int, cur as int)),
            forall|f: FrameModel|
                decodable(f) && wire(f) is Some && #[trigger] bytes_at(
                    data@,
                    pos as int,
                    wire(f)->0,
                ) && f is RespMap ==> {
                    let es = f->RespMap_0;
                    &&& count == es.len()
                    &&& bytes_at(data@, start as int, wire_entries(es)->0)
                    &&& map@ == es.subrange(0, k as int)
                    &&& wire_entries(es.subrange(0, k as int)) is Some
                    &&& cur == start + wire_entries(es.subrange(0, k as int))->0.len()
                },
        decreases count - k,
    {
        proof {
            assert forall|f: FrameModel|
                decodable(f) && wire(f) is Some && #[trigger] bytes_at(
                    data@,
                    pos as int,
                    wire(f)->0,
                ) && f is RespMap implies {
                    let es = f->RespMap_0;
                    let key_line = text_line(PLUS, es[k as int].0);
                    &&& cur < data@.len()
                    &&& data@[cur as int] == PLUS
                    &&& line_safe(es[k as int].0)
                    &&& bytes_at(data@, cur + 1, encode_utf8(es[k as int].0) + crlf())
                    &&& decodable(es[k as int].1)
                    &&& wire(es[k as int].1) is Some
                    &&& bytes_at(data@, cur + key_line.len(), wire(es[k as int].1)->0)
                } by {
                let es = f->RespMap_0;
                lemma_wire_entries_step(es, k as int);
                let w = wire_entries(es)->0;
                let a = wire_entries(es.subrange(0, k as int))->0;
                let kl = text_line(PLUS, es[k as int].0);
                let b = wire(es[k as int].1)->0;
                assert(data@.subrange(start as int, start + w.len()) == w);
                assert(data@.subrange(start as int, start + (a + kl + b).len()) =~= w.subrange(
                    0,
                    (a + kl + b).len() as int,
                ));
                assert(a + kl + b =~= a + (kl + b));
                lemma_bytes_at_split(data@, start as int, a, kl + b);
                lemma_bytes_at_split(data@, cur as int, kl, b);
                assert(kl =~= seq![PLUS] + (encode_utf8(es[k as int].0) + crlf()));
                lemma_bytes_at_split(data@, cur as int, seq![PLUS], encode_utf8(es[k as int].0) + crlf());
                assert(data@[cur as int] == data@.subrange(cur as int, cur + 1)[0]);
            }
        }
        if cur >= data.len() || data[cur] != PLUS {
            return Err(DecodeError::InvalidSigil);
        }
        let (key, c1) = match parse_text_line(data, cur + 1) {
            Ok(x) => x,
            Err(e) => {
                return Err(e);
            },
        };
        let (value, c2) = match parse_frame(data, c1) {
            Ok(x) => x,
            Err(e) => {
                return Err(e);
            },
        };
        let ghost old_map = map@;
        let ghost key_model = key@;
        let ghost value_model = value@;
        let before = map.len();
        map.insert(key, value);
        if map.len() == before {
            proof {
                assert forall|f: FrameModel|
                    decodable(f) && wire(f) is Some && #[trigger] bytes_at(
                        data@,
                        pos as int,
                        wire(f)->0,
                    ) && f is RespMap implies false by {
                    let es = f->RespMap_0;
                    if (forall|i: int| 0 <= i < old_map.len() ==> #[trigger] old_map[i].0 != key_model) {
                        assert(map@ == old_map.push((key_model, value_model)));
                    } else {
                        let i = choose|i: int| 0 <= i < old_map.len() && #[trigger] old_map[i].0 == key_model;
                        assert(old_map[i] == es[i]);
                        assert(es[i].0 != es[k as int].0);
                    }
                }
            }
            return Err(DecodeError::Duplicate);
        }
        proof {
            if !(forall|i: int| 0 <= i < old_map.len() ==> #[trigger] old_map[i].0 != key_model) {
                let i = choose|i: int| 0 <= i < old_map.len() && #[trigger] old_map[i].0 == key_model;
                assert(map@ == old_map.update(i, (key_model, value_model)));
            }
            assert(map@ == old_map.push((key_model, value_model)));
            let mm = map@;
            assert(mm.subrange(0, mm.len() - 1) =~= old_map);
            assert(data@.subrange(start as int, c2 as int) =~= data@.subrange(start as int, cur as int)
                + (seq![PLUS] + data@.subrange(cur + 1, c1 as int)) + data@.subrange(
                c1 as int,
                c2 as int,
            ));
            assert(wire_entries(map@)->0 =~= data@.subrange(start as int, c2 as int));
            assert forall|f: FrameModel|
                decodable(f) && wire(f) is Some && #[trigger] bytes_at(
                    data@,
                    pos as int,
                    wire(f)->0,
                ) && f is RespMap implies {
                    let es = f->RespMap_0;
                    &&& map@ == es.subrange(0, k + 1)
                    &&& wire_entries(es.subrange(0, k + 1)) is Some
                    &&& c2 == start + wire_entries(es.subrange(0, k + 1))->0.len()
                } by {
                let es = f->RespMap_0;
                lemma_wire_entries_step(es, k as int);
                assert(es.subrange(0, k + 1) =~= es.subrange(0, k as int).push(es[k as int]));
                assert(text_line(PLUS, es[k as int].0).len() == 1 + encode_utf8(es[k as int].0).len() + 2);
            }
        }
        cur = c2;
        k = k + 1;
    }
    let g = RespFrame::RespMap(map);
    proof {
        lemma_decimal_canonical(count as nat);
        assert(data@.subrange(pos as int, cur as int) =~= seq![PERCENT] + data@.subrange(
            pos + 1,
            p as int,
        ) + crlf() + data@.subrange(start as int, cur as int));
        assert(wire(g@)->0 =~= data@.subrange(pos as int, cur as int));
        assert forall|f: FrameModel|
            decodable(f) && wire(f) is Some && #[trigger] bytes_at(data@, pos as int, wire(f)->0)
                && f is RespMap implies g@ == f && cur == pos + wire(f)->0.len() by {
            let es = f->RespMap_0;
            assert(es.subrange(0, es.len() as int) =~= es);
        }
    }
    Ok((g, cur))
}

/// A double whose wire text reads back as itself: digits without trailing
/// zeros, fitting `u64`, and an exponent near the range of `i32`.
pub open spec fn double_decodable(d: DoubleModel) -> bool {
    &&& d.digits <= u64::MAX
    &&& (d.digits == 0 ==> d.exponent == 0 && !d.negative)
    &&& (d.digits != 0 ==> d.digits % 10 != 0)
    &&& i32::MIN <= d.exponent <= i32::MAX + 20
}

/// The digits before the point, or all of them where there is no point.
pub open spec fn whole_part(d: DoubleModel) -> Seq<u8> {
    let ds = decimal(d.digits);
    let point = ds.len() + d.exponent;
    if above_1e8(d.digits, d.exponent) {
        ds.subrange(0, 1)
    } else if d.exponent >= 0 {
        ds + zeros(d.exponent as nat)
    } else if point > 0 {
        ds.subrange(0, point)
    } else {
        seq![crate::bytes::ZERO]
    }
}

/// The digits after the point; empty where there is no point.
pub open spec fn fraction_part(d: DoubleModel) -> Seq<u8> {
    let ds = decimal(d.digits);
    let point = ds.len() + d.exponent;
    if above_1e8(d.digits, d.exponent) {
        ds.subrange(1, ds.len() as int)
    } else if d.exponent >= 0 {
        Seq::empty()
    } else if point > 0 {
        ds.subrange(point, ds.len() as int)
    } else {
        zeros((-point) as nat) + ds
    }
}

/// The power of ten written after `e`, in exponential notation.
pub open spec fn power_part(d: DoubleModel) -> int {
    decimal(d.digits).len() - 1 + d.exponent
}

/// The text of `d` is its sign, its whole part, `.` and its fraction where
/// there is one, and `e` and its power in exponential notation; the parts
/// are digits, and they spell `d.digits` up to a power of ten.
pub open spec fn parts_hold(d: DoubleModel) -> bool {
    let w = whole_part(d);
    let f = fraction_part(d);
    let above = above_1e8(d.digits, d.exponent);
    let x = (if above { power_part(d) } else { 0 }) - f.len();
    &&& double_text(d) == seq![if d.negative { MINUS } else { PLUS }] + w + (if f.len() > 0 {
        seq![DOT] + f
    } else {
        Seq::empty()
    }) + (if above {
        seq![EXP_MARK] + plain_decimal(power_part(d))
    } else {
        Seq::empty()
    })
    &&& w.len() >= 1
    &&& forall|i: int| 0 <= i < w.len() ==> is_digit(#[trigger] w[i])
    &&& forall|i: int| 0 <= i < f.len() ==> is_digit(#[trigger] f[i])
    &&& f.len() <= 0x1_0000_0000
    &&& -0x1_0000_0000 <= power_part(d) <= 0x1_0000_0000
    &&& x <= d.exponent
    &&& i32::MIN <= x <= i32::MAX + 20
    &&& digits_value(w + f) == d.digits * pow10((d.exponent - x) as nat)
    &&& digits_value(w + f) <= u64::MAX
}

proof fn lemma_decimal_facts(d: DoubleModel)
    requires
        double_decodable(d),
    ensures
        canonical_digits(decimal(d.digits)),
        digits_value(decimal(d.digits)) == d.digits,
        1 <= decimal(d.digits).len() <= 20,
        pow10(0) == 1,
        d.digits * 1 == d.digits,
{
    lemma_decimal_canonical(d.digits);
    lemma_decimal_nonempty(d.digits);
    reveal_with_fuel(pow10, 21);
    crate::double::lemma_decimal_len(d.digits, 20);
}

proof fn lemma_parts_exponential(d: DoubleModel)
    requires
        double_decodable(d),
        above_1e8(d.digits, d.exponent),
    ensures
        parts_hold(d),
{
    lemma_decimal_facts(d);
    let ds = decimal(d.digits);
    let w = whole_part(d);
    let f = fraction_part(d);
    assert(ds =~= w + f);
    lemma_digits_value_concat(w, f);
    assert(double_text(d) =~= seq![if d.negative { MINUS } else { PLUS }] + w + (if f.len() > 0 {
        seq![DOT] + f
    } else {
        Seq::empty()
    }) + (seq![EXP_MARK] + plain_decimal(power_part(d))));
}

proof fn lemma_parts_whole(d: DoubleModel)
    requires
        double_decodable(d),
        !above_1e8(d.digits, d.exponent),
        d.exponent >= 0,
    ensures
        parts_hold(d),
{
    lemma_decimal_facts(d);
    let ds = decimal(d.digits);
    let n = ds.len();
    let w = whole_part(d);
    let f = fraction_part(d);
    let z = zeros(d.exponent as nat);
    assert forall|i: int| 0 <= i < w.len() implies is_digit(#[trigger] w[i]) by {
        if i >= n {
            assert(w[i] == z[i - n]);
        }
    }
    lemma_digits_value_concat(ds, z);
    lemma_digits_value_zeros(z);
    assert(w + f =~= w);
    reveal_with_fuel(pow10, 9);
    assert(double_text(d) =~= seq![if d.negative { MINUS } else { PLUS }] + w + Seq::<u8>::empty()
        + Seq::<u8>::empty());
}

proof fn lemma_parts_point(d: DoubleModel)
    requires
        double_decodable(d),
        !above_1e8(d.digits, d.exponent),
        d.exponent < 0,
        decimal(d.digits).len() + d.exponent > 0,
    ensures
        parts_hold(d),
{
    lemma_decimal_facts(d);
    let ds = decimal(d.digits);
    let w = whole_part(d);
    let f = fraction_part(d);
    assert(ds =~= w + f);
    lemma_digits_value_concat(w, f);
    assert(double_text(d) =~= seq![if d.negative { MINUS } else { PLUS }] + w + (seq![DOT] + f)
        + Seq::<u8>::empty());
}

proof fn lemma_parts_small(d: DoubleModel)
    requires
        double_decodable(d),
        !above_1e8(d.digits, d.exponent),
        d.exponent < 0,
        decimal(d.digits).len() + d.exponent <= 0,
    ensures
        parts_hold(d),
{
    lemma_decimal_facts(d);
    let ds = decimal(d.digits);
    let point = ds.len() + d.exponent;
    let w = whole_part(d);
    let f = fraction_part(d);
    let z = zeros((-point) as nat);
    assert forall|i: int| 0 <= i < f.len() implies is_digit(#[trigger] f[i]) by {
        if i >= z.len() {
            assert(f[i] == ds[i - z.len()]);
        }
    }
    lemma_digits_value_concat(z, ds);
    lemma_digits_value_zeros(z);
    lemma_digits_value_zeros(w);
    lemma_digits_value_concat(w, f);
    assert(digits_value(w) == 0);
    assert(digits_value(f) == d.digits);
    assert(0 * pow10(f.len()) == 0);
    assert(digits_value(w + f) == d.digits);
    assert(f.len() == z.len() + ds.len());
    assert((d.exponent - (0 - f.len())) as nat == 0);
    assert(double_text(d) =~= seq![if d.negative { MINUS } else { PLUS }] + w + (seq![DOT] + f)
        + Seq::<u8>::empty());
}

proof fn lemma_double_parts(d: DoubleModel)
    requires
        double_decodable(d),
    ensures
        parts_hold(d),
{
    lemma_decimal_facts(d);
    if above_1e8(d.digits, d.exponent) {
        lemma_parts_exponential(d);
    } else if d.exponent >= 0 {
        lemma_parts_whole(d);
    } else if decimal(d.digits).len() + d.exponent > 0 {
        lemma_parts_point(d);
    } else {
        lemma_parts_small(d);
    }
}

/// Where the parts of a double's wire form stand, for the form at `pos`:
/// the end of the whole part, of the fraction and of the power.
pub open spec fn whole_end(pos: int, d: DoubleModel) -> int {
    pos + 2 + whole_part(d).len()
}

pub open spec fn fraction_end(pos: int, d: DoubleModel) -> int {
    whole_end(pos, d) + if fraction_part(d).len() > 0 {
        1 + fraction_part(d).len()
    } else {
        0
    }
}

pub open spec fn power_end(pos: int, d: DoubleModel) -> int {
    fraction_end(pos, d) + if above_1e8(d.digits, d.exponent) {
        1 + plain_decimal(power_part(d)).len()
    } else {
        0
    }
}

#[verifier::rlimit(100)]
proof fn lemma_double_layout(data: Seq<u8>, pos: int, d: DoubleModel)
    requires
        double_decodable(d),
        bytes_at(data, pos, wire(FrameModel::Double(d))->0),
    ensures
        parts_hold(d),
        pos + 1 < data.len(),
        data[pos + 1] == if d.negative { MINUS } else { PLUS },
        digit_run(data, pos + 2, whole_end(pos, d)),
        data.subrange(pos + 2, whole_end(pos, d)) == whole_part(d),
        whole_end(pos, d) < data.len(),
        fraction_part(d).len() > 0 ==> data[whole_end(pos, d)] == DOT && digit_run(
            data,
            whole_end(pos, d) + 1,
            fraction_end(pos, d),
        ) && data.subrange(whole_end(pos, d) + 1, fraction_end(pos, d)) == fraction_part(d),
        fraction_part(d).len() == 0 ==> data[whole_end(pos, d)] != DOT,
        fraction_end(pos, d) < data.len(),
        above_1e8(d.digits, d.exponent) ==> data[fraction_end(pos, d)] == EXP_MARK
            && fraction_end(pos, d) + 1 < data.len() && (power_part(d) < 0 ==> data[fraction_end(
            pos,
            d,
        ) + 1] == MINUS && decimal_at(data, fraction_end(pos, d) + 2, (-power_part(d)) as nat))
            && (power_part(d) >= 0 ==> data[fraction_end(pos, d) + 1] != MINUS && decimal_at(
            data,
            fraction_end(pos, d) + 1,
            power_part(d) as nat,
        )),
        !above_1e8(d.digits, d.exponent) ==> data[fraction_end(pos, d)] != EXP_MARK,
        bytes_at(data, power_end(pos, d), crlf()),
        power_end(pos, d) + 2 == pos + wire(FrameModel::Double(d))->0.len(),
{
    lemma_double_parts(d);
    let w = whole_part(d);
    let f = fraction_part(d);
    let above = above_1e8(d.digits, d.exponent);
    let sign = if d.negative { MINUS } else { PLUS };
    let fsec = if f.len() > 0 { seq![DOT] + f } else { Seq::<u8>::empty() };
    let psec = if above { seq![EXP_MARK] + plain_decimal(power_part(d)) } else { Seq::<u8>::empty() };
    let tail = psec + crlf();
    assert(wire(FrameModel::Double(d))->0 =~= seq![COMMA, sign] + (w + (fsec + tail)));
    lemma_bytes_at_split(data, pos, seq![COMMA, sign], w + (fsec + tail));
    lemma_bytes_at_split(data, pos + 2, w, fsec + tail);
    let e1 = whole_end(pos, d);
    lemma_bytes_at_split(data, e1, fsec, tail);
    let e2 = fraction_end(pos, d);
    lemma_bytes_at_split(data, e2, psec, crlf());
    let e3 = power_end(pos, d);
    assert(data[pos + 1] == data.subrange(pos, pos + 2)[1]);
    assert(data[e1] == (fsec + tail)[0]) by {
        assert(data.subrange(e1, e1 + (fsec + tail).len())[0] == data[e1]);
    }
    assert(data[e2] == tail[0]) by {
        assert(data.subrange(e2, e2 + tail.len())[0] == data[e2]);
    }
    assert forall|j: int| pos + 2 <= j < e1 implies is_digit(#[trigger] data[j]) by {
        assert(data[j] == data.subrange(pos + 2, e1)[j - pos - 2]);
    }
    if f.len() > 0 {
        lemma_bytes_at_split(data, e1, seq![DOT], f);
        assert forall|j: int| e1 + 1 <= j < e2 implies is_digit(#[trigger] data[j]) by {
            assert(data[j] == data.subrange(e1 + 1, e2)[j - e1 - 1]);
        }
    }
    if above {
        let pd = plain_decimal(power_part(d));
        lemma_bytes_at_split(data, e2, seq![EXP_MARK], pd);
        assert(data[e3] == CR) by {
            assert(data.subrange(e3, e3 + 2)[0] == data[e3]);
        }
        if power_part(d) < 0 {
            let m = (-power_part(d)) as nat;
            lemma_bytes_at_split(data, e2 + 1, seq![MINUS], decimal(m));
            assert(data[e2 + 1] == data.subrange(e2 + 1, e2 + 2)[0]);
        } else {
            let m = power_part(d) as nat;
            lemma_decimal_canonical(m);
            assert(data[e2 + 1] == data.subrange(e2 + 1, e2 + 1 + pd.len())[0]);
            assert(is_digit(decimal(m)[0]));
        }
    }
}

/// A double in normal form whose wire form stands at `pos`.
pub open spec fn double_at(data: Seq<u8>, pos: int, d: DoubleModel) -> bool {
    double_decodable(d) && bytes_at(data, pos, wire(FrameModel::Double(d))->0)
}

/// The digits of a double's text from `pos + 2`, with their fraction if
/// there is one: their value, the number of fraction digits, and the
/// position after them.
fn read_mantissa(data: &[u8], pos: usize) -> (r: Option<(u64, u64, usize)>)
    requires
        pos + 2 <= data@.len(),
    ensures
        r matches Some((v, fr, q)) ==> pos + 2 <= q <= data@.len(),
        forall|d: DoubleModel|
            #[trigger] double_at(data@, pos as int, d) ==> r == Some(
                (
                    digits_value(whole_part(d) + fraction_part(d)) as u64,
                    fraction_part(d).len() as u64,
                    fraction_end(pos as int, d) as usize,
                ),
            ),
{
    let len = data.len();
    let p0 = pos + 2;
    let scanned = scan_digits(data, p0, 0);
    proof {
        assert forall|d: DoubleModel| #[trigger] double_at(data@, pos as int, d) implies scanned == Some(
            (digits_value(whole_part(d)) as u64, whole_end(pos as int, d) as usize),
        ) by {
            lemma_double_layout(data@, pos as int, d);
            let w = whole_part(d);
            let fr = fraction_part(d);
            let we = whole_end(pos as int, d);
            lemma_digits_value_concat(w, fr);
            crate::decimal::lemma_pow10_positive(fr.len());
            assert(digits_value(w) * pow10(fr.len()) >= digits_value(w)) by (nonlinear_arith)
                requires
                    pow10(fr.len()) >= 1,
            ;
            assert(0 * pow10((we - p0) as nat) == 0) by (nonlinear_arith);
            assert(run_value(data@, p0 as int, we, 0) == digits_value(w));
        }
    }
    let (whole, q1) = match scanned {
        Some(x) => x,
        None => {
            return None;
        },
    };
    if q1 < data.len() && data[q1] == DOT {
        let scanned2 = scan_digits(data, q1 + 1, whole);
        proof {
            assert forall|d: DoubleModel| #[trigger] double_at(data@, pos as int, d) implies scanned2
                == Some(
                (
                    digits_value(whole_part(d) + fraction_part(d)) as u64,
                    fraction_end(pos as int, d) as usize,
                ),
            ) && fraction_part(d).len() > 0 by {
                lemma_double_layout(data@, pos as int, d);
                let w = whole_part(d);
                let fr = fraction_part(d);
                lemma_digits_value_concat(w, fr);
                assert(run_value(data@, q1 + 1, fraction_end(pos as int, d), whole as nat)
                    == digits_value(w + fr));
            }
        }
        let (v, q2) = match scanned2 {
            Some(x) => x,
            None => {
                return None;
            },
        };
        return Some((v, (q2 - q1 - 1) as u64, q2));
    }
    proof {
        assert forall|d: DoubleModel| #[trigger] double_at(data@, pos as int, d) implies fraction_part(
            d,
        ).len() == 0 && whole_part(d) + fraction_part(d) == whole_part(d) by {
            lemma_double_layout(data@, pos as int, d);
            assert(whole_part(d) + fraction_part(d) =~= whole_part(d));
        }
    }
    Some((whole, 0, q1))
}

/// The power of ten of a double's text, from `q` where its digits end: the
/// power, zero where there is none, and the position after it.
fn read_power(data: &[u8], pos: usize, q: usize) -> (r: Option<(i64, usize)>)
    requires
        q <= data@.len(),
    ensures
        r matches Some((p, e)) ==> q <= e <= data@.len() && -0x1_0000_0000 <= p <= 0x1_0000_0000,
        forall|d: DoubleModel|
            #[trigger] double_at(data@, pos as int, d) && q == fraction_end(pos as int, d) ==> r
                == Some(
                (
                    (if above_1e8(d.digits, d.exponent) {
                        power_part(d)
                    } else {
                        0
                    }) as i64,
                    power_end(pos as int, d) as usize,
                ),
            ),
{
    if q < data.len() && data[q] == EXP_MARK {
        let mut start = q + 1;
        let negative = start < data.len() && data[start] == MINUS;
        if negative {
            start = start + 1;
        }
        let parsed = parse_decimal(data, start);
        proof {
            assert forall|d: DoubleModel|
                #[trigger] double_at(data@, pos as int, d) && q == fraction_end(
                    pos as int,
                    d,
                ) implies above_1e8(d.digits, d.exponent) && negative == (power_part(d) < 0)
                && parsed == Some(
                (
                    (if power_part(d) < 0 {
                        -power_part(d)
                    } else {
                        power_part(d)
                    }) as u64,
                    power_end(pos as int, d) as usize,
                ),
            ) by {
                lemma_double_layout(data@, pos as int, d);
                let pp = power_part(d);
                if pp < 0 {
                    assert(decimal_at(data@, start as int, (-pp) as nat));
                } else {
                    assert(decimal_at(data@, start as int, pp as nat));
                }
            }
        }
        let (m, q3) = match parsed {
            Some(x) => x,
            None => {
                return None;
            },
        };
        if m > 0x1_0000_0000 {
            proof {
                assert forall|d: DoubleModel|
                    #[trigger] double_at(data@, pos as int, d) && q == fraction_end(
                        pos as int,
                        d,
                    ) implies false by {
                    lemma_double_layout(data@, pos as int, d);
                }
            }
            return None;
        }
        let power: i64 = if negative {
            -(m as i64)
        } else {
            m as i64
        };
        proof {
            assert forall|d: DoubleModel|
                #[trigger] double_at(data@, pos as int, d) && q == fraction_end(
                    pos as int,
                    d,
                ) implies power == power_part(d) && q3 == power_end(pos as int, d) by {
                lemma_double_layout(data@, pos as int, d);
            }
        }
        return Some((power, q3));
    }
    proof {
        assert forall|d: DoubleModel|
            #[trigger] double_at(data@, pos as int, d) && q == fraction_end(
                pos as int,
                d,
            ) implies !above_1e8(d.digits, d.exponent) && power_end(pos as int, d) == q by {
            lemma_double_layout(data@, pos as int, d);
        }
    }
    Some((0, q))
}

/// `,` then a double in its wire text and the terminator. The text is read
/// as a sign, digits, an optional fraction and an optional power of ten;
/// the double is accepted only where its own wire form is these bytes.
#[verifier::rlimit(100)]
fn parse_double(data: &[u8], pos: usize) -> (r: Result<(RespFrame, usize), DecodeError>)
    requires
        pos < data@.len(),
        data@[pos as int] == COMMA,
    ensures
        r matches Ok((g, end)) ==> {
            &&& pos < end <= data@.len()
            &&& wire(g@) == Some(data@.subrange(pos as int, end as int))
        },
        forall|f: FrameModel|
            decodable(f) && wire(f) is Some && #[trigger] bytes_at(data@, pos as int, wire(f)->0)
                && f is Double ==> (r matches Ok((g, end)) && g@ == f && end == pos + wire(
                f,
            )->0.len()),
{
    proof {
        assert forall|f: FrameModel|
            decodable(f) && wire(f) is Some && #[trigger] bytes_at(data@, pos as int, wire(f)->0)
                && f is Double implies double_at(data@, pos as int, f->Double_0) && data@.len() - pos
                >= 2 && data@[pos + 1] == if f->Double_0.negative {
                MINUS
            } else {
                PLUS
            } by {
            lemma_double_layout(data@, pos as int, f->Double_0);
        }
    }
    if data.len() - pos < 2 {
        return Err(DecodeError::Truncated);
    }
    let sign = data[pos + 1];
    if sign != PLUS && sign != MINUS {
        return Err(DecodeError::MalformedValue);
    }
    let (value, fraction, q) = match read_mantissa(data, pos) {
        Some(x) => x,
        None => {
            return Err(DecodeError::MalformedValue);
        },
    };
    let (power, q) = match read_power(data, pos, q) {
        Some(x) => x,
        None => {
            return Err(DecodeError::MalformedValue);
        },
    };
    let terminated = crlf_at(data, q);
    proof {
        assert forall|d: DoubleModel| #[trigger] double_at(data@, pos as int, d) implies terminated
            && fraction <= 0x1_0000_0000 && power - fraction == (if above_1e8(
            d.digits,
            d.exponent,
        ) {
            power_part(d)
        } else {
            0
        }) - fraction_part(d).len() by {
            lemma_double_layout(data@, pos as int, d);
        }
    }
    if !terminated || fraction > 0x1_0000_0000 {
        return Err(DecodeError::Truncated);
    }
    let exponent: i64 = power - fraction as i64;
    if exponent < i32::MIN as i64 || exponent > i32::MAX as i64 + 20 {
        proof {
            assert forall|d: DoubleModel| #[trigger] double_at(data@, pos as int, d) implies false by {
                lemma_double_layout(data@, pos as int, d);
            }
        }
        return Err(DecodeError::MalformedValue);
    }
    let made = RespDouble::from_parts(sign == MINUS, value, exponent);
    proof {
        assert forall|dm: DoubleModel| #[trigger] double_at(data@, pos as int, dm) implies made
            matches Some(d) && d@ == dm by {
            lemma_double_layout(data@, pos as int, dm);
            let k = (dm.exponent - exponent) as nat;
            if dm.digits == 0 {
                assert(value == 0 * pow10(k));
                assert(0 * pow10(k) == 0) by (nonlinear_arith);
            } else {
                crate::decimal::lemma_pow10_positive(k);
                assert(dm.digits * pow10(k) >= 1) by (nonlinear_arith)
                    requires
                        dm.digits >= 1,
                        pow10(k) >= 1,
                ;
                assert(value == dm.digits * pow10(k));
                let d = made->0;
                lemma_normal_unique(dm.digits, k, d@.digits, (d@.exponent - exponent) as nat);
            }
        }
    }
    let d = match made {
        Some(x) => x,
        None => {
            return Err(DecodeError::MalformedValue);
        },
    };
    let end = q + 2;
    let mut expected: Vec<u8> = Vec::new();
    expected.push(COMMA);
    d.write_text(&mut expected);
    push_crlf(&mut expected);
    let mut seen: Vec<u8> = Vec::new();
    push_range(&mut seen, data, pos, end);
    let g = RespFrame::Double(d);
    assert(expected@ =~= wire(g@)->0);
    proof {
        assert forall|f: FrameModel|
            decodable(f) && wire(f) is Some && #[trigger] bytes_at(data@, pos as int, wire(f)->0)
                && f is Double implies g@ == f && seen@ == expected@ && end == pos + wire(f)->0.len() by {
            let dm = f->Double_0;
            assert(double_at(data@, pos as int, dm));
            lemma_double_layout(data@, pos as int, dm);
        }
    }
    if !bytes_equal(expected.as_slice(), seen.as_slice()) {
        return Err(DecodeError::MalformedValue);
    }
    Ok((g, end))
}

/// The set of `items`, in order; `None` where two of them are equal.
fn build_set(items: Vec<RespFrame>) -> (r: Option<RespSet>)
    ensures
        r matches Some(set) ==> set@ == models_of(items@),
        r is None ==> !distinct(models_of(items@)),
{
    let ghost ms = models_of(items@);
    proof {
        lemma_models_of(items@);
    }
    let mut set = RespSet::new();
    let mut rest = items;
    let n: usize = rest.len();
    let mut j: usize = 0;
    assert(set@ =~= ms.subrange(0, 0));
    while j < n
        invariant
            ms == models_of(items@),
            n == ms.len(),
            j <= n,
            rest@.len() == ms.len() - j,
            set@ == ms.subrange(0, j as int),
            forall|i: int| 0 <= i < rest@.len() ==> #[trigger] rest@[i]@ == ms[j + i],
        decreases ms.len() - j,
    {
        let member = rest.remove(0);
        assert(member@ == ms[j as int]);
        if !set.insert(member) {
            proof {
                let k = choose|k: int| 0 <= k < set@.len() && set@[k] == ms[j as int];
                assert(ms[k] == ms[j as int]);
                assert(k < j);
                assert(!distinct(ms));
            }
            return None;
        }
        assert(set@ =~= ms.subrange(0, j + 1));
        j = j + 1;
    }
    assert(ms.subrange(0, ms.len() as int) =~= ms);
    Some(set)
}

/// `:` then a sign, canonical digits and the terminator, within `i64`.
fn parse_integer(data: &[u8], pos: usize) -> (r: Result<(RespFrame, usize), DecodeError>)
    requires
        pos < data@.len(),
        data@[pos as int] == COLON,
    ensures
        r matches Ok((g, end)) ==> {
            &&& pos < end <= data@.len()
            &&& wire(g@) == Some(data@.subrange(pos as int, end as int))
        },
        forall|f: FrameModel|
            decodable(f) && wire(f) is Some && #[trigger] bytes_at(data@, pos as int, wire(f)->0)
                && f is Integer ==> (r matches Ok((g, end)) && g@ == f && end == pos + wire(
                f,
            )->0.len()),
{
    proof {
        assert forall|f: FrameModel|
            decodable(f) && wire(f) is Some && #[trigger] bytes_at(data@, pos as int, wire(f)->0)
                && f is Integer implies {
                let i = f->Integer_0;
                let m = if i < 0 { -i } else { i } as nat;
                &&& pos + 1 < data@.len()
                &&& data@[pos + 1] == if i < 0 { MINUS } else { PLUS }
                &&& m <= u64::MAX
                &&& decimal_at(data@, pos + 2, m)
                &&& bytes_at(data@, pos + 2 + decimal(m).len(), crlf())
            } by {
            let i = f->Integer_0;
            let m = if i < 0 { -i } else { i } as nat;
            let sign = if i < 0 { MINUS } else { PLUS };
            assert(wire(f)->0 =~= seq![COLON, sign] + (decimal(m) + crlf()));
            lemma_bytes_at_split(data@, pos as int, seq![COLON, sign], decimal(m) + crlf());
            lemma_bytes_at_split(data@, pos + 2, decimal(m), crlf());
            assert(data@[pos + 1] == data@.subrange(pos as int, pos + 2)[1]);
            let e = pos + 2 + decimal(m).len();
            assert(data@[e] == data@.subrange(e, e + 2)[0]);
        }
    }
    if data.len() - pos < 2 {
        return Err(DecodeError::Truncated);
    }
    let sign = data[pos + 1];
    if sign != PLUS && sign != MINUS {
        return Err(DecodeError::MalformedValue);
    }
    let (m, p) = match parse_decimal(data, pos + 2) {
        Some(x) => x,
        None => {
            return Err(DecodeError::MalformedValue);
        },
    };
    if !crlf_at(data, p) {
        return Err(DecodeError::Truncated);
    }
    let value: i64;
    if sign == PLUS {
        if m > i64::MAX as u64 {
            return Err(DecodeError::MalformedValue);
        }
        value = m as i64;
    } else {
        if m == 0 || m > 9223372036854775808u64 {
            return Err(DecodeError::MalformedValue);
        }
        value = if m == 9223372036854775808u64 {
            i64::MIN
        } else {
            -(m as i64)
        };
    }
    let g = RespFrame::Integer(value);
    proof {
        lemma_decimal_canonical(m as nat);
        assert(data@.subrange(pos as int, p + 2) =~= seq![COLON, sign] + data@.subrange(
            pos + 2,
            p as int,
        ) + data@.subrange(p as int, p + 2));
        assert(wire(g@)->0 =~= data@.subrange(pos as int, p + 2));
    }
    Ok((g, p + 2))
}

/// `$` then a canonical length, the terminator, that many bytes and the
/// terminator; or the null bulk string `$-1\r\n`.
fn parse_bulk(data: &[u8], pos: usize) -> (r: Result<(RespFrame, usize), DecodeError>)
    requires
        pos < data@.len(),
        data@[pos as int] == DOLLAR,
    ensures
        r matches Ok((g, end)) ==> {
            &&& pos < end <= data@.len()
            &&& wire(g@) == Some(data@.subrange(pos as int, end as int))
        },
        forall|f: FrameModel|
            decodable(f) && wire(f) is Some && #[trigger] bytes_at(data@, pos as int, wire(f)->0)
                && (f is BulkString || f is NullBulkString) ==> (r matches Ok((g, end)) && g@ == f
                && end == pos + wire(f)->0.len()),
{
    let ghost null_form: Seq<u8> = seq![DOLLAR, MINUS, ONE, CR, LF];
    if data.len() - pos >= 2 && data[pos + 1] == MINUS {
        if data.len() - pos >= 5 && data[pos + 2] == ONE && data[pos + 3] == CR && data[pos + 4]
            == LF {
            let g = RespFrame::NullBulkString(RespNullBulkString);
            assert(data@.subrange(pos as int, pos + 5) =~= null_form);
            proof {
                assert forall|f: FrameModel|
                    decodable(f) && wire(f) is Some && #[trigger] bytes_at(
                        data@,
                        pos as int,
                        wire(f)->0,
                    ) && (f is BulkString || f is NullBulkString) implies f is NullBulkString by {
                    if f is BulkString {
                        let b = f->BulkString_0;
                        lemma_decimal_canonical(b.len());
                        assert(wire(f)->0[1] == decimal(b.len())[0]);
                        assert(data@[pos + 1] == data@.subrange(
                            pos as int,
                            pos + wire(f)->0.len(),
                        )[1]);
                    }
                }
            }
            return Ok((g, pos + 5));
        }
        proof {
            assert forall|f: FrameModel|
                decodable(f) && wire(f) is Some && #[trigger] bytes_at(
                    data@,
                    pos as int,
                    wire(f)->0,
                ) && (f is BulkString || f is NullBulkString) implies false by {
                if f is BulkString {
                    let b = f->BulkString_0;
                    lemma_decimal_canonical(b.len());
                    assert(wire(f)->0[1] == decimal(b.len())[0]);
                    assert(data@[pos + 1] == data@.subrange(pos as int, pos + wire(f)->0.len())[1]);
                } else {
                    assert(wire(f)->0 == null_form);
                    assert(data@.subrange(pos as int, pos + 5) == null_form);
                    assert(data@[pos + 2] == data@.subrange(pos as int, pos + 5)[2]);
                    assert(data@[pos + 3] == data@.subrange(pos as int, pos + 5)[3]);
                    assert(data@[pos + 4] == data@.subrange(pos as int, pos + 5)[4]);
                }
            }
        }
        return Err(DecodeError::MalformedLength);
    }
    proof {
        assert forall|f: FrameModel|
            decodable(f) && wire(f) is Some && #[trigger] bytes_at(data@, pos as int, wire(f)->0)
                && (f is BulkString || f is NullBulkString) implies {
                let b = f->BulkString_0;
                let q = pos + 1 + decimal(b.len()).len() + 2;
                &&& f is BulkString
                &&& b.len() <= u64::MAX
                &&& decimal_at(data@, pos + 1, b.len())
                &&& bytes_at(data@, pos + 1 + decimal(b.len()).len(), crlf())
                &&& bytes_at(data@, q, b)
                &&& bytes_at(data@, q + b.len(), crlf())
            } by {
            if f is NullBulkString {
                assert(wire(f)->0 == null_form);
                assert(data@[pos + 1] == data@.subrange(pos as int, pos + 5)[1]);
            } else {
                let b = f->BulkString_0;
                let d = decimal(b.len());
                assert(wire(f)->0 =~= seq![DOLLAR] + (d + (crlf() + (b + crlf()))));
                lemma_bytes_at_split(data@, pos as int, seq![DOLLAR], d + (crlf() + (b + crlf())));
                lemma_bytes_at_split(data@, pos + 1, d, crlf() + (b + crlf()));
                lemma_bytes_at_split(data@, pos + 1 + d.len(), crlf(), b + crlf());
                lemma_bytes_at_split(data@, pos + 1 + d.len() + 2, b, crlf());
                let e = pos + 1 + d.len();
                assert(data@[e] == data@.subrange(e, e + 2)[0]);
            }
        }
    }
    let (n, p) = match parse_decimal(data, pos + 1) {
        Some(x) => x,
        None => {
            return Err(DecodeError::MalformedLength);
        },
    };
    if !crlf_at(data, p) {
        return Err(DecodeError::Truncated);
    }
    let q = p + 2;
    if n > (data.len() - q) as u64 || !crlf_at(data, q + n as usize) {
        return Err(DecodeError::Truncated);
    }
    let end = q + n as usize + 2;
    let mut payload: Vec<u8> = Vec::new();
    push_range(&mut payload, data, q, q + n as usize);
    assert(payload@ =~= data@.subrange(q as int, q + n));
    let g = RespFrame::BulkString(BulkString::new(payload));
    proof {
        assert(data@.subrange(pos as int, end as int) =~= seq![DOLLAR] + data@.subrange(
            pos + 1,
            p as int,
        ) + crlf() + data@.subrange(q as int, q + n) + crlf());
        assert(wire(g@)->0 =~= data@.subrange(pos as int, end as int));
        assert forall|f: FrameModel|
            decodable(f) && wire(f) is Some && #[trigger] bytes_at(data@, pos as int, wire(f)->0)
                && (f is BulkString || f is NullBulkString) implies g@ == f && end == pos + wire(
                f,
            )->0.len() by {
            let b = f->BulkString_0;
            assert(payload@ =~= b);
        }
    }
    Ok((g, end))
}

/// `#` then `t` or `f` and the terminator.
fn parse_boolean(data: &[u8], pos: usize) -> (r: Result<(RespFrame, usize), DecodeError>)
    requires
        pos < data@.len(),
        data@[pos as int] == HASH,
    ensures
        r matches Ok((g, end)) ==> {
            &&& pos < end <= data@.len()
            &&& wire(g@) == Some(data@.subrange(pos as int, end as int))
        },
        forall|f: FrameModel|
            decodable(f) && wire(f) is Some && #[trigger] bytes_at(data@, pos as int, wire(f)->0)
                && f is Boolean ==> (r matches Ok((g, end)) && g@ == f && end == pos + wire(
                f,
            )->0.len()),
{
    proof {
        assert forall|f: FrameModel|
            decodable(f) && wire(f) is Some && #[trigger] bytes_at(data@, pos as int, wire(f)->0)
                && f is Boolean implies {
                &&& pos + 4 <= data@.len()
                &&& data@[pos + 1] == if f->Boolean_0 { TRUE_MARK } else { FALSE_MARK }
                &&& data@[pos + 2] == CR
                &&& data@[pos + 3] == LF
            } by {
            let w = wire(f)->0;
            assert(w.len() == 4);
            assert(data@[pos + 1] == data@.subrange(pos as int, pos + 4)[1]);
            assert(data@[pos + 2] == data@.subrange(pos as int, pos + 4)[2]);
            assert(data@[pos + 3] == data@.subrange(pos as int, pos + 4)[3]);
        }
    }
    if data.len() - pos < 4 || data[pos + 2] != CR || data[pos + 3] != LF {
        return Err(DecodeError::Truncated);
    }
    let mark = data[pos + 1];
    if mark != TRUE_MARK && mark != FALSE_MARK {
        return Err(DecodeError::MalformedValue);
    }
    let g = RespFrame::Boolean(mark == TRUE_MARK);
    assert(wire(g@)->0 =~= data@.subrange(pos as int, pos + 4));
    Ok((g, pos + 4))
}

/// Parses `data` as exactly one frame. Succeeds only on the exact wire form
/// of the frame returned, and gives back every frame that `decodable`
/// admits from its wire form.
pub fn decode_frame(data: &[u8]) -> (r: Result<RespFrame, DecodeError>)
    ensures
        r matches Ok(g) ==> wire(g@) == Some(data@),
        forall|f: FrameModel|
            decodable(f) && #[trigger] wire(f) == Some(data@) ==> (r matches Ok(g) && g@ == f),
        data@.len() == 0 ==> r == Err::<RespFrame, DecodeError>(DecodeError::Truncated),
        data@.len() > 0 && !is_sigil(data@[0]) ==> r == Err::<RespFrame, DecodeError>(
            DecodeError::InvalidSigil,
        ),
        data@.len() > 0 && (data@[0] == PLUS || data@[0] == MINUS) && invalid_text_line(data@, 1)
            ==> r == Err::<RespFrame, DecodeError>(DecodeError::InvalidText),
{
    proof {
        assert(data@.subrange(0, data@.len() as int) =~= data@);
        assert forall|f: FrameModel| decodable(f) && #[trigger] wire(f) == Some(data@) implies bytes_at(
            data@,
            0,
            wire(f)->0,
        ) by {}
    }
    match parse_frame(data, 0) {
        Ok((g, end)) => {
            if end == data.len() {
                Ok(g)
            } else {
                Err(DecodeError::TrailingBytes)
            }
        },
        Err(e) => Err(e),
    }
}

/// A byte source that can be parsed back into one frame.
pub trait RespDecoder: Sized {
    /// The bytes that this source holds.
    spec fn wire_bytes(&self) -> Seq<u8>;

    /// Parses the bytes as exactly one frame: the frame whose wire form they
    /// are, for every frame that `decodable` admits. Empty input is
    /// `Truncated`, an unknown first byte `InvalidSigil`, and a simple string
    /// or error whose text is not UTF-8 `InvalidText`.
    fn decode(data: Self) -> (r: Result<RespFrame, DecodeError>)
        ensures
            r matches Ok(g) ==> wire(g@) == Some(data.wire_bytes()),
            forall|f: FrameModel|
                decodable(f) && #[trigger] wire(f) == Some(data.wire_bytes()) ==> (r matches Ok(g)
                    && g@ == f),
            data.wire_bytes().len() == 0 ==> r == Err::<RespFrame, DecodeError>(
                DecodeError::Truncated,
            ),
            data.wire_bytes().len() > 0 && !is_sigil(data.wire_bytes()[0]) ==> r == Err::<
                RespFrame,
                DecodeError,
            >(DecodeError::InvalidSigil),
            data.wire_bytes().len() > 0 && (data.wire_bytes()[0] == PLUS || data.wire_bytes()[0]
                == MINUS) && invalid_text_line(data.wire_bytes(), 1) ==> r == Err::<
                RespFrame,
                DecodeError,
            >(DecodeError::InvalidText),
    ;
}

impl RespDecoder for Vec<u8> {
    open spec fn wire_bytes(&self) -> Seq<u8> {
        self@
    }

    fn decode(data: Vec<u8>) -> (r: Result<RespFrame, DecodeError>) {
        decode_frame(data.as_slice())
    }
}

impl<'a> RespDecoder for &'a [u8] {
    open spec fn wire_bytes(&self) -> Seq<u8> {
        self@
    }

    fn decode(data: &'a [u8]) -> (r: Result<RespFrame, DecodeError>) {
        decode_frame(data)
    }
}

} // verus!
