//! The RESP wire format, stated over the mathematical model of frames.
use vstd::prelude::*;
use vstd::utf8::encode_utf8;

use crate::bytes::{crlf, CR, LF, ZERO};
use crate::decimal::{decimal, signed_decimal, MINUS, PLUS};
use crate::double::{above_1e8, double_text, exponential_text, DoubleModel};

verus! {

/// `:`
pub const COLON: u8 = 58;

/// `$`
pub const DOLLAR: u8 = 36;

/// `*`
pub const STAR: u8 = 42;

/// `#`
pub const HASH: u8 = 35;

/// `,`
pub const COMMA: u8 = 44;

/// `%`
pub const PERCENT: u8 = 37;

/// `~`
pub const TILDE: u8 = 126;

/// `1`
pub const ONE: u8 = 49;

/// `t`
pub const TRUE_MARK: u8 = 116;

/// `f`
pub const FALSE_MARK: u8 = 102;

/// What a frame holds, with text as characters, integers unbounded and
/// containers as sequences in the order in which they are written.
pub enum FrameModel {
    SimpleString(Seq<char>),
    Error(Seq<char>),
    Integer(int),
    BulkString(Seq<u8>),
    NullBulkString,
    Array(Seq<FrameModel>),
    Null,
    NullArray,
    Boolean(bool),
    Double(DoubleModel),
    RespMap(Seq<(Seq<char>, FrameModel)>),
    RespSet(Seq<FrameModel>),
}

/// A sigil, the UTF-8 bytes of `text`, and the terminator.
pub open spec fn text_line(sigil: u8, text: Seq<char>) -> Seq<u8> {
    seq![sigil] + encode_utf8(text) + crlf()
}

/// A sigil, the decimal count `n`, and the terminator.
pub open spec fn count_line(sigil: u8, n: nat) -> Seq<u8> {
    seq![sigil] + decimal(n) + crlf()
}

/// The wire bytes of a frame, or `None` for the variants that have no wire
/// form (`Null` and `NullArray`, alone or anywhere inside a container).
pub open spec fn wire(f: FrameModel) -> Option<Seq<u8>>
    decreases f,
{
    match f {
        FrameModel::SimpleString(s) => Some(text_line(PLUS, s)),
        FrameModel::Error(s) => Some(text_line(MINUS, s)),
        FrameModel::Integer(i) => Some(seq![COLON] + signed_decimal(i) + crlf()),
        FrameModel::BulkString(b) => Some(count_line(DOLLAR, b.len()) + b + crlf()),
        FrameModel::NullBulkString => Some(seq![DOLLAR, MINUS, ONE, CR, LF]),
        FrameModel::Array(items) => match wire_all(items) {
            Some(body) => Some(count_line(STAR, items.len()) + body),
            None => None,
        },
        FrameModel::Null => None,
        FrameModel::NullArray => None,
        FrameModel::Boolean(b) => Some(seq![HASH, if b { TRUE_MARK } else { FALSE_MARK }] + crlf()),
        FrameModel::Double(d) => Some(seq![COMMA] + double_text(d) + crlf()),
        FrameModel::RespMap(entries) => match wire_entries(entries) {
            Some(body) => Some(count_line(PERCENT, entries.len()) + body),
            None => None,
        },
        FrameModel::RespSet(items) => match wire_all(items) {
            Some(body) => Some(count_line(TILDE, items.len()) + body),
            None => None,
        },
    }
}

/// The wire bytes of each frame in turn, or `None` if one has none.
pub open spec fn wire_all(items: Seq<FrameModel>) -> Option<Seq<u8>>
    decreases items,
{
    if items.len() == 0 {
        Some(Seq::empty())
    } else {
        match (wire_all(items.subrange(0, items.len() - 1)), wire(items[items.len() - 1])) {
            (Some(a), Some(b)) => Some(a + b),
            _ => None,
        }
    }
}

/// Each entry in turn, as its key written as a simple string followed by its
/// value; `None` if a value has no wire form.
pub open spec fn wire_entries(entries: Seq<(Seq<char>, FrameModel)>) -> Option<Seq<u8>>
    decreases entries,
{
    if entries.len() == 0 {
        Some(Seq::empty())
    } else {
        let last = entries[entries.len() - 1];
        match (wire_entries(entries.subrange(0, entries.len() - 1)), wire(last.1)) {
            (Some(a), Some(b)) => Some(a + text_line(PLUS, last.0) + b),
            _ => None,
        }
    }
}

/// If a sequence of frames has wire bytes, so has each of its prefixes.
pub proof fn lemma_wire_all_prefix(s: Seq<FrameModel>, j: int)
    requires
        0 <= j <= s.len(),
        wire_all(s) is Some,
    ensures
        wire_all(s.subrange(0, j)) is Some,
    decreases s.len(),
{
    if j < s.len() {
        let init = s.subrange(0, s.len() - 1);
        lemma_wire_all_prefix(init, j);
        assert(init.subrange(0, j) =~= s.subrange(0, j));
    } else {
        assert(s.subrange(0, j) =~= s);
    }
}

/// If a sequence of map entries has wire bytes, so has each of its prefixes.
pub proof fn lemma_wire_entries_prefix(s: Seq<(Seq<char>, FrameModel)>, j: int)
    requires
        0 <= j <= s.len(),
        wire_entries(s) is Some,
    ensures
        wire_entries(s.subrange(0, j)) is Some,
    decreases s.len(),
{
    if j < s.len() {
        let init = s.subrange(0, s.len() - 1);
        lemma_wire_entries_prefix(init, j);
        assert(init.subrange(0, j) =~= s.subrange(0, j));
    } else {
        assert(s.subrange(0, j) =~= s);
    }
}

/// `Null` and `NullArray` have no wire form: encoding them is reported as
/// unsupported, and so is encoding any array, set or map that holds one at
/// any position.
pub proof fn lemma_unsupported_is_reported(items: Seq<FrameModel>, i: int)
    requires
        0 <= i < items.len(),
        items[i] == FrameModel::Null || items[i] == FrameModel::NullArray,
    ensures
        wire(FrameModel::Null) is None,
        wire(FrameModel::NullArray) is None,
        wire(FrameModel::Array(items)) is None,
        wire(FrameModel::RespSet(items)) is None,
{
    let prefix = items.subrange(0, i + 1);
    assert(prefix.subrange(0, i) =~= items.subrange(0, i));
    assert(prefix[i] == items[i]);
    assert(wire_all(prefix) is None);
    if wire_all(items) is Some {
        lemma_wire_all_prefix(items, i + 1);
    }
}

/// A map with a `Null` or `NullArray` value at any position is reported as
/// unsupported.
pub proof fn lemma_unsupported_value_is_reported(entries: Seq<(Seq<char>, FrameModel)>, i: int)
    requires
        0 <= i < entries.len(),
        entries[i].1 == FrameModel::Null || entries[i].1 == FrameModel::NullArray,
    ensures
        wire(FrameModel::RespMap(entries)) is None,
{
    let prefix = entries.subrange(0, i + 1);
    assert(prefix.subrange(0, i) =~= entries.subrange(0, i));
    assert(prefix[i] == entries[i]);
    assert(wire(entries[i].1) is None);
    assert(wire_entries(prefix) is None);
    if wire_entries(entries) is Some {
        lemma_wire_entries_prefix(entries, i + 1);
    }
}

/// An empty array, map or set is its sigil, the count `0` and the
/// terminator, with nothing after.
pub proof fn lemma_empty_containers()
    ensures
        wire(FrameModel::Array(Seq::empty())) == Some(seq![STAR, ZERO, CR, LF]),
        wire(FrameModel::RespMap(Seq::empty())) == Some(seq![PERCENT, ZERO, CR, LF]),
        wire(FrameModel::RespSet(Seq::empty())) == Some(seq![TILDE, ZERO, CR, LF]),
{
    assert(decimal(0) == seq![ZERO]);
    assert(count_line(STAR, 0) + Seq::<u8>::empty() =~= seq![STAR, ZERO, CR, LF]);
    assert(count_line(PERCENT, 0) + Seq::<u8>::empty() =~= seq![PERCENT, ZERO, CR, LF]);
    assert(count_line(TILDE, 0) + Seq::<u8>::empty() =~= seq![TILDE, ZERO, CR, LF]);
}

/// An integer is written with an explicit sign, `+` for zero and positive
/// values, then its decimal digits.
pub proof fn lemma_integer_sign(i: int)
    ensures
        wire(FrameModel::Integer(i)) is Some,
        wire(FrameModel::Integer(i))->0[0] == COLON,
        wire(FrameModel::Integer(i))->0[1] == if i < 0 { MINUS } else { PLUS },
        wire(FrameModel::Integer(i))->0.subrange(2, wire(FrameModel::Integer(i))->0.len() - 2)
            == decimal(if i < 0 { -i } else { i } as nat),
{
    let w = wire(FrameModel::Integer(i))->0;
    let magnitude = if i < 0 { -i } else { i } as nat;
    assert(w =~= seq![COLON, if i < 0 { MINUS } else { PLUS }] + decimal(magnitude) + crlf());
    assert(w.subrange(2, w.len() - 2) =~= decimal(magnitude));
}

/// A double above `1e8` in magnitude is written in exponential notation,
/// after an explicit sign.
pub proof fn lemma_large_double_exponential(d: DoubleModel)
    requires
        above_1e8(d.digits, d.exponent),
    ensures
        wire(FrameModel::Double(d)) == Some(
            seq![COMMA, if d.negative { MINUS } else { PLUS }] + exponential_text(
                d.digits,
                d.exponent,
            ) + crlf(),
        ),
{
    assert(wire(FrameModel::Double(d))->0 =~= seq![COMMA, if d.negative { MINUS } else { PLUS }]
        + exponential_text(d.digits, d.exponent) + crlf());
}

} // verus!
