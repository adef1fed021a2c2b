//! The frame types that the protocol carries, and their models.
use vstd::prelude::*;

use crate::bytes::{bytes_equal, push_crlf, push_slice, text_equal, CR, LF};
use crate::decimal::{push_decimal, push_signed_decimal, MINUS, PLUS};
use crate::double::RespDouble;
use crate::wire::{
    lemma_wire_all_prefix, lemma_wire_entries_prefix, text_line, wire, wire_all, wire_entries,
    FrameModel, COLON, COMMA, DOLLAR, FALSE_MARK, HASH, ONE, PERCENT, STAR, TILDE, TRUE_MARK,
};

verus! {

/// A protocol value. Containers nest to any depth.
#[derive(Debug)]
pub enum RespFrame {
    SimpleString(SimpleString),
    Error(SimpleError),
    Integer(i64),
    BulkString(BulkString),
    NullBulkString(RespNullBulkString),
    Array(Vec<RespFrame>),
    Null(RespNull),
    NullArray(RespNullArray),
    Boolean(bool),
    Double(RespDouble),
    RespMap(RespMap),
    RespSet(RespSet),
}

/// Text without CR or LF; the encoder does not check this.
#[derive(Debug)]
pub struct SimpleString(pub String);

/// Error text without CR or LF; the encoder does not check this.
#[derive(Debug)]
pub struct SimpleError(pub String);

/// A binary-safe byte payload.
#[derive(Debug)]
pub struct BulkString(pub Vec<u8>);

/// The null value.
#[derive(Debug)]
pub struct RespNull;

/// An ordered sequence of frames.
#[derive(Debug)]
pub struct RespArray(pub Vec<RespFrame>);

/// The legacy null array.
#[derive(Debug)]
pub struct RespNullArray;

/// The null bulk string.
#[derive(Debug)]
pub struct RespNullBulkString;

/// Entries from text keys to frames, with no key twice, in insertion order.
#[derive(Debug)]
pub struct RespMap(Vec<(String, RespFrame)>);

/// Frames with no two structurally equal, in insertion order.
#[derive(Debug)]
pub struct RespSet(Vec<RespFrame>);

/// The model of a frame.
pub open spec fn model_of(f: RespFrame) -> FrameModel
    decreases f,
{
    match f {
        RespFrame::SimpleString(s) => FrameModel::SimpleString(s@),
        RespFrame::Error(e) => FrameModel::Error(e@),
        RespFrame::Integer(i) => FrameModel::Integer(i as int),
        RespFrame::BulkString(b) => FrameModel::BulkString(b@),
        RespFrame::NullBulkString(_) => FrameModel::NullBulkString,
        RespFrame::Array(v) => FrameModel::Array(models_of(v@)),
        RespFrame::Null(_) => FrameModel::Null,
        RespFrame::NullArray(_) => FrameModel::NullArray,
        RespFrame::Boolean(b) => FrameModel::Boolean(b),
        RespFrame::Double(d) => FrameModel::Double(d@),
        RespFrame::RespMap(m) => FrameModel::RespMap(map_model(m)),
        RespFrame::RespSet(s) => FrameModel::RespSet(set_model(s)),
    }
}

/// The entries of a map, in order.
pub closed spec fn map_model(m: RespMap) -> Seq<(Seq<char>, FrameModel)>
    decreases m,
{
    entry_models(m.0@)
}

/// The members of a set, in order.
pub closed spec fn set_model(s: RespSet) -> Seq<FrameModel>
    decreases s,
{
    models_of(s.0@)
}

/// The models of a sequence of frames.
pub open spec fn models_of(s: Seq<RespFrame>) -> Seq<FrameModel>
    decreases s,
{
    if s.len() == 0 {
        Seq::empty()
    } else {
        models_of(s.subrange(0, s.len() - 1)).push(model_of(s[s.len() - 1]))
    }
}

/// The models of a sequence of map entries.
pub open spec fn entry_models(s: Seq<(String, RespFrame)>) -> Seq<(Seq<char>, FrameModel)>
    decreases s,
{
    if s.len() == 0 {
        Seq::empty()
    } else {
        let last = s[s.len() - 1];
        entry_models(s.subrange(0, s.len() - 1)).push((last.0@, model_of(last.1)))
    }
}

impl View for RespFrame {
    type V = FrameModel;

    open spec fn view(&self) -> FrameModel {
        model_of(*self)
    }
}

impl View for SimpleString {
    type V = Seq<char>;

    open spec fn view(&self) -> Seq<char> {
        self.0@
    }
}

impl View for SimpleError {
    type V = Seq<char>;

    open spec fn view(&self) -> Seq<char> {
        self.0@
    }
}

impl View for BulkString {
    type V = Seq<u8>;

    open spec fn view(&self) -> Seq<u8> {
        self.0@
    }
}

impl View for RespArray {
    type V = Seq<FrameModel>;

    open spec fn view(&self) -> Seq<FrameModel> {
        models_of(self.0@)
    }
}

impl View for RespMap {
    type V = Seq<(Seq<char>, FrameModel)>;

    open spec fn view(&self) -> Seq<(Seq<char>, FrameModel)> {
        map_model(*self)
    }
}

impl View for RespSet {
    type V = Seq<FrameModel>;

    open spec fn view(&self) -> Seq<FrameModel> {
        set_model(*self)
    }
}

impl SimpleString {
    pub fn new(s: String) -> (r: Self)
        ensures
            r@ == s@,
    {
        SimpleString(s)
    }
}

impl SimpleError {
    pub fn new(s: String) -> (r: Self)
        ensures
            r@ == s@,
    {
        SimpleError(s)
    }
}

impl BulkString {
    pub fn new(bytes: Vec<u8>) -> (r: Self)
        ensures
            r@ == bytes@,
    {
        BulkString(bytes)
    }
}

impl RespArray {
    pub fn new(frames: Vec<RespFrame>) -> (r: Self)
        ensures
            r@ == models_of(frames@),
    {
        RespArray(frames)
    }
}

impl RespMap {
    #[verifier::type_invariant]
    spec fn keys_unique(self) -> bool {
        forall|i: int, j: int|
            0 <= i < j < self.0@.len() ==> #[trigger] self.0@[i].0@ != #[trigger] self.0@[j].0@
    }

    /// An empty map.
    pub fn new() -> (r: Self)
        ensures
            r@ == Seq::<(Seq<char>, FrameModel)>::empty(),
    {
        RespMap(Vec::new())
    }

    /// The number of entries.
    pub fn len(&self) -> (r: usize)
        ensures
            r == self@.len(),
    {
        proof {
            lemma_entry_models(self.0@);
        }
        self.0.len()
    }

    /// The entries, in order; no key occurs in two of them.
    pub fn entries(&self) -> (r: &Vec<(String, RespFrame)>)
        ensures
            entry_models(r@) == self@,
            forall|i: int, j: int| 0 <= i < j < r@.len() ==> #[trigger] r@[i].0@ != #[trigger] r@[j].0@,
    {
        proof {
            use_type_invariant(self);
        }
        &self.0
    }

    /// Sets the value of `key`: in place where the key is present, else as a
    /// new last entry.
    pub fn insert(&mut self, key: String, value: RespFrame)
        ensures
            forall|i: int|
                0 <= i < old(self)@.len() && #[trigger] old(self)@[i].0 == key@ ==> final(self)@
                    == old(self)@.update(i, (key@, value@)),
            (forall|i: int| 0 <= i < old(self)@.len() ==> #[trigger] old(self)@[i].0 != key@)
                ==> final(self)@ == old(self)@.push((key@, value@)),
    {
        proof {
            use_type_invariant(&*self);
            lemma_entry_models(self.0@);
        }
        let ghost before = self.0@;
        let mut taken = RespMap(Vec::new());
        core::mem::swap(self, &mut taken);
        let mut entries = taken.0;
        let mut i: usize = 0;
        while i < entries.len()
            invariant
                i <= before.len(),
                entries@ == before,
                before == old(self).0@,
                forall|a: int, b: int|
                    0 <= a < b < before.len() ==> #[trigger] before[a].0@ != #[trigger] before[b].0@,
                forall|j: int| 0 <= j < i ==> #[trigger] before[j].0@ != key@,
            decreases before.len() - i,
        {
            if text_equal(&entries[i].0, &key) {
                let entry = (key, value);
                entries.set(i, entry);
                assert forall|a: int, b: int| 0 <= a < b < entries@.len() implies #[trigger] entries@[a].0@
                    != #[trigger] entries@[b].0@ by {
                    assert(before[a].0@ != before[b].0@);
                }
                *self = RespMap(entries);
                proof {
                    lemma_entry_models(self.0@);
                    lemma_entry_models(before);
                    assert(before[i as int].0@ == key@);
                    assert(old(self)@ == entry_models(before));
                    assert(old(self)@[i as int].0 == key@);
                    assert forall|j: int|
                        0 <= j < before.len() && #[trigger] entry_models(before)[j].0 == key@
                    implies j == i by {
                        if j != i {
                            assert(before[j].0@ == before[i as int].0@);
                        }
                    }
                    assert(entry_models(self.0@) =~= entry_models(before).update(
                        i as int,
                        (key@, value@),
                    ));
                }
                return;
            }
            i = i + 1;
        }
        entries.push((key, value));
        assert forall|a: int, b: int| 0 <= a < b < entries@.len() implies #[trigger] entries@[a].0@
            != #[trigger] entries@[b].0@ by {
            if b < before.len() {
                assert(before[a].0@ != before[b].0@);
            }
        }
        *self = RespMap(entries);
        proof {
            lemma_entry_models(self.0@);
            lemma_entry_models(before);
            assert(entry_models(self.0@) =~= entry_models(before).push((key@, value@)));
        }
    }
}

impl RespSet {
    #[verifier::type_invariant]
    spec fn members_unique(self) -> bool {
        forall|i: int, j: int|
            0 <= i < j < self.0@.len() ==> model_of(#[trigger] self.0@[i]) != model_of(
                #[trigger] self.0@[j],
            )
    }

    /// An empty set.
    pub fn new() -> (r: Self)
        ensures
            r@ == Seq::<FrameModel>::empty(),
    {
        RespSet(Vec::new())
    }

    /// The number of members.
    pub fn len(&self) -> (r: usize)
        ensures
            r == self@.len(),
    {
        proof {
            lemma_models_of(self.0@);
        }
        self.0.len()
    }

    /// The members, in order; no two of them are structurally equal.
    pub fn members(&self) -> (r: &Vec<RespFrame>)
        ensures
            models_of(r@) == self@,
            forall|i: int, j: int|
                0 <= i < j < r@.len() ==> #[trigger] r@[i]@ != #[trigger] r@[j]@,
    {
        proof {
            use_type_invariant(self);
        }
        &self.0
    }

    /// Adds `frame` as the last member unless a structurally equal member is
    /// present; returns whether it was added.
    pub fn insert(&mut self, frame: RespFrame) -> (added: bool)
        ensures
            added == !old(self)@.contains(frame@),
            added ==> final(self)@ == old(self)@.push(frame@),
            !added ==> final(self)@ == old(self)@,
    {
        proof {
            use_type_invariant(&*self);
            lemma_models_of(self.0@);
        }
        let ghost before = self.0@;
        let mut taken = RespSet(Vec::new());
        core::mem::swap(self, &mut taken);
        let mut members = taken.0;
        let mut i: usize = 0;
        while i < members.len()
            invariant
                i <= before.len(),
                members@ == before,
                before == old(self).0@,
                forall|a: int, b: int|
                    0 <= a < b < before.len() ==> model_of(#[trigger] before[a]) != model_of(
                        #[trigger] before[b],
                    ),
                models_of(before).len() == before.len(),
                forall|j: int|
                    0 <= j < before.len() ==> #[trigger] models_of(before)[j] == model_of(
                        before[j],
                    ),
                forall|j: int| 0 <= j < i ==> model_of(#[trigger] before[j]) != frame@,
            decreases before.len() - i,
        {
            if frames_equal(&members[i], &frame) {
                assert(models_of(before)[i as int] == frame@);
                assert(old(self)@ == models_of(before));
                *self = RespSet(members);
                return false;
            }
            i = i + 1;
        }
        assert(!models_of(before).contains(frame@)) by {
            if models_of(before).contains(frame@) {
                let k = choose|k: int| 0 <= k < before.len() && models_of(before)[k] == frame@;
                assert(model_of(before[k]) == frame@);
            }
        }
        members.push(frame);
        assert forall|a: int, b: int| 0 <= a < b < members@.len() implies model_of(
            #[trigger] members@[a],
        ) != model_of(#[trigger] members@[b]) by {
            if b < before.len() {
                assert(model_of(before[a]) != model_of(before[b]));
            }
        }
        *self = RespSet(members);
        proof {
            lemma_models_of(self.0@);
            assert(models_of(self.0@) =~= models_of(before).push(frame@));
        }
        true
    }
}

pub proof fn lemma_models_of(s: Seq<RespFrame>)
    ensures
        models_of(s).len() == s.len(),
        forall|i: int| 0 <= i < s.len() ==> #[trigger] models_of(s)[i] == model_of(s[i]),
    decreases s.len(),
{
    if s.len() > 0 {
        lemma_models_of(s.subrange(0, s.len() - 1));
    }
}

pub proof fn lemma_entry_models(s: Seq<(String, RespFrame)>)
    ensures
        entry_models(s).len() == s.len(),
        forall|i: int|
            0 <= i < s.len() ==> #[trigger] entry_models(s)[i] == (s[i].0@, model_of(s[i].1)),
    decreases s.len(),
{
    if s.len() > 0 {
        lemma_entry_models(s.subrange(0, s.len() - 1));
    }
}

/// Appends `sigil`, the UTF-8 bytes of `text` and the terminator to `buf`.
fn write_text_line(buf: &mut Vec<u8>, sigil: u8, text: &String)
    ensures
        final(buf)@ == old(buf)@ + text_line(sigil, text@),
{
    buf.push(sigil);
    push_slice(buf, text.as_str().as_bytes());
    push_crlf(buf);
    assert(buf@ =~= old(buf)@ + text_line(sigil, text@));
}

/// Appends a count line and the wire bytes of each frame of `items` to
/// `buf`; false when one of them has no wire form.
fn write_sequence(buf: &mut Vec<u8>, sigil: u8, items: &Vec<RespFrame>) -> (ok: bool)
    ensures
        models_of(items@).len() == items@.len(),
        ok == wire_all(models_of(items@)) is Some,
        ok ==> final(buf)@ == old(buf)@ + crate::wire::count_line(sigil, items@.len())
            + wire_all(models_of(items@))->0,
    decreases items,
{
    let ghost ms = models_of(items@);
    proof {
        lemma_models_of(items@);
    }
    buf.push(sigil);
    push_decimal(buf, items.len() as u64);
    push_crlf(buf);
    let ghost head = buf@;
    assert(head =~= old(buf)@ + crate::wire::count_line(sigil, items@.len()));
    assert(ms.subrange(0, 0) =~= Seq::<FrameModel>::empty());
    let mut i: usize = 0;
    while i < items.len()
        invariant
            i <= items@.len(),
            ms == models_of(items@),
            ms.len() == items@.len(),
            forall|j: int| 0 <= j < items@.len() ==> #[trigger] ms[j] == model_of(items@[j]),
            wire_all(ms.subrange(0, i as int)) is Some,
            buf@ == head + wire_all(ms.subrange(0, i as int))->0,
        decreases items@.len() - i,
    {
        let ok = write_frame(&items[i], buf);
        assert(ms.subrange(0, i + 1).subrange(0, i as int) =~= ms.subrange(0, i as int));
        if !ok {
            proof {
                if wire_all(ms) is Some {
                    lemma_wire_all_prefix(ms, i + 1);
                }
            }
            return false;
        }
        i = i + 1;
        assert(buf@ =~= head + wire_all(ms.subrange(0, i as int))->0);
    }
    assert(ms.subrange(0, items@.len() as int) =~= ms);
    true
}

/// Appends a count line and each entry of `entries`, key then value, to
/// `buf`; false when a value has no wire form.
fn write_entries(buf: &mut Vec<u8>, entries: &Vec<(String, RespFrame)>) -> (ok: bool)
    ensures
        entry_models(entries@).len() == entries@.len(),
        ok == wire_entries(entry_models(entries@)) is Some,
        ok ==> final(buf)@ == old(buf)@ + crate::wire::count_line(PERCENT, entries@.len())
            + wire_entries(entry_models(entries@))->0,
    decreases entries,
{
    let ghost ms = entry_models(entries@);
    proof {
        lemma_entry_models(entries@);
    }
    buf.push(PERCENT);
    push_decimal(buf, entries.len() as u64);
    push_crlf(buf);
    let ghost head = buf@;
    assert(head =~= old(buf)@ + crate::wire::count_line(PERCENT, entries@.len()));
    assert(ms.subrange(0, 0) =~= Seq::<(Seq<char>, FrameModel)>::empty());
    let mut i: usize = 0;
    while i < entries.len()
        invariant
            i <= entries@.len(),
            ms == entry_models(entries@),
            ms.len() == entries@.len(),
            forall|j: int|
                0 <= j < entries@.len() ==> #[trigger] ms[j] == (
                entries@[j].0@,
                model_of(entries@[j].1),
            ),
            wire_entries(ms.subrange(0, i as int)) is Some,
            buf@ == head + wire_entries(ms.subrange(0, i as int))->0,
        decreases entries@.len() - i,
    {
        let entry = &entries[i];
        write_text_line(buf, PLUS, &entry.0);
        proof {
            assert(decreases_to!(entries => entries@[i as int]));
        }
        let ok = write_frame(&entry.1, buf);
        assert(ms.subrange(0, i + 1).subrange(0, i as int) =~= ms.subrange(0, i as int));
        if !ok {
            proof {
                if wire_entries(ms) is Some {
                    lemma_wire_entries_prefix(ms, i + 1);
                }
            }
            return false;
        }
        i = i + 1;
        assert(buf@ =~= head + wire_entries(ms.subrange(0, i as int))->0);
    }
    assert(ms.subrange(0, entries@.len() as int) =~= ms);
    true
}

/// Appends the wire bytes of `f` to `buf`. Returns false when `f` has no
/// wire form; what `buf` then holds is unspecified.
pub(crate) fn write_frame(f: &RespFrame, buf: &mut Vec<u8>) -> (ok: bool)
    ensures
        ok == wire(f@) is Some,
        ok ==> final(buf)@ == old(buf)@ + wire(f@)->0,
    decreases f,
{
    match f {
        RespFrame::SimpleString(s) => {
            write_text_line(buf, PLUS, &s.0);
            true
        },
        RespFrame::Error(e) => {
            write_text_line(buf, MINUS, &e.0);
            true
        },
        RespFrame::Integer(i) => {
            buf.push(COLON);
            push_signed_decimal(buf, *i);
            push_crlf(buf);
            assert(buf@ =~= old(buf)@ + wire(f@)->0);
            true
        },
        RespFrame::BulkString(b) => {
            buf.push(DOLLAR);
            push_decimal(buf, b.0.len() as u64);
            push_crlf(buf);
            push_slice(buf, b.0.as_slice());
            push_crlf(buf);
            assert(buf@ =~= old(buf)@ + wire(f@)->0);
            true
        },
        RespFrame::NullBulkString(_) => {
            buf.push(DOLLAR);
            buf.push(MINUS);
            buf.push(ONE);
            buf.push(CR);
            buf.push(LF);
            assert(buf@ =~= old(buf)@ + wire(f@)->0);
            true
        },
        RespFrame::Array(items) => write_sequence(buf, STAR, items),
        RespFrame::Null(_) => false,
        RespFrame::NullArray(_) => false,
        RespFrame::Boolean(b) => {
            buf.push(HASH);
            buf.push(if *b { TRUE_MARK } else { FALSE_MARK });
            push_crlf(buf);
            assert(buf@ =~= old(buf)@ + wire(f@)->0);
            true
        },
        RespFrame::Double(d) => {
            buf.push(COMMA);
            d.write_text(buf);
            push_crlf(buf);
            assert(buf@ =~= old(buf)@ + wire(f@)->0);
            true
        },
        RespFrame::RespMap(m) => write_entries(buf, &m.0),
        RespFrame::RespSet(s) => write_sequence(buf, TILDE, &s.0),
    }
}

/// Whether `a` and `b` are structurally equal: the same variant holding
/// equal payloads, compared member by member through containers (maps and
/// sets compare their entries in order).
pub fn frames_equal(a: &RespFrame, b: &RespFrame) -> (r: bool)
    ensures
        r == (a@ == b@),
    decreases a,
{
    match (a, b) {
        (RespFrame::SimpleString(x), RespFrame::SimpleString(y)) => text_equal(&x.0, &y.0),
        (RespFrame::Error(x), RespFrame::Error(y)) => text_equal(&x.0, &y.0),
        (RespFrame::Integer(x), RespFrame::Integer(y)) => *x == *y,
        (RespFrame::BulkString(x), RespFrame::BulkString(y)) => bytes_equal(
            x.0.as_slice(),
            y.0.as_slice(),
        ),
        (RespFrame::NullBulkString(_), RespFrame::NullBulkString(_)) => true,
        (RespFrame::Array(x), RespFrame::Array(y)) => sequences_equal(x, y),
        (RespFrame::Null(_), RespFrame::Null(_)) => true,
        (RespFrame::NullArray(_), RespFrame::NullArray(_)) => true,
        (RespFrame::Boolean(x), RespFrame::Boolean(y)) => *x == *y,
        (RespFrame::Double(x), RespFrame::Double(y)) => x.same_as(y),
        (RespFrame::RespMap(x), RespFrame::RespMap(y)) => entries_equal(&x.0, &y.0),
        (RespFrame::RespSet(x), RespFrame::RespSet(y)) => sequences_equal(&x.0, &y.0),
        _ => false,
    }
}

/// Whether `a` and `b` hold structurally equal frames, in the same order.
fn sequences_equal(a: &Vec<RespFrame>, b: &Vec<RespFrame>) -> (r: bool)
    ensures
        r == (models_of(a@) == models_of(b@)),
    decreases a,
{
    proof {
        lemma_models_of(a@);
        lemma_models_of(b@);
    }
    if a.len() != b.len() {
        return false;
    }
    let mut i: usize = 0;
    while i < a.len()
        invariant
            i <= a@.len(),
            a@.len() == b@.len(),
            models_of(a@).len() == a@.len(),
            models_of(b@).len() == b@.len(),
            forall|j: int| 0 <= j < a@.len() ==> #[trigger] models_of(a@)[j] == model_of(a@[j]),
            forall|j: int| 0 <= j < b@.len() ==> #[trigger] models_of(b@)[j] == model_of(b@[j]),
            forall|j: int| 0 <= j < i ==> models_of(a@)[j] == models_of(b@)[j],
        decreases a@.len() - i,
    {
        if !frames_equal(&a[i], &b[i]) {
            assert(models_of(a@)[i as int] != models_of(b@)[i as int]);
            return false;
        }
        i = i + 1;
    }
    assert(models_of(a@) =~= models_of(b@));
    true
}

/// Whether `a` and `b` hold equal keys with structurally equal values, in
/// the same order.
fn entries_equal(a: &Vec<(String, RespFrame)>, b: &Vec<(String, RespFrame)>) -> (r: bool)
    ensures
        r == (entry_models(a@) == entry_models(b@)),
    decreases a,
{
    proof {
        lemma_entry_models(a@);
        lemma_entry_models(b@);
    }
    if a.len() != b.len() {
        return false;
    }
    let mut i: usize = 0;
    while i < a.len()
        invariant
            i <= a@.len(),
            a@.len() == b@.len(),
            entry_models(a@).len() == a@.len(),
            entry_models(b@).len() == b@.len(),
            forall|j: int|
                0 <= j < a@.len() ==> #[trigger] entry_models(a@)[j] == (
                a@[j].0@,
                model_of(a@[j].1),
            ),
            forall|j: int|
                0 <= j < b@.len() ==> #[trigger] entry_models(b@)[j] == (
                b@[j].0@,
                model_of(b@[j].1),
            ),
            forall|j: int| 0 <= j < i ==> entry_models(a@)[j] == entry_models(b@)[j],
        decreases a@.len() - i,
    {
        let x = &a[i];
        let y = &b[i];
        if !text_equal(&x.0, &y.0) {
            assert(entry_models(a@)[i as int] != entry_models(b@)[i as int]);
            return false;
        }
        proof {
            assert(decreases_to!(a => a@[i as int]));
        }
        if !frames_equal(&x.1, &y.1) {
            assert(entry_models(a@)[i as int] != entry_models(b@)[i as int]);
            return false;
        }
        i = i + 1;
    }
    assert(entry_models(a@) =~= entry_models(b@));
    true
}

} // verus!
