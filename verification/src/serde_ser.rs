//! The byte-level core of the serializer backend: formatters that decide the
//! whitespace around JSON structural tokens, and a serializer that writes
//! scalars and tokens into an output buffer.

use vstd::prelude::*;
use vstd::string::*;
use vstd::utf8::encode_utf8;
use crate::bytes::append_all;
use crate::serialize::{
    bool_text, int_text, int_to_text, json_string, null_text, uint_to_text, write_str_escape,
};

verus! {

/// The structural events that a formatter renders.
pub enum FormatEvent {
    BeginArray,
    EndArray,
    /// Before an array item; `true` for the first one.
    BeginArrayValue(bool),
    EndArrayValue,
    BeginObject,
    EndObject,
    /// Before an object key; `true` for the first one.
    BeginObjectKey(bool),
    EndObjectKey,
    BeginObjectValue,
    EndObjectValue,
}

/// Controls the whitespace emitted around JSON structural tokens.
///
/// Each method renders one [`FormatEvent`]: what it appends and the
/// formatter's state after it are given by [`Formatter::step`].
pub trait Formatter: Sized {
    /// Whether the event `ev` can be rendered in this state.
    spec fn can_step(&self, ev: FormatEvent) -> bool;

    /// The state after rendering `ev`, and the bytes it renders.
    spec fn step(&self, ev: FormatEvent) -> (Self, Seq<u8>);

    fn begin_array(&mut self, w: &mut Vec<u8>)
        requires
            old(self).can_step(FormatEvent::BeginArray),
        ensures
            (*final(self), final(w)@) == ({
                let (s, b) = old(self).step(FormatEvent::BeginArray);
                (s, old(w)@ + b)
            }),
    ;

    fn end_array(&mut self, w: &mut Vec<u8>)
        requires
            old(self).can_step(FormatEvent::EndArray),
        ensures
            (*final(self), final(w)@) == ({
                let (s, b) = old(self).step(FormatEvent::EndArray);
                (s, old(w)@ + b)
            }),
    ;

    fn begin_array_value(&mut self, w: &mut Vec<u8>, first: bool)
        requires
            old(self).can_step(FormatEvent::BeginArrayValue(first)),
        ensures
            (*final(self), final(w)@) == ({
                let (s, b) = old(self).step(FormatEvent::BeginArrayValue(first));
                (s, old(w)@ + b)
            }),
    ;

    fn end_array_value(&mut self, w: &mut Vec<u8>)
        requires
            old(self).can_step(FormatEvent::EndArrayValue),
        ensures
            (*final(self), final(w)@) == ({
                let (s, b) = old(self).step(FormatEvent::EndArrayValue);
                (s, old(w)@ + b)
            }),
    ;

    fn begin_object(&mut self, w: &mut Vec<u8>)
        requires
            old(self).can_step(FormatEvent::BeginObject),
        ensures
            (*final(self), final(w)@) == ({
                let (s, b) = old(self).step(FormatEvent::BeginObject);
                (s, old(w)@ + b)
            }),
    ;

    fn end_object(&mut self, w: &mut Vec<u8>)
        requires
            old(self).can_step(FormatEvent::EndObject),
        ensures
            (*final(self), final(w)@) == ({
                let (s, b) = old(self).step(FormatEvent::EndObject);
                (s, old(w)@ + b)
            }),
    ;

    fn begin_object_key(&mut self, w: &mut Vec<u8>, first: bool)
        requires
            old(self).can_step(FormatEvent::BeginObjectKey(first)),
        ensures
            (*final(self), final(w)@) == ({
                let (s, b) = old(self).step(FormatEvent::BeginObjectKey(first));
                (s, old(w)@ + b)
            }),
    ;

    fn end_object_key(&mut self, w: &mut Vec<u8>)
        requires
            old(self).can_step(FormatEvent::EndObjectKey),
        ensures
            (*final(self), final(w)@) == ({
                let (s, b) = old(self).step(FormatEvent::EndObjectKey);
                (s, old(w)@ + b)
            }),
    ;

    fn begin_object_value(&mut self, w: &mut Vec<u8>)
        requires
            old(self).can_step(FormatEvent::BeginObjectValue),
        ensures
            (*final(self), final(w)@) == ({
                let (s, b) = old(self).step(FormatEvent::BeginObjectValue);
                (s, old(w)@ + b)
            }),
    ;

    fn end_object_value(&mut self, w: &mut Vec<u8>)
        requires
            old(self).can_step(FormatEvent::EndObjectValue),
        ensures
            (*final(self), final(w)@) == ({
                let (s, b) = old(self).step(FormatEvent::EndObjectValue);
                (s, old(w)@ + b)
            }),
    ;
}

// ---------------------------------------------------------------------------
// CompactFormatter
// ---------------------------------------------------------------------------

/// Emits JSON with no additional whitespace (the default).
pub struct CompactFormatter;

/// What the compact layout renders for each event: the token alone, and a
/// `,` before every item or key but the first.
pub open spec fn compact_bytes(ev: FormatEvent) -> Seq<u8> {
    match ev {
        FormatEvent::BeginArray => seq![0x5Bu8],
        FormatEvent::EndArray => seq![0x5Du8],
        FormatEvent::BeginArrayValue(first) => if first {
            Seq::empty()
        } else {
            seq![0x2Cu8]
        },
        FormatEvent::EndArrayValue => Seq::empty(),
        FormatEvent::BeginObject => seq![0x7Bu8],
        FormatEvent::EndObject => seq![0x7Du8],
        FormatEvent::BeginObjectKey(first) => if first {
            Seq::empty()
        } else {
            seq![0x2Cu8]
        },
        FormatEvent::EndObjectKey => Seq::empty(),
        FormatEvent::BeginObjectValue => seq![0x3Au8],
        FormatEvent::EndObjectValue => Seq::empty(),
    }
}

impl Formatter for CompactFormatter {
    open spec fn can_step(&self, ev: FormatEvent) -> bool {
        true
    }

    open spec fn step(&self, ev: FormatEvent) -> (Self, Seq<u8>) {
        (CompactFormatter, compact_bytes(ev))
    }

    fn begin_array(&mut self, w: &mut Vec<u8>) {
        w.push(0x5B);
    }

    fn end_array(&mut self, w: &mut Vec<u8>) {
        w.push(0x5D);
    }

    fn begin_array_value(&mut self, w: &mut Vec<u8>, first: bool) {
        if !first {
            w.push(0x2C);
        }
        proof {
            assert(final(w)@ =~= old(w)@ + compact_bytes(FormatEvent::BeginArrayValue(first)));
        }
    }

    fn end_array_value(&mut self, w: &mut Vec<u8>) {
        proof {
            assert(w@ =~= old(w)@ + compact_bytes(FormatEvent::EndArrayValue));
        }
    }

    fn begin_object(&mut self, w: &mut Vec<u8>) {
        w.push(0x7B);
    }

    fn end_object(&mut self, w: &mut Vec<u8>) {
        w.push(0x7D);
    }

    fn begin_object_key(&mut self, w: &mut Vec<u8>, first: bool) {
        if !first {
            w.push(0x2C);
        }
        proof {
            assert(final(w)@ =~= old(w)@ + compact_bytes(FormatEvent::BeginObjectKey(first)));
        }
    }

    fn end_object_key(&mut self, w: &mut Vec<u8>) {
        proof {
            assert(w@ =~= old(w)@ + compact_bytes(FormatEvent::EndObjectKey));
        }
    }

    fn begin_object_value(&mut self, w: &mut Vec<u8>) {
        w.push(0x3A);
    }

    fn end_object_value(&mut self, w: &mut Vec<u8>) {
        proof {
            assert(w@ =~= old(w)@ + compact_bytes(FormatEvent::EndObjectValue));
        }
    }
}

// ---------------------------------------------------------------------------
// PrettyFormatter
// ---------------------------------------------------------------------------

/// Emits JSON with newlines and indentation.
pub struct PrettyFormatter {
    /// Bytes used as one level of indentation (e.g. `b"  "` for two spaces).
    indent: &'static [u8],
    current_indent: usize,
    /// True once the innermost open `{` or `[` has had an item.
    has_value: bool,
}

/// `s` repeated `n` times.
pub open spec fn repeat(s: Seq<u8>, n: nat) -> Seq<u8>
    decreases n,
{
    if n == 0 {
        Seq::empty()
    } else {
        repeat(s, (n - 1) as nat) + s
    }
}

/// The bytes `\n` and `,\n`.
pub open spec fn item_break(first: bool) -> Seq<u8> {
    if first {
        seq![0x0Au8]
    } else {
        seq![0x2Cu8, 0x0Au8]
    }
}

impl PrettyFormatter {
    /// The indentation unit.
    pub closed spec fn indent_unit(&self) -> Seq<u8> {
        self.indent@
    }

    /// The nesting depth.
    pub closed spec fn depth(&self) -> nat {
        self.current_indent as nat
    }

    /// Whether the innermost open container has had an item.
    pub closed spec fn seen_value(&self) -> bool {
        self.has_value
    }

    /// A formatter at depth 0 that indents by `indent`.
    pub fn with_indent(indent: &'static [u8]) -> (f: Self)
        ensures
            f.indent_unit() == indent@,
            f.depth() == 0,
            !f.seen_value(),
    {
        PrettyFormatter { indent, current_indent: 0, has_value: false }
    }

    /// Appends one indentation unit per level of depth.
    fn write_indent(&self, w: &mut Vec<u8>)
        ensures
            final(w)@ == old(w)@ + repeat(self.indent_unit(), self.depth()),
    {
        let mut k: usize = 0;
        while k < self.current_indent
            invariant
                k <= self.current_indent,
                w@ == old(w)@ + repeat(self.indent@, k as nat),
            decreases self.current_indent - k,
        {
            append_all(w, self.indent);
            k = k + 1;
            proof {
                assert(w@ =~= old(w)@ + repeat(self.indent@, k as nat));
            }
        }
    }

    /// This formatter at depth `d`, with `seen` as whether the innermost
    /// container has had an item.
    pub closed spec fn with_state(&self, d: nat, seen: bool) -> Self {
        PrettyFormatter { indent: self.indent, current_indent: d as usize, has_value: seen }
    }

    /// What closing a container renders: a line break and the indentation
    /// of depth `d` if the container had an item, then `close`.
    pub open spec fn closing(&self, d: nat, close: u8) -> Seq<u8> {
        if self.seen_value() {
            seq![0x0Au8] + repeat(self.indent_unit(), d) + seq![close]
        } else {
            seq![close]
        }
    }

    fn close_container(&mut self, w: &mut Vec<u8>, close: u8)
        requires
            old(self).depth() > 0,
        ensures
            *final(self) == old(self).with_state((old(self).depth() - 1) as nat, old(self).seen_value()),
            final(w)@ == old(w)@ + old(self).closing((old(self).depth() - 1) as nat, close),
    {
        self.current_indent = self.current_indent - 1;
        if self.has_value {
            w.push(0x0A);
            self.write_indent(w);
        }
        w.push(close);
        proof {
            assert(final(w)@ =~= old(w)@ + old(self).closing((old(self).depth() - 1) as nat, close));
        }
    }

    fn open_item(&mut self, w: &mut Vec<u8>, first: bool)
        ensures
            *final(self) == old(self).with_state(old(self).depth(), true),
            final(w)@ == old(w)@ + item_break(first) + repeat(old(self).indent_unit(), old(self).depth()),
    {
        if first {
            w.push(0x0A);
        } else {
            w.push(0x2C);
            w.push(0x0A);
        }
        self.has_value = true;
        self.write_indent(w);
        proof {
            assert(final(w)@ =~= old(w)@ + item_break(first) + repeat(old(self).indent_unit(), old(self).depth()));
        }
    }
}

impl Default for PrettyFormatter {
    /// A formatter that indents by two spaces.
    fn default() -> (f: Self)
        ensures
            f.indent_unit() == seq![0x20u8, 0x20u8],
            f.depth() == 0,
            !f.seen_value(),
    {
        let two: &'static [u8; 2] = &[0x20, 0x20];
        let f = Self::with_indent(two.as_slice());
        proof {
            assert(two@ =~= seq![0x20u8, 0x20u8]);
        }
        f
    }
}

impl Formatter for PrettyFormatter {
    /// Opening needs room for one more level; closing needs an open level.
    open spec fn can_step(&self, ev: FormatEvent) -> bool {
        match ev {
            FormatEvent::BeginArray | FormatEvent::BeginObject => self.depth() < usize::MAX,
            FormatEvent::EndArray | FormatEvent::EndObject => self.depth() > 0,
            _ => true,
        }
    }

    /// Opening a container goes one level deeper; each item or key starts on
    /// a new line at the current depth; the end of an item or of a member's
    /// value marks the container as having items (also after a nested
    /// container closed); closing goes one level up and puts the closing
    /// token on a new line when the container had items; a key is followed
    /// by `: `.
    open spec fn step(&self, ev: FormatEvent) -> (Self, Seq<u8>) {
        match ev {
            FormatEvent::BeginArray => (self.with_state(self.depth() + 1, false), seq![0x5Bu8]),
            FormatEvent::EndArray => (
                self.with_state((self.depth() - 1) as nat, self.seen_value()),
                self.closing((self.depth() - 1) as nat, 0x5Du8),
            ),
            FormatEvent::BeginArrayValue(first) => (
                self.with_state(self.depth(), true),
                item_break(first) + repeat(self.indent_unit(), self.depth()),
            ),
            FormatEvent::EndArrayValue => (self.with_state(self.depth(), true), Seq::empty()),
            FormatEvent::BeginObject => (self.with_state(self.depth() + 1, false), seq![0x7Bu8]),
            FormatEvent::EndObject => (
                self.with_state((self.depth() - 1) as nat, self.seen_value()),
                self.closing((self.depth() - 1) as nat, 0x7Du8),
            ),
            FormatEvent::BeginObjectKey(first) => (
                self.with_state(self.depth(), true),
                item_break(first) + repeat(self.indent_unit(), self.depth()),
            ),
            FormatEvent::EndObjectKey => (*self, Seq::empty()),
            FormatEvent::BeginObjectValue => (*self, seq![0x3Au8, 0x20u8]),
            FormatEvent::EndObjectValue => (self.with_state(self.depth(), true), Seq::empty()),
        }
    }

    fn begin_array(&mut self, w: &mut Vec<u8>) {
        self.current_indent = self.current_indent + 1;
        self.has_value = false;
        w.push(0x5B);
    }

    fn end_array(&mut self, w: &mut Vec<u8>) {
        self.close_container(w, 0x5D);
    }

    fn begin_array_value(&mut self, w: &mut Vec<u8>, first: bool) {
        self.open_item(w, first);
    }

    fn end_array_value(&mut self, w: &mut Vec<u8>) {
        self.has_value = true;
        proof {
            assert(w@ =~= old(w)@ + Seq::<u8>::empty());
        }
    }

    fn begin_object(&mut self, w: &mut Vec<u8>) {
        self.current_indent = self.current_indent + 1;
        self.has_value = false;
        w.push(0x7B);
    }

    fn end_object(&mut self, w: &mut Vec<u8>) {
        self.close_container(w, 0x7D);
    }

    fn begin_object_key(&mut self, w: &mut Vec<u8>, first: bool) {
        self.open_item(w, first);
    }

    fn end_object_key(&mut self, w: &mut Vec<u8>) {
        proof {
            assert(w@ =~= old(w)@ + Seq::<u8>::empty());
        }
    }

    fn begin_object_value(&mut self, w: &mut Vec<u8>) {
        w.push(0x3A);
        w.push(0x20);
        proof {
            assert(final(w)@ =~= old(w)@ + seq![0x3Au8, 0x20u8]);
        }
    }

    fn end_object_value(&mut self, w: &mut Vec<u8>) {
        self.has_value = true;
        proof {
            assert(w@ =~= old(w)@ + Seq::<u8>::empty());
        }
    }
}

// ---------------------------------------------------------------------------
// KowitoSerializer
// ---------------------------------------------------------------------------

/// The state and the bytes after rendering the events `evs` in turn.
pub open spec fn run<F: Formatter>(f: F, evs: Seq<FormatEvent>) -> (F, Seq<u8>)
    decreases evs.len(),
{
    if evs.len() == 0 {
        (f, Seq::empty())
    } else {
        let (f1, b1) = f.step(evs[0]);
        let (f2, b2) = run(f1, evs.subrange(1, evs.len() as int));
        (f2, b1 + b2)
    }
}

/// Whether the events `evs` can be rendered in turn.
pub open spec fn runnable<F: Formatter>(f: F, evs: Seq<FormatEvent>) -> bool
    decreases evs.len(),
{
    evs.len() == 0 || (f.can_step(evs[0]) && runnable(f.step(evs[0]).0, evs.subrange(1, evs.len() as int)))
}

/// The events that open an externally tagged variant: `{`, the first key.
pub open spec fn tag_open_events() -> Seq<FormatEvent> {
    seq![FormatEvent::BeginObject, FormatEvent::BeginObjectKey(true)]
}

/// The events between a variant's name and its content: end of key, `:`.
pub open spec fn tag_value_events() -> Seq<FormatEvent> {
    seq![FormatEvent::EndObjectKey, FormatEvent::BeginObjectValue]
}

/// The events that close an externally tagged variant: end of value, `}`.
pub open spec fn tag_close_events() -> Seq<FormatEvent> {
    seq![FormatEvent::EndObjectValue, FormatEvent::EndObject]
}

/// Writes JSON scalars and structural tokens into an output buffer, with
/// the whitespace that its formatter decides.
pub struct KowitoSerializer<F: Formatter> {
    pub writer: Vec<u8>,
    pub formatter: F,
}

impl<F: Formatter> KowitoSerializer<F> {
    /// A serializer that appends to `writer`.
    pub fn new(writer: Vec<u8>, formatter: F) -> (s: Self)
        ensures
            s.writer@ == writer@,
            s.formatter == formatter,
    {
        KowitoSerializer { writer, formatter }
    }

    /// Appends `b`.
    pub fn write_bytes(&mut self, b: &[u8])
        ensures
            final(self).writer@ == old(self).writer@ + b@,
            final(self).formatter == old(self).formatter,
    {
        append_all(&mut self.writer, b);
    }

    /// Appends `true` or `false`.
    pub fn serialize_bool(&mut self, v: bool)
        ensures
            final(self).writer@ == old(self).writer@ + bool_text(v),
            final(self).formatter == old(self).formatter,
    {
        if v {
            let t: [u8; 4] = [0x74, 0x72, 0x75, 0x65];
            proof {
                assert(t@ =~= bool_text(true));
            }
            self.write_bytes(t.as_slice());
        } else {
            let f: [u8; 5] = [0x66, 0x61, 0x6C, 0x73, 0x65];
            proof {
                assert(f@ =~= bool_text(false));
            }
            self.write_bytes(f.as_slice());
        }
    }

    /// Appends the decimal text of a signed integer.
    pub fn serialize_int(&mut self, v: i128)
        ensures
            final(self).writer@ == old(self).writer@ + int_text(v as int),
            final(self).formatter == old(self).formatter,
    {
        let t = int_to_text(v);
        self.write_bytes(t.as_slice());
    }

    /// Appends the decimal text of an unsigned integer.
    pub fn serialize_uint(&mut self, v: u128)
        ensures
            final(self).writer@ == old(self).writer@ + int_text(v as int),
            final(self).formatter == old(self).formatter,
    {
        let t = uint_to_text(v);
        self.write_bytes(t.as_slice());
    }

    /// Appends `v` as a JSON string literal.
    pub fn serialize_str(&mut self, v: &str)
        ensures
            final(self).writer@ == old(self).writer@ + json_string(encode_utf8(v@)),
            final(self).formatter == old(self).formatter,
    {
        write_str_escape(&mut self.writer, v.as_bytes());
    }

    /// Appends `null` (for `None`, `()` and unit structs).
    pub fn serialize_null(&mut self)
        ensures
            final(self).writer@ == old(self).writer@ + null_text(),
            final(self).formatter == old(self).formatter,
    {
        let n: [u8; 4] = [0x6E, 0x75, 0x6C, 0x6C];
        proof {
            assert(n@ =~= null_text());
        }
        self.write_bytes(n.as_slice());
    }

    /// Opens an externally tagged variant: `{`, the variant's name as the
    /// first key, and `:` (with the formatter's whitespace).
    pub fn begin_tagged(&mut self, variant: &str)
        requires
            runnable(old(self).formatter, tag_open_events()),
            runnable(run(old(self).formatter, tag_open_events()).0, tag_value_events()),
        ensures
            ({
                let (f1, b1) = run(old(self).formatter, tag_open_events());
                let (f2, b2) = run(f1, tag_value_events());
                &&& final(self).formatter == f2
                &&& final(self).writer@ == old(self).writer@ + b1 + json_string(encode_utf8(variant@)) + b2
            }),
    {
        proof {
            reveal_with_fuel(run, 3);
            reveal_with_fuel(runnable, 3);
            assert(tag_open_events().subrange(1, 2) =~= seq![FormatEvent::BeginObjectKey(true)]);
            assert(tag_value_events().subrange(1, 2) =~= seq![FormatEvent::BeginObjectValue]);
            assert(seq![FormatEvent::BeginObjectKey(true)].subrange(1, 1) =~= Seq::<FormatEvent>::empty());
            assert(seq![FormatEvent::BeginObjectValue].subrange(1, 1) =~= Seq::<FormatEvent>::empty());
        }
        self.formatter.begin_object(&mut self.writer);
        self.formatter.begin_object_key(&mut self.writer, true);
        write_str_escape(&mut self.writer, variant.as_bytes());
        self.formatter.end_object_key(&mut self.writer);
        self.formatter.begin_object_value(&mut self.writer);
        proof {
            let (f1, b1) = run(old(self).formatter, tag_open_events());
            let (f2, b2) = run(f1, tag_value_events());
            assert(self.writer@ =~= old(self).writer@ + b1 + json_string(encode_utf8(variant@)) + b2);
        }
    }

    /// Closes an externally tagged variant: the end of its value and `}`.
    pub fn end_tagged(&mut self)
        requires
            runnable(old(self).formatter, tag_close_events()),
        ensures
            ({
                let (f1, b1) = run(old(self).formatter, tag_close_events());
                &&& final(self).formatter == f1
                &&& final(self).writer@ == old(self).writer@ + b1
            }),
    {
        proof {
            reveal_with_fuel(run, 3);
            reveal_with_fuel(runnable, 3);
            assert(tag_close_events().subrange(1, 2) =~= seq![FormatEvent::EndObject]);
            assert(seq![FormatEvent::EndObject].subrange(1, 1) =~= Seq::<FormatEvent>::empty());
        }
        self.formatter.end_object_value(&mut self.writer);
        self.formatter.end_object(&mut self.writer);
        proof {
            let (f1, b1) = run(old(self).formatter, tag_close_events());
            assert(self.writer@ =~= old(self).writer@ + b1);
        }
    }
}

// ---------------------------------------------------------------------------
// Layout
// ---------------------------------------------------------------------------

/// Opening and at once closing a container with the pretty layout renders
/// `[]` (or `{}`) and leaves the formatter at the depth it had, with the
/// enclosing container's item flag as before.
pub proof fn law_pretty_empty_container(f: PrettyFormatter, array: bool)
    requires
        f.depth() < usize::MAX,
    ensures
        ({
            let open = if array { FormatEvent::BeginArray } else { FormatEvent::BeginObject };
            let close = if array { FormatEvent::EndArray } else { FormatEvent::EndObject };
            let (f1, b1) = f.step(open);
            let (f2, b2) = f1.step(close);
            &&& f1.can_step(close)
            &&& f2.depth() == f.depth()
            &&& f2.indent_unit() == f.indent_unit()
            &&& b1 + b2 == if array { seq![0x5Bu8, 0x5Du8] } else { seq![0x7Bu8, 0x7Du8] }
        }),
{
    let open = if array { FormatEvent::BeginArray } else { FormatEvent::BeginObject };
    let close = if array { FormatEvent::EndArray } else { FormatEvent::EndObject };
    let (f1, b1) = f.step(open);
    let (f2, b2) = f1.step(close);
    assert(f1.seen_value() == false);
    assert(b1 + b2 =~= if array { seq![0x5Bu8, 0x5Du8] } else { seq![0x7Bu8, 0x7Du8] });
}

/// With the pretty layout, each item of a container starts on a line of
/// its own, indented once per open container.
pub proof fn law_pretty_item_indent(f: PrettyFormatter, first: bool)
    ensures
        f.step(FormatEvent::BeginArrayValue(first)).1 == (if first { seq![0x0Au8] } else { seq![
            0x2Cu8,
            0x0Au8,
        ] }) + repeat(f.indent_unit(), f.depth()),
        f.step(FormatEvent::BeginArrayValue(first)).0.depth() == f.depth(),
{
}

/// With the pretty layout, a container that has had an item, whatever that
/// item was (a nested container too), closes on a line of its own, indented
/// as the container itself.
pub proof fn law_pretty_close_after_item(f: PrettyFormatter, array: bool)
    requires
        0 < f.depth() <= usize::MAX,
    ensures
        ({
            let end_item = if array { FormatEvent::EndArrayValue } else { FormatEvent::EndObjectValue };
            let close = if array { FormatEvent::EndArray } else { FormatEvent::EndObject };
            let bracket = if array { 0x5Du8 } else { 0x7Du8 };
            let (f1, b1) = f.step(end_item);
            let (f2, b2) = f1.step(close);
            &&& f1.can_step(close)
            &&& b1 + b2 == seq![0x0Au8] + repeat(f.indent_unit(), (f.depth() - 1) as nat) + seq![bracket]
            &&& f2.depth() == f.depth() - 1
        }),
{
    let end_item = if array { FormatEvent::EndArrayValue } else { FormatEvent::EndObjectValue };
    let (f1, b1) = f.step(end_item);
    assert(f1.seen_value());
    assert(f1.depth() == f.depth());
    assert(f1.indent_unit() == f.indent_unit());
    assert(b1 =~= Seq::<u8>::empty());
}

/// Members `k:v` as JSON writes them, separated by commas.
pub open spec fn joined_members(ms: Seq<(Seq<u8>, Seq<u8>)>) -> Seq<u8>
    decreases ms.len(),
{
    if ms.len() == 0 {
        Seq::empty()
    } else if ms.len() == 1 {
        ms[0].0 + seq![0x3Au8] + ms[0].1
    } else {
        joined_members(ms.drop_last()) + seq![0x2Cu8] + ms.last().0 + seq![0x3Au8] + ms.last().1
    }
}

/// Items as JSON writes them, separated by commas.
pub open spec fn joined_items(xs: Seq<Seq<u8>>) -> Seq<u8>
    decreases xs.len(),
{
    if xs.len() == 0 {
        Seq::empty()
    } else if xs.len() == 1 {
        xs[0]
    } else {
        joined_items(xs.drop_last()) + seq![0x2Cu8] + xs.last()
    }
}

/// What the compact layout writes for members `ms` written in turn: each
/// key's text between its key events (the first marked first), then each
/// value's text between its value events.
pub open spec fn compact_members(ms: Seq<(Seq<u8>, Seq<u8>)>) -> Seq<u8>
    decreases ms.len(),
{
    if ms.len() == 0 {
        Seq::empty()
    } else {
        let f = CompactFormatter;
        compact_members(ms.drop_last()) + f.step(FormatEvent::BeginObjectKey(ms.len() == 1)).1 + ms.last().0
            + f.step(FormatEvent::EndObjectKey).1 + f.step(FormatEvent::BeginObjectValue).1 + ms.last().1
            + f.step(FormatEvent::EndObjectValue).1
    }
}

/// What the compact layout writes for items `xs` written in turn, each
/// between its item events (the first marked first).
pub open spec fn compact_items(xs: Seq<Seq<u8>>) -> Seq<u8>
    decreases xs.len(),
{
    if xs.len() == 0 {
        Seq::empty()
    } else {
        let f = CompactFormatter;
        compact_items(xs.drop_last()) + f.step(FormatEvent::BeginArrayValue(xs.len() == 1)).1 + xs.last()
            + f.step(FormatEvent::EndArrayValue).1
    }
}

proof fn lemma_compact_members(ms: Seq<(Seq<u8>, Seq<u8>)>)
    ensures
        compact_members(ms) == joined_members(ms),
    decreases ms.len(),
{
    if ms.len() > 0 {
        lemma_compact_members(ms.drop_last());
        if ms.len() == 1 {
            assert(ms.drop_last() =~= Seq::<(Seq<u8>, Seq<u8>)>::empty());
            assert(compact_members(ms) =~= joined_members(ms));
        } else {
            assert(compact_members(ms) =~= joined_members(ms));
        }
    }
}

proof fn lemma_compact_items(xs: Seq<Seq<u8>>)
    ensures
        compact_items(xs) == joined_items(xs),
    decreases xs.len(),
{
    if xs.len() > 0 {
        lemma_compact_items(xs.drop_last());
        assert(compact_items(xs) =~= joined_items(xs));
    }
}

/// With the compact layout an object is `{`, its members `k:v` separated
/// by exactly one comma each, and `}`: no other byte is added.
pub proof fn law_compact_object(ms: Seq<(Seq<u8>, Seq<u8>)>)
    ensures
        CompactFormatter.step(FormatEvent::BeginObject).1 + compact_members(ms) + CompactFormatter.step(
            FormatEvent::EndObject,
        ).1 == seq![0x7Bu8] + joined_members(ms) + seq![0x7Du8],
{
    lemma_compact_members(ms);
}

/// With the compact layout an array is `[`, its items separated by
/// exactly one comma each, and `]`: no other byte is added.
pub proof fn law_compact_array(xs: Seq<Seq<u8>>)
    ensures
        CompactFormatter.step(FormatEvent::BeginArray).1 + compact_items(xs) + CompactFormatter.step(
            FormatEvent::EndArray,
        ).1 == seq![0x5Bu8] + joined_items(xs) + seq![0x5Du8],
{
    lemma_compact_items(xs);
}

/// With the pretty layout, each key of an object, like each item of an
/// array, starts on a line of its own after a comma unless it is the
/// first, indented once per open container; a value follows its key
/// after `: `.
pub proof fn law_pretty_key_indent(f: PrettyFormatter, first: bool)
    ensures
        f.step(FormatEvent::BeginObjectKey(first)).1 == (if first { seq![0x0Au8] } else { seq![
            0x2Cu8,
            0x0Au8,
        ] }) + repeat(f.indent_unit(), f.depth()),
        f.step(FormatEvent::BeginObjectKey(first)).0.depth() == f.depth(),
        f.step(FormatEvent::BeginObjectValue).1 == seq![0x3Au8, 0x20u8],
{
}

} // verus!
