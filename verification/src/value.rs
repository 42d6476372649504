//! A dynamically typed JSON value.

use vstd::prelude::*;
use vstd::string::*;
use vstd::utf8::{decode_utf8, valid_utf8};
use crate::deser::prepend;
use crate::error::{push_int, push_text, text, Error, ErrorView};
use crate::parse::{
    byte_offset_to_line_col, bytes_at, empty_array_close, expect_tag_spec, lemma_number_end_bounds, lemma_tape_len,
    line_col, literal_at, next_step_spec, number_end, string_value, tag_at, value_start, Parser,
};
use crate::scanner::{TOKEN_COLON, TOKEN_LBRACE, TOKEN_LBRACKET, TOKEN_QUOTE, TOKEN_RBRACE, TOKEN_RBRACKET};
use crate::serialize::{bool_text, int_text, null_text};
use crate::deser::Deserialize;
use crate::utf8::{ascii_chars, debug_str, str_debug_text, str_from_utf8};

verus! {

/// A dynamically-typed JSON value.
#[derive(Debug, PartialEq)]
pub enum Value {
    Null,
    Bool(bool),
    /// Number stored as the raw JSON source text to preserve integer precision.
    Number(String),
    Str(String),
    Array(Vec<Value>),
    /// JSON object as ordered key-value pairs.
    Object(Vec<(String, Value)>),
}

/// The mathematical view of a [`Value`]: texts as character sequences.
pub enum ValueView {
    Null,
    Bool(bool),
    Number(Seq<char>),
    Str(Seq<char>),
    Array(Seq<ValueView>),
    Object(Seq<(Seq<char>, ValueView)>),
}

/// The view of a value.
pub open spec fn value_view(v: Value) -> ValueView
    decreases v,
{
    match v {
        Value::Null => ValueView::Null,
        Value::Bool(b) => ValueView::Bool(b),
        Value::Number(n) => ValueView::Number(n@),
        Value::Str(s) => ValueView::Str(s@),
        Value::Array(items) => ValueView::Array(
            Seq::new(
                items@.len(),
                |i: int|
                    if 0 <= i < items@.len() {
                        value_view(items@[i])
                    } else {
                        ValueView::Null
                    },
            ),
        ),
        Value::Object(pairs) => ValueView::Object(
            Seq::new(
                pairs@.len(),
                |i: int|
                    if 0 <= i < pairs@.len() {
                        (pairs@[i].0@, value_view(pairs@[i].1))
                    } else {
                        (Seq::empty(), ValueView::Null)
                    },
            ),
        ),
    }
}

impl View for Value {
    type V = ValueView;

    open spec fn view(&self) -> ValueView {
        value_view(*self)
    }
}

// ---------------------------------------------------------------------------
// Reading a value from the tape
// ---------------------------------------------------------------------------

/// The `Debug` text of the first byte at `start`, if any: `Some(n)` or `None`.
pub open spec fn first_byte_debug(src: Seq<u8>, start: int) -> Seq<char> {
    if 0 <= start < src.len() {
        "Some("@ + ascii_chars(int_text(src[start] as int)) + ")"@
    } else {
        "None"@
    }
}

/// Whether `b` may start a number: `-` or a decimal digit.
pub open spec fn starts_number(b: u8) -> bool {
    b == 0x2D || (0x30 <= b && b <= 0x39)
}

/// The outcome of reading a primitive at the current value (which has no
/// tape entry): `null`, `true`, `false`, or the raw text of a number;
/// anything else is an error located at the value's start.
pub open spec fn primitive_value(src: Seq<u8>, tape: Seq<u32>, pos: int) -> Result<ValueView, ErrorView> {
    let start = value_start(src, tape, pos);
    if literal_at(src, start, null_text()) {
        Ok(ValueView::Null)
    } else if literal_at(src, start, bool_text(true)) {
        Ok(ValueView::Bool(true))
    } else if literal_at(src, start, bool_text(false)) {
        Ok(ValueView::Bool(false))
    } else if 0 <= start < src.len() && starts_number(src[start]) {
        let t = src.subrange(start, number_end(src, start));
        if valid_utf8(t) {
            Ok(ValueView::Number(decode_utf8(t)))
        } else {
            Err(ErrorView::Custom("non-UTF-8 in number"@))
        }
    } else {
        let lc = line_col(src, start);
        Err(ErrorView::Parse("unexpected byte "@ + first_byte_debug(src, start), lc.0 as usize, lc.1 as usize))
    }
}

/// The outcome of reading a value at entry `pos`: an object or an array by
/// its members or items, a string by its two quote entries, and anything
/// else as a primitive that consumes no entry.
pub open spec fn value_spec(src: Seq<u8>, tape: Seq<u32>, pos: int) -> (Result<ValueView, ErrorView>, int)
    decreases tape.len() - pos, 2int,
{
    let t = tag_at(tape, pos);
    if t == Some(TOKEN_LBRACE) {
        if tag_at(tape, pos + 1) == Some(TOKEN_RBRACE) {
            (Ok(ValueView::Object(Seq::empty())), pos + 2)
        } else {
            let (r, p) = value_members(src, tape, pos + 1);
            (
                match r {
                    Ok(ms) => Ok(ValueView::Object(ms)),
                    Err(e) => Err(e),
                },
                p,
            )
        }
    } else if t == Some(TOKEN_LBRACKET) {
        if empty_array_close(src, tape, pos + 1) {
            (Ok(ValueView::Array(Seq::empty())), pos + 2)
        } else {
            let (r, p) = value_items(src, tape, pos + 1);
            (
                match r {
                    Ok(xs) => Ok(ValueView::Array(xs)),
                    Err(e) => Err(e),
                },
                p,
            )
        }
    } else if t == Some(TOKEN_QUOTE) {
        let (r, p) = string_value(src, tape, pos);
        (
            match r {
                Ok(s) => Ok(ValueView::Str(s)),
                Err(e) => Err(e),
            },
            p,
        )
    } else {
        (primitive_value(src, tape, pos), pos)
    }
}

/// The outcome of reading the items of a non-empty array from entry `pos`.
/// (Each step moves forward along the tape; the last branch, where it would
/// not, cannot happen.)
pub open spec fn value_items(src: Seq<u8>, tape: Seq<u32>, pos: int) -> (Result<Seq<ValueView>, ErrorView>, int)
    decreases tape.len() - pos, 3int,
{
    if pos > tape.len() {
        (Err(ErrorView::Custom(Seq::empty())), pos)
    } else {
        let (r1, p1) = value_spec(src, tape, pos);
        match r1 {
            Err(e) => (Err(e), p1),
            Ok(x) => {
                let (n, p2) = next_step_spec(tape, p1, TOKEN_RBRACKET, "expected ',' or ']' at tape["@);
                match n {
                    Err(e) => (Err(e), p2),
                    Ok(more) => if !more {
                        (Ok(seq![x]), p2)
                    } else if pos < p2 <= tape.len() {
                        prepend(seq![x], value_items(src, tape, p2))
                    } else {
                        (Err(ErrorView::Custom(Seq::empty())), p2)
                    },
                }
            },
        }
    }
}

/// The outcome of reading the members of a non-empty object from entry
/// `pos`. (Each step moves forward along the tape; the last branch, where
/// it would not, cannot happen.)
pub open spec fn value_members(src: Seq<u8>, tape: Seq<u32>, pos: int) -> (Result<Seq<(Seq<char>, ValueView)>, ErrorView>, int)
    decreases tape.len() - pos, 3int,
{
    let (k, p1) = string_value(src, tape, pos);
    match k {
        Err(e) => (Err(e), p1),
        Ok(key) => {
            let (c, p2) = expect_tag_spec(src, tape, p1, TOKEN_COLON, "':'"@);
            match c {
                Err(e) => (Err(e), p2),
                Ok(_) => if pos < p2 <= tape.len() {
                    let (r, p3) = value_spec(src, tape, p2);
                    match r {
                        Err(e) => (Err(e), p3),
                        Ok(x) => {
                            let (n, p4) = next_step_spec(tape, p3, TOKEN_RBRACE, "expected ',' or '}' at tape["@);
                            match n {
                                Err(e) => (Err(e), p4),
                                Ok(more) => if !more {
                                    (Ok(seq![(key, x)]), p4)
                                } else if pos < p4 <= tape.len() {
                                    prepend(seq![(key, x)], value_members(src, tape, p4))
                                } else {
                                    (Err(ErrorView::Custom(Seq::empty())), p4)
                                },
                            }
                        },
                    }
                } else {
                    (Err(ErrorView::Custom(Seq::empty())), p2)
                },
            }
        },
    }
}

/// Reads the primitive at the current value. Consumes nothing.
fn read_primitive(parser: &Parser<'_>) -> (r: Result<Value, Error>)
    requires
        parser.wf(),
        parser.pos <= parser.tape@.len(),
    ensures
        match r {
            Ok(v) => primitive_value(parser.src@, parser.tape@, parser.pos as int) == Ok::<ValueView, ErrorView>(v@),
            Err(e) => primitive_value(parser.src@, parser.tape@, parser.pos as int) == Err::<ValueView, ErrorView>(e@),
        },
{
    let start = match parser.current_value_start() {
        Ok(s) => s,
        Err(e) => return Err(e),
    };
    let null_lit: [u8; 4] = [0x6E, 0x75, 0x6C, 0x6C];
    let true_lit: [u8; 4] = [0x74, 0x72, 0x75, 0x65];
    let false_lit: [u8; 5] = [0x66, 0x61, 0x6C, 0x73, 0x65];
    proof {
        assert(null_lit@ =~= null_text());
        assert(true_lit@ =~= bool_text(true));
        assert(false_lit@ =~= bool_text(false));
    }
    if bytes_at(parser.src, start, null_lit.as_slice()) {
        Ok(Value::Null)
    } else if bytes_at(parser.src, start, true_lit.as_slice()) {
        Ok(Value::Bool(true))
    } else if bytes_at(parser.src, start, false_lit.as_slice()) {
        Ok(Value::Bool(false))
    } else if start < parser.src.len() && (parser.src[start] == 0x2D || (0x30 <= parser.src[start]
        && parser.src[start] <= 0x39)) {
        let end = parser.scan_number_end_pub(start);
        proof {
            lemma_number_end_bounds(parser.src@, start as int);
        }
        let bytes = vstd::slice::slice_subrange(parser.src, start, end);
        match str_from_utf8(bytes) {
            Ok(t) => {
                proof {
                    vstd::utf8::encode_utf8_decode_utf8(t@);
                }
                Ok(Value::Number(t.to_owned()))
            },
            Err(_) => Err(Error::custom("non-UTF-8 in number")),
        }
    } else {
        let (line, col) = byte_offset_to_line_col(parser.src, start);
        let mut msg = text("unexpected byte ");
        if start < parser.src.len() {
            push_text(&mut msg, "Some(");
            push_int(&mut msg, parser.src[start] as i128);
            push_text(&mut msg, ")");
        } else {
            push_text(&mut msg, "None");
        }
        proof {
            assert(msg@ =~= "unexpected byte "@ + first_byte_debug(parser.src@, start as int));
        }
        Err(Error::parse_at(msg, line, col))
    }
}

/// Whether `items` stands for the views `xs`, one by one.
pub open spec fn items_model(items: Seq<Value>, xs: Seq<ValueView>) -> bool {
    &&& items.len() == xs.len()
    &&& forall|i: int| 0 <= i < xs.len() ==> (#[trigger] items[i])@ == xs[i]
}

/// Whether `pairs` stands for the members `ms`, one by one.
pub open spec fn members_model(pairs: Seq<(String, Value)>, ms: Seq<(Seq<char>, ValueView)>) -> bool {
    &&& pairs.len() == ms.len()
    &&& forall|i: int| 0 <= i < ms.len() ==> (#[trigger] pairs[i]).0@ == ms[i].0 && pairs[i].1@ == ms[i].1
}

/// Reads one value at the parser's position.
fn read_value(parser: &mut Parser<'_>) -> (r: Result<Value, Error>)
    requires
        old(parser).wf(),
        old(parser).pos <= old(parser).tape@.len(),
    ensures
        final(parser).src == old(parser).src,
        final(parser).tape@ == old(parser).tape@,
        old(parser).pos <= final(parser).pos,
        r is Ok ==> final(parser).pos <= final(parser).tape@.len(),
        ({
            let (sr, sp) = value_spec(old(parser).src@, old(parser).tape@, old(parser).pos as int);
            &&& final(parser).pos as int == sp
            &&& match r {
                Ok(v) => sr == Ok::<ValueView, ErrorView>(v@),
                Err(e) => sr == Err::<ValueView, ErrorView>(e@),
            }
        }),
    decreases old(parser).tape@.len() - old(parser).pos,
{
    proof {
        lemma_tape_len(parser.src@, parser.tape@);
    }
    let ghost src = parser.src@;
    let ghost tape = parser.tape@;
    let ghost p_in = parser.pos as int;
    let has_tag = parser.pos < parser.tape.len();
    let tag: u32 = if has_tag {
        parser.tape[parser.pos] & 0xF000_0000u32
    } else {
        0
    };
    if has_tag && tag == TOKEN_LBRACE {
        parser.pos = parser.pos + 1;
        let mut pairs: Vec<(String, Value)> = Vec::new();
        if parser.pos < parser.tape.len() && (parser.tape[parser.pos] & 0xF000_0000u32)
            == TOKEN_RBRACE {
            parser.pos = parser.pos + 1;
            proof {
                let vv = value_view(Value::Object(pairs));
                assert(vv == ValueView::Object(Seq::empty())) by {
                    assert(vv->Object_0 =~= Seq::empty());
                }
            }
            return Ok(Value::Object(pairs));
        }
        let ghost p0 = parser.pos as int;
        let ghost mut ms: Seq<(Seq<char>, ValueView)> = Seq::empty();
        proof {
            if let Ok(xs) = value_members(src, tape, p0).0 {
                assert(ms + xs =~= xs);
            }
        }
        loop
            invariant
                parser.src == old(parser).src,
                parser.tape@ == old(parser).tape@,
                src == parser.src@,
                tape == parser.tape@,
                parser.wf(),
                p_in < p0 <= parser.pos <= tape.len(),
                p_in == old(parser).pos,
                tag_at(tape, p_in) == Some(TOKEN_LBRACE),
                tag_at(tape, p0) != Some(TOKEN_RBRACE),
                p0 == p_in + 1,
                members_model(pairs@, ms),
                value_members(src, tape, p0) == prepend(ms, value_members(src, tape, parser.pos as int)),
            decreases tape.len() - parser.pos,
        {
            let ghost cur = parser.pos as int;
            let key = match parser.parse_string_owned() {
                Ok(k) => k,
                Err(e) => return Err(e),
            };
            match parser.expect_colon() {
                Ok(_) => {},
                Err(e) => return Err(e),
            }
            let v = match read_value(parser) {
                Ok(v) => v,
                Err(e) => return Err(e),
            };
            let ghost x = v@;
            let ghost k = key@;
            match parser.object_next() {
                Err(e) => return Err(e),
                Ok(more) => {
                    let ghost before = pairs@;
                    let ghost old_ms = ms;
                    pairs.push((key, v));
                    proof {
                        ms = ms.push((k, x));
                        assert(old_ms + seq![(k, x)] =~= ms);
                        assert forall|i: int| 0 <= i < ms.len() implies (#[trigger] pairs@[i]).0@
                            == ms[i].0 && pairs@[i].1@ == ms[i].1 by {
                            if i < old_ms.len() {
                                assert(pairs@[i] == before[i]);
                            }
                        }
                    }
                    if !more {
                        proof {
                            let vv = value_view(Value::Object(pairs));
                            assert(vv == ValueView::Object(ms)) by {
                                assert(vv->Object_0 =~= ms);
                            }
                            if let Ok(xs) = value_members(src, tape, p0).0 {
                                assert(xs =~= ms);
                            }
                        }
                        return Ok(Value::Object(pairs));
                    }
                    proof {
                        lemma_prepend_prepend_members(old_ms, seq![(k, x)], value_members(src, tape, parser.pos as int));
                    }
                },
            }
        }
    } else if has_tag && tag == TOKEN_LBRACKET {
        parser.pos = parser.pos + 1;
        let mut items: Vec<Value> = Vec::new();
        if parser.at_empty_array_close() {
            parser.pos = parser.pos + 1;
            proof {
                let vv = value_view(Value::Array(items));
                assert(vv == ValueView::Array(Seq::empty())) by {
                    assert(vv->Array_0 =~= Seq::empty());
                }
            }
            return Ok(Value::Array(items));
        }
        let ghost p0 = parser.pos as int;
        let ghost mut xs: Seq<ValueView> = Seq::empty();
        proof {
            if let Ok(ys) = value_items(src, tape, p0).0 {
                assert(xs + ys =~= ys);
            }
        }
        loop
            invariant
                parser.src == old(parser).src,
                parser.tape@ == old(parser).tape@,
                src == parser.src@,
                tape == parser.tape@,
                parser.wf(),
                p_in < p0 <= parser.pos <= tape.len(),
                p_in == old(parser).pos,
                tag_at(tape, p_in) == Some(TOKEN_LBRACKET),
                !empty_array_close(src, tape, p0),
                p0 == p_in + 1,
                items_model(items@, xs),
                value_items(src, tape, p0) == prepend(xs, value_items(src, tape, parser.pos as int)),
            decreases tape.len() - parser.pos,
        {
            let v = match read_value(parser) {
                Ok(v) => v,
                Err(e) => return Err(e),
            };
            let ghost x = v@;
            match parser.array_next() {
                Err(e) => return Err(e),
                Ok(more) => {
                    let ghost before = items@;
                    let ghost old_xs = xs;
                    items.push(v);
                    proof {
                        xs = xs.push(x);
                        assert(old_xs + seq![x] =~= xs);
                        assert forall|i: int| 0 <= i < xs.len() implies (#[trigger] items@[i])@ == xs[i] by {
                            if i < old_xs.len() {
                                assert(items@[i] == before[i]);
                            }
                        }
                    }
                    if !more {
                        proof {
                            let vv = value_view(Value::Array(items));
                            assert(vv == ValueView::Array(xs)) by {
                                assert(vv->Array_0 =~= xs);
                            }
                            if let Ok(ys) = value_items(src, tape, p0).0 {
                                assert(ys =~= xs);
                            }
                        }
                        return Ok(Value::Array(items));
                    }
                    proof {
                        lemma_prepend_prepend_items(old_xs, seq![x], value_items(src, tape, parser.pos as int));
                    }
                },
            }
        }
    } else if has_tag && tag == TOKEN_QUOTE {
        match parser.parse_string_owned() {
            Ok(s) => Ok(Value::Str(s)),
            Err(e) => Err(e),
        }
    } else {
        read_primitive(parser)
    }
}

proof fn lemma_prepend_prepend_members(
    a: Seq<(Seq<char>, ValueView)>,
    b: Seq<(Seq<char>, ValueView)>,
    rest: (Result<Seq<(Seq<char>, ValueView)>, ErrorView>, int),
)
    ensures
        prepend(a, prepend(b, rest)) == prepend(a + b, rest),
{
    if let Ok(ms) = rest.0 {
        assert(a + (b + ms) =~= (a + b) + ms);
    }
}

proof fn lemma_prepend_prepend_items(
    a: Seq<ValueView>,
    b: Seq<ValueView>,
    rest: (Result<Seq<ValueView>, ErrorView>, int),
)
    ensures
        prepend(a, prepend(b, rest)) == prepend(a + b, rest),
{
    if let Ok(ms) = rest.0 {
        assert(a + (b + ms) =~= (a + b) + ms);
    }
}

impl Deserialize for Value {
    type Model = ValueView;

    open spec fn models(&self, m: ValueView) -> bool {
        self@ == m
    }

    open spec fn parse_spec(src: Seq<u8>, tape: Seq<u32>, pos: int) -> (Result<ValueView, ErrorView>, int) {
        value_spec(src, tape, pos)
    }

    open spec fn reads_tag_first() -> bool {
        false
    }

    fn deserialize(parser: &mut Parser<'_>) -> (r: Result<Self, Error>) {
        read_value(parser)
    }
}

// ---------------------------------------------------------------------------
// Access
// ---------------------------------------------------------------------------

/// The index of the first member of `ms` at or after `i` whose key is
/// `key`, if any.
pub open spec fn find_key(ms: Seq<(Seq<char>, ValueView)>, key: Seq<char>, i: int) -> Option<int>
    decreases ms.len() - i,
{
    if i < 0 || i >= ms.len() {
        None
    } else if ms[i].0 == key {
        Some(i)
    } else {
        find_key(ms, key, i + 1)
    }
}

/// The value of the first member whose key is `key`, if `v` is an object
/// that has one.
pub open spec fn object_get(v: ValueView, key: Seq<char>) -> Option<ValueView> {
    match v {
        ValueView::Object(ms) => match find_key(ms, key, 0) {
            Some(i) => Some(ms[i].1),
            None => None,
        },
        _ => None,
    }
}

/// Item `i`, if `v` is an array that long.
pub open spec fn array_get(v: ValueView, i: int) -> Option<ValueView> {
    match v {
        ValueView::Array(xs) => if 0 <= i < xs.len() {
            Some(xs[i])
        } else {
            None
        },
        _ => None,
    }
}

impl Value {
    /// Returns `true` if this value is `null`.
    pub fn is_null(&self) -> (r: bool)
        ensures
            r == (self@ is Null),
    {
        match self {
            Value::Null => true,
            _ => false,
        }
    }

    /// The value of the first member whose key is `key`, if this is an
    /// object that has one.
    pub fn get(&self, key: &str) -> (r: Option<&Value>)
        ensures
            match object_get(self@, key@) {
                Some(x) => r matches Some(v) && v@ == x,
                None => r is None,
            },
    {
        match self {
            Value::Object(pairs) => {
                let wanted = key.to_owned();
                let mut i: usize = 0;
                while i < pairs.len()
                    invariant
                        self@ == ValueView::Object(self@->Object_0),
                        *self == Value::Object(*pairs),
                        wanted@ == key@,
                        i <= pairs@.len(),
                        find_key(self@->Object_0, key@, 0) == find_key(self@->Object_0, key@, i as int),
                    decreases pairs@.len() - i,
                {
                    if pairs[i].0 == wanted {
                        return Some(&pairs[i].1);
                    }
                    i = i + 1;
                }
                None
            },
            _ => None,
        }
    }

    /// Item `i`, if this is an array that long.
    pub fn index(&self, i: usize) -> (r: Option<&Value>)
        ensures
            match array_get(self@, i as int) {
                Some(x) => r matches Some(v) && v@ == x,
                None => r is None,
            },
    {
        match self {
            Value::Array(items) => if i < items.len() {
                Some(&items[i])
            } else {
                None
            },
            _ => None,
        }
    }
}

// ---------------------------------------------------------------------------
// Display
// ---------------------------------------------------------------------------

/// The compact text of a value: `null`, `true`/`false`, a number's raw
/// text, a string's `Debug` text, and arrays and objects with `,` between
/// items and `:` after each key (keys in their `Debug` text).
pub open spec fn display_text(v: ValueView) -> Seq<char>
    decreases v,
{
    match v {
        ValueView::Null => "null"@,
        ValueView::Bool(b) => if b {
            "true"@
        } else {
            "false"@
        },
        ValueView::Number(n) => n,
        ValueView::Str(s) => str_debug_text(s),
        ValueView::Array(xs) => "["@ + items_text(xs) + "]"@,
        ValueView::Object(ms) => "{"@ + members_text(ms) + "}"@,
    }
}

/// The texts of `xs`, separated by `,`.
pub open spec fn items_text(xs: Seq<ValueView>) -> Seq<char>
    decreases xs,
{
    if xs.len() == 0 {
        Seq::empty()
    } else {
        let pre = items_text(xs.subrange(0, xs.len() - 1));
        (if xs.len() > 1 {
            pre + ","@
        } else {
            pre
        }) + display_text(xs[xs.len() - 1])
    }
}

/// The members `ms` as `key:value` texts, separated by `,`.
pub open spec fn members_text(ms: Seq<(Seq<char>, ValueView)>) -> Seq<char>
    decreases ms,
{
    if ms.len() == 0 {
        Seq::empty()
    } else {
        let pre = members_text(ms.subrange(0, ms.len() - 1));
        let m = ms[ms.len() - 1];
        (if ms.len() > 1 {
            pre + ","@
        } else {
            pre
        }) + str_debug_text(m.0) + ":"@ + display_text(m.1)
    }
}

fn push_display(v: &Value, out: &mut String)
    ensures
        final(out)@ == old(out)@ + display_text(v@),
    decreases v,
{
    match v {
        Value::Null => push_text(out, "null"),
        Value::Bool(b) => if *b {
            push_text(out, "true")
        } else {
            push_text(out, "false")
        },
        Value::Number(n) => push_text(out, n.as_str()),
        Value::Str(s) => {
            let d = debug_str(s.as_str());
            push_text(out, d.as_str());
        },
        Value::Array(items) => {
            let ghost start = out@;
            let ghost xs = v@->Array_0;
            push_text(out, "[");
            let mut i: usize = 0;
            while i < items.len()
                invariant
                    i <= items@.len(),
                    xs.len() == items@.len(),
                    *v == Value::Array(*items),
                    forall|j: int| 0 <= j < xs.len() ==> #[trigger] xs[j] == items@[j]@,
                    out@ == start + "["@ + items_text(xs.subrange(0, i as int)),
                decreases items@.len() - i,
            {
                if i > 0 {
                    push_text(out, ",");
                }
                proof {
                    assert(decreases_to!(*v => (*v)->Array_0));
                    assert(decreases_to!(*items => items@));
                    assert(decreases_to!(items@ => items@[i as int]));
                }
                push_display(&items[i], out);
                proof {
                    let sub = xs.subrange(0, i + 1);
                    assert(sub.subrange(0, i as int) =~= xs.subrange(0, i as int));
                    assert(sub[i as int] == xs[i as int]);
                }
                i = i + 1;
            }
            push_text(out, "]");
            proof {
                assert(xs.subrange(0, xs.len() as int) =~= xs);
            }
        },
        Value::Object(pairs) => {
            let ghost start = out@;
            let ghost ms = v@->Object_0;
            push_text(out, "{");
            let mut i: usize = 0;
            while i < pairs.len()
                invariant
                    i <= pairs@.len(),
                    ms.len() == pairs@.len(),
                    *v == Value::Object(*pairs),
                    forall|j: int| 0 <= j < ms.len() ==> #[trigger] ms[j] == (pairs@[j].0@, pairs@[j].1@),
                    out@ == start + "{"@ + members_text(ms.subrange(0, i as int)),
                decreases pairs@.len() - i,
            {
                if i > 0 {
                    push_text(out, ",");
                }
                let d = debug_str(pairs[i].0.as_str());
                push_text(out, d.as_str());
                push_text(out, ":");
                proof {
                    assert(decreases_to!(*v => (*v)->Object_0));
                    assert(decreases_to!(*pairs => pairs@));
                    assert(decreases_to!(pairs@ => pairs@[i as int]));
                    assert(decreases_to!(pairs@[i as int] => pairs@[i as int].1));
                }
                push_display(&pairs[i].1, out);
                proof {
                    let sub = ms.subrange(0, i + 1);
                    assert(sub.subrange(0, i as int) =~= ms.subrange(0, i as int));
                    assert(sub[i as int] == ms[i as int]);
                }
                i = i + 1;
            }
            push_text(out, "}");
            proof {
                assert(ms.subrange(0, ms.len() as int) =~= ms);
            }
        },
    }
}

impl Value {
    /// The compact text of this value (see [`display_text`]).
    pub fn to_string(&self) -> (r: String)
        ensures
            r@ == display_text(self@),
    {
        let mut out = String::new();
        push_display(self, &mut out);
        proof {
            assert(out@ =~= display_text(self@));
        }
        out
    }
}

/// A copy of `v`.
fn clone_value(v: &Value) -> (r: Value)
    ensures
        r@ == v@,
    decreases v,
{
    match v {
        Value::Null => Value::Null,
        Value::Bool(b) => Value::Bool(*b),
        Value::Number(n) => Value::Number(n.clone()),
        Value::Str(s) => Value::Str(s.clone()),
        Value::Array(items) => {
            let mut out: Vec<Value> = Vec::new();
            let mut i: usize = 0;
            while i < items.len()
                invariant
                    i <= items@.len(),
                    *v == Value::Array(*items),
                    items_model(out@, Seq::new(i as nat, |j: int| items@[j]@)),
                decreases items@.len() - i,
            {
                proof {
                    assert(decreases_to!(*v => (*v)->Array_0));
                    assert(decreases_to!(*items => items@));
                    assert(decreases_to!(items@ => items@[i as int]));
                }
                let c = clone_value(&items[i]);
                let ghost before = out@;
                out.push(c);
                proof {
                    assert forall|j: int| 0 <= j < i + 1 implies (#[trigger] out@[j])@ == Seq::new(
                        (i + 1) as nat,
                        |k: int| items@[k]@,
                    )[j] by {
                        if j < i {
                            assert(out@[j] == before[j]);
                        }
                    }
                }
                i = i + 1;
            }
            proof {
                let r = Value::Array(out);
                assert(value_view(r)->Array_0 =~= v@->Array_0);
            }
            Value::Array(out)
        },
        Value::Object(pairs) => {
            let mut out: Vec<(String, Value)> = Vec::new();
            let mut i: usize = 0;
            while i < pairs.len()
                invariant
                    i <= pairs@.len(),
                    *v == Value::Object(*pairs),
                    members_model(out@, Seq::new(i as nat, |j: int| (pairs@[j].0@, pairs@[j].1@))),
                decreases pairs@.len() - i,
            {
                proof {
                    assert(decreases_to!(*v => (*v)->Object_0));
                    assert(decreases_to!(*pairs => pairs@));
                    assert(decreases_to!(pairs@ => pairs@[i as int]));
                    assert(decreases_to!(pairs@[i as int] => pairs@[i as int].1));
                }
                let k = pairs[i].0.clone();
                let c = clone_value(&pairs[i].1);
                let ghost before = out@;
                out.push((k, c));
                proof {
                    assert forall|j: int| 0 <= j < i + 1 implies (#[trigger] out@[j]).0@ == Seq::new(
                        (i + 1) as nat,
                        |m: int| (pairs@[m].0@, pairs@[m].1@),
                    )[j].0 && out@[j].1@ == Seq::new(
                        (i + 1) as nat,
                        |m: int| (pairs@[m].0@, pairs@[m].1@),
                    )[j].1 by {
                        if j < i {
                            assert(out@[j] == before[j]);
                        }
                    }
                }
                i = i + 1;
            }
            proof {
                let r = Value::Object(out);
                assert(value_view(r)->Object_0 =~= v@->Object_0);
            }
            Value::Object(out)
        },
    }
}

impl Clone for Value {
    fn clone(&self) -> (r: Self)
        ensures
            r@ == self@,
    {
        clone_value(self)
    }
}

} // verus!
