//! The [`Deserialize`] trait, its impls for the standard types, and the
//! entry points [`from_slice`] and [`from_str`].

use vstd::prelude::*;
use vstd::string::*;
use vstd::utf8::valid_utf8;
use std::collections::{BTreeMap, HashMap};
use crate::error::{push_text, text, Error, ErrorView};
use crate::schema::{field_index, field_index_from, match_field, FieldSpec};
use crate::parse::{
    bool_value, empty_array_close, expect_tag_spec, i64_value, lemma_skip_nested_advances, literal_at, next_step_spec, skip_value_spec, string_value, tag_at,
    tagged_tape, u64_value, value_start, Parser,
};
use crate::scanner::{TOKEN_COLON, TOKEN_LBRACE, TOKEN_LBRACKET, TOKEN_QUOTE, TOKEN_RBRACE, TOKEN_RBRACKET};
use crate::serialize::null_text;
use crate::utf8::{str_from_utf8, utf8_error_display, utf8_error_text};

verus! {

/// Types that can be deserialized from JSON.
///
/// Each type names the mathematical value that a deserialized value stands
/// for (its `Model`), says when a value stands for a model, and states the
/// outcome of reading one value from a parser's tape as a spec function.
pub trait Deserialize: Sized {
    /// The mathematical value that a deserialized value stands for.
    type Model;

    /// Whether `self` stands for `m`.
    spec fn models(&self, m: Self::Model) -> bool;

    /// The outcome of reading a value of this type at entry `pos` of the
    /// tape of `src`: the model read or the error, and the entry after it.
    spec fn parse_spec(src: Seq<u8>, tape: Seq<u32>, pos: int) -> (Result<Self::Model, ErrorView>, int);

    /// Whether reading starts from the tag of the entry at the position, so
    /// that a position past the end of the tape is answered with an error.
    /// Where it is not, reading looks at the entry before the position, which
    /// must then be on the tape or just past it.
    spec fn reads_tag_first() -> bool;

    /// Reads one value at the parser's position.
    fn deserialize(parser: &mut Parser<'_>) -> (r: Result<Self, Error>)
        requires
            old(parser).wf(),
            old(parser).pos <= old(parser).tape@.len() || Self::reads_tag_first(),
        ensures
            final(parser).src == old(parser).src,
            final(parser).tape@ == old(parser).tape@,
            old(parser).pos <= final(parser).pos,
            r is Ok ==> final(parser).pos <= final(parser).tape@.len(),
            ({
                let (sr, sp) = Self::parse_spec(old(parser).src@, old(parser).tape@, old(parser).pos as int);
                &&& final(parser).pos as int == sp
                &&& match r {
                    Ok(v) => sr is Ok && v.models(sr->Ok_0),
                    Err(e) => sr == Err::<Self::Model, ErrorView>(e@),
                }
            }),
    ;
}

// ---------------------------------------------------------------------------
// Booleans and integers
// ---------------------------------------------------------------------------

impl Deserialize for bool {
    type Model = bool;

    open spec fn models(&self, m: bool) -> bool {
        *self == m
    }

    open spec fn parse_spec(src: Seq<u8>, tape: Seq<u32>, pos: int) -> (Result<bool, ErrorView>, int) {
        (bool_value(src, tape, pos), pos)
    }

    open spec fn reads_tag_first() -> bool {
        false
    }

    fn deserialize(parser: &mut Parser<'_>) -> (r: Result<Self, Error>) {
        parser.parse_bool()
    }
}

/// The outcome of reading the current value as a signed integer in
/// `[lo, hi]`: an `i64` first, then the range check of the conversion to
/// the type called `name`.
pub open spec fn signed_value(src: Seq<u8>, tape: Seq<u32>, pos: int, lo: int, hi: int, name: Seq<char>) -> Result<int, ErrorView> {
    match i64_value(src, tape, pos) {
        Err(e) => Err(e),
        Ok(v) => if lo <= v <= hi {
            Ok(v)
        } else {
            Err(ErrorView::Custom("overflow converting to "@ + name))
        },
    }
}

/// The outcome of reading the current value as an unsigned integer at most
/// `hi`: a `u64` first, then the range check of the conversion to the type
/// called `name`.
pub open spec fn unsigned_value(src: Seq<u8>, tape: Seq<u32>, pos: int, hi: int, name: Seq<char>) -> Result<int, ErrorView> {
    match u64_value(src, tape, pos) {
        Err(e) => Err(e),
        Ok(v) => if v <= hi {
            Ok(v)
        } else {
            Err(ErrorView::Custom("overflow converting to "@ + name))
        },
    }
}

fn overflow_error(name: &str) -> (e: Error)
    ensures
        e@ == ErrorView::Custom("overflow converting to "@ + name@),
{
    let mut msg = text("overflow converting to ");
    push_text(&mut msg, name);
    Error::Custom(msg)
}

fn read_signed(parser: &mut Parser<'_>, lo: i64, hi: i64, name: &str) -> (r: Result<i64, Error>)
    requires
        old(parser).wf(),
        old(parser).pos <= old(parser).tape@.len(),
    ensures
        *final(parser) == *old(parser),
        match r {
            Ok(v) => signed_value(old(parser).src@, old(parser).tape@, old(parser).pos as int, lo as int, hi as int, name@)
                == Ok::<int, ErrorView>(v as int) && lo <= v <= hi,
            Err(e) => signed_value(old(parser).src@, old(parser).tape@, old(parser).pos as int, lo as int, hi as int, name@)
                == Err::<int, ErrorView>(e@),
        },
{
    match parser.parse_i64() {
        Err(e) => Err(e),
        Ok(v) => if lo <= v && v <= hi {
            Ok(v)
        } else {
            Err(overflow_error(name))
        },
    }
}

fn read_unsigned(parser: &mut Parser<'_>, hi: u64, name: &str) -> (r: Result<u64, Error>)
    requires
        old(parser).wf(),
        old(parser).pos <= old(parser).tape@.len(),
    ensures
        *final(parser) == *old(parser),
        match r {
            Ok(v) => unsigned_value(old(parser).src@, old(parser).tape@, old(parser).pos as int, hi as int, name@)
                == Ok::<int, ErrorView>(v as int) && v <= hi,
            Err(e) => unsigned_value(old(parser).src@, old(parser).tape@, old(parser).pos as int, hi as int, name@)
                == Err::<int, ErrorView>(e@),
        },
{
    match parser.parse_u64() {
        Err(e) => Err(e),
        Ok(v) => if v <= hi {
            Ok(v)
        } else {
            Err(overflow_error(name))
        },
    }
}

impl Deserialize for i8 {
    type Model = int;

    open spec fn models(&self, m: int) -> bool {
        *self as int == m
    }

    open spec fn parse_spec(src: Seq<u8>, tape: Seq<u32>, pos: int) -> (Result<int, ErrorView>, int) {
        (signed_value(src, tape, pos, i8::MIN as int, i8::MAX as int, "i8"@), pos)
    }

    open spec fn reads_tag_first() -> bool {
        false
    }

    fn deserialize(parser: &mut Parser<'_>) -> (r: Result<Self, Error>) {
        match read_signed(parser, i8::MIN as i64, i8::MAX as i64, "i8") {
            Ok(v) => Ok(v as i8),
            Err(e) => Err(e),
        }
    }
}

impl Deserialize for i16 {
    type Model = int;

    open spec fn models(&self, m: int) -> bool {
        *self as int == m
    }

    open spec fn parse_spec(src: Seq<u8>, tape: Seq<u32>, pos: int) -> (Result<int, ErrorView>, int) {
        (signed_value(src, tape, pos, i16::MIN as int, i16::MAX as int, "i16"@), pos)
    }

    open spec fn reads_tag_first() -> bool {
        false
    }

    fn deserialize(parser: &mut Parser<'_>) -> (r: Result<Self, Error>) {
        match read_signed(parser, i16::MIN as i64, i16::MAX as i64, "i16") {
            Ok(v) => Ok(v as i16),
            Err(e) => Err(e),
        }
    }
}

impl Deserialize for i32 {
    type Model = int;

    open spec fn models(&self, m: int) -> bool {
        *self as int == m
    }

    open spec fn parse_spec(src: Seq<u8>, tape: Seq<u32>, pos: int) -> (Result<int, ErrorView>, int) {
        (signed_value(src, tape, pos, i32::MIN as int, i32::MAX as int, "i32"@), pos)
    }

    open spec fn reads_tag_first() -> bool {
        false
    }

    fn deserialize(parser: &mut Parser<'_>) -> (r: Result<Self, Error>) {
        match read_signed(parser, i32::MIN as i64, i32::MAX as i64, "i32") {
            Ok(v) => Ok(v as i32),
            Err(e) => Err(e),
        }
    }
}

impl Deserialize for i64 {
    type Model = int;

    open spec fn models(&self, m: int) -> bool {
        *self as int == m
    }

    open spec fn parse_spec(src: Seq<u8>, tape: Seq<u32>, pos: int) -> (Result<int, ErrorView>, int) {
        (signed_value(src, tape, pos, i64::MIN as int, i64::MAX as int, "i64"@), pos)
    }

    open spec fn reads_tag_first() -> bool {
        false
    }

    fn deserialize(parser: &mut Parser<'_>) -> (r: Result<Self, Error>) {
        read_signed(parser, i64::MIN, i64::MAX, "i64")
    }
}

impl Deserialize for i128 {
    type Model = int;

    open spec fn models(&self, m: int) -> bool {
        *self as int == m
    }

    open spec fn parse_spec(src: Seq<u8>, tape: Seq<u32>, pos: int) -> (Result<int, ErrorView>, int) {
        (signed_value(src, tape, pos, i64::MIN as int, i64::MAX as int, "i128"@), pos)
    }

    open spec fn reads_tag_first() -> bool {
        false
    }

    fn deserialize(parser: &mut Parser<'_>) -> (r: Result<Self, Error>) {
        match read_signed(parser, i64::MIN, i64::MAX, "i128") {
            Ok(v) => Ok(v as i128),
            Err(e) => Err(e),
        }
    }
}

impl Deserialize for isize {
    type Model = int;

    open spec fn models(&self, m: int) -> bool {
        *self as int == m
    }

    open spec fn parse_spec(src: Seq<u8>, tape: Seq<u32>, pos: int) -> (Result<int, ErrorView>, int) {
        (signed_value(src, tape, pos, isize::MIN as int, isize::MAX as int, "isize"@), pos)
    }

    open spec fn reads_tag_first() -> bool {
        false
    }

    fn deserialize(parser: &mut Parser<'_>) -> (r: Result<Self, Error>) {
        match read_signed(parser, isize::MIN as i64, isize::MAX as i64, "isize") {
            Ok(v) => Ok(v as isize),
            Err(e) => Err(e),
        }
    }
}

impl Deserialize for u8 {
    type Model = int;

    open spec fn models(&self, m: int) -> bool {
        *self as int == m
    }

    open spec fn parse_spec(src: Seq<u8>, tape: Seq<u32>, pos: int) -> (Result<int, ErrorView>, int) {
        (unsigned_value(src, tape, pos, u8::MAX as int, "u8"@), pos)
    }

    open spec fn reads_tag_first() -> bool {
        false
    }

    fn deserialize(parser: &mut Parser<'_>) -> (r: Result<Self, Error>) {
        match read_unsigned(parser, u8::MAX as u64, "u8") {
            Ok(v) => Ok(v as u8),
            Err(e) => Err(e),
        }
    }
}

impl Deserialize for u16 {
    type Model = int;

    open spec fn models(&self, m: int) -> bool {
        *self as int == m
    }

    open spec fn parse_spec(src: Seq<u8>, tape: Seq<u32>, pos: int) -> (Result<int, ErrorView>, int) {
        (unsigned_value(src, tape, pos, u16::MAX as int, "u16"@), pos)
    }

    open spec fn reads_tag_first() -> bool {
        false
    }

    fn deserialize(parser: &mut Parser<'_>) -> (r: Result<Self, Error>) {
        match read_unsigned(parser, u16::MAX as u64, "u16") {
            Ok(v) => Ok(v as u16),
            Err(e) => Err(e),
        }
    }
}

impl Deserialize for u32 {
    type Model = int;

    open spec fn models(&self, m: int) -> bool {
        *self as int == m
    }

    open spec fn parse_spec(src: Seq<u8>, tape: Seq<u32>, pos: int) -> (Result<int, ErrorView>, int) {
        (unsigned_value(src, tape, pos, u32::MAX as int, "u32"@), pos)
    }

    open spec fn reads_tag_first() -> bool {
        false
    }

    fn deserialize(parser: &mut Parser<'_>) -> (r: Result<Self, Error>) {
        match read_unsigned(parser, u32::MAX as u64, "u32") {
            Ok(v) => Ok(v as u32),
            Err(e) => Err(e),
        }
    }
}

impl Deserialize for u64 {
    type Model = int;

    open spec fn models(&self, m: int) -> bool {
        *self as int == m
    }

    open spec fn parse_spec(src: Seq<u8>, tape: Seq<u32>, pos: int) -> (Result<int, ErrorView>, int) {
        (unsigned_value(src, tape, pos, u64::MAX as int, "u64"@), pos)
    }

    open spec fn reads_tag_first() -> bool {
        false
    }

    fn deserialize(parser: &mut Parser<'_>) -> (r: Result<Self, Error>) {
        read_unsigned(parser, u64::MAX, "u64")
    }
}

impl Deserialize for u128 {
    type Model = int;

    open spec fn models(&self, m: int) -> bool {
        *self as int == m
    }

    open spec fn parse_spec(src: Seq<u8>, tape: Seq<u32>, pos: int) -> (Result<int, ErrorView>, int) {
        (unsigned_value(src, tape, pos, u64::MAX as int, "u128"@), pos)
    }

    open spec fn reads_tag_first() -> bool {
        false
    }

    fn deserialize(parser: &mut Parser<'_>) -> (r: Result<Self, Error>) {
        match read_unsigned(parser, u64::MAX, "u128") {
            Ok(v) => Ok(v as u128),
            Err(e) => Err(e),
        }
    }
}

impl Deserialize for usize {
    type Model = int;

    open spec fn models(&self, m: int) -> bool {
        *self as int == m
    }

    open spec fn parse_spec(src: Seq<u8>, tape: Seq<u32>, pos: int) -> (Result<int, ErrorView>, int) {
        (unsigned_value(src, tape, pos, usize::MAX as int, "usize"@), pos)
    }

    open spec fn reads_tag_first() -> bool {
        false
    }

    fn deserialize(parser: &mut Parser<'_>) -> (r: Result<Self, Error>) {
        match read_unsigned(parser, usize::MAX as u64, "usize") {
            Ok(v) => Ok(v as usize),
            Err(e) => Err(e),
        }
    }
}

// ---------------------------------------------------------------------------
// Strings
// ---------------------------------------------------------------------------

impl Deserialize for String {
    type Model = Seq<char>;

    open spec fn models(&self, m: Seq<char>) -> bool {
        self@ == m
    }

    open spec fn parse_spec(src: Seq<u8>, tape: Seq<u32>, pos: int) -> (Result<Seq<char>, ErrorView>, int) {
        string_value(src, tape, pos)
    }

    open spec fn reads_tag_first() -> bool {
        true
    }

    fn deserialize(parser: &mut Parser<'_>) -> (r: Result<Self, Error>) {
        parser.parse_string_owned()
    }
}

// ---------------------------------------------------------------------------
// Option
// ---------------------------------------------------------------------------

impl<T: Deserialize> Deserialize for Option<T> {
    type Model = Option<T::Model>;

    open spec fn models(&self, m: Option<T::Model>) -> bool {
        match (*self, m) {
            (None, None) => true,
            (Some(v), Some(x)) => v.models(x),
            _ => false,
        }
    }

    /// `null` at the current value reads as `None` and consumes nothing;
    /// anything else reads as `Some` of a `T`.
    open spec fn parse_spec(src: Seq<u8>, tape: Seq<u32>, pos: int) -> (Result<Option<T::Model>, ErrorView>, int) {
        if literal_at(src, value_start(src, tape, pos), null_text()) {
            (Ok(None), pos)
        } else {
            let (r, p) = T::parse_spec(src, tape, pos);
            (
                match r {
                    Ok(x) => Ok(Some(x)),
                    Err(e) => Err(e),
                },
                p,
            )
        }
    }

    open spec fn reads_tag_first() -> bool {
        false
    }

    fn deserialize(parser: &mut Parser<'_>) -> (r: Result<Self, Error>) {
        let is_null = match parser.parse_null() {
            Ok(b) => b,
            Err(e) => return Err(e),
        };
        if is_null {
            Ok(None)
        } else {
            match T::deserialize(parser) {
                Ok(v) => Ok(Some(v)),
                Err(e) => Err(e),
            }
        }
    }
}

// ---------------------------------------------------------------------------
// Sequences
// ---------------------------------------------------------------------------

/// `done` put in front of the items of an outcome.
pub open spec fn prepend<M>(done: Seq<M>, rest: (Result<Seq<M>, ErrorView>, int)) -> (Result<Seq<M>, ErrorView>, int) {
    (
        match rest.0 {
            Ok(ms) => Ok(done + ms),
            Err(e) => Err(e),
        },
        rest.1,
    )
}

proof fn lemma_prepend_prepend<M>(a: Seq<M>, b: Seq<M>, rest: (Result<Seq<M>, ErrorView>, int))
    ensures
        prepend(a, prepend(b, rest)) == prepend(a + b, rest),
{
    if let Ok(ms) = rest.0 {
        assert(a + (b + ms) =~= (a + b) + ms);
    }
}

/// The outcome of reading the items of a non-empty array from entry `pos`:
/// one `T`, then `,` and more items, or `]`. (Each step moves forward
/// along the tape; the last branch, where it would not, cannot happen.)
pub open spec fn array_items<T: Deserialize>(src: Seq<u8>, tape: Seq<u32>, pos: int) -> (Result<Seq<T::Model>, ErrorView>, int)
    decreases tape.len() - pos,
{
    let (r1, p1) = T::parse_spec(src, tape, pos);
    match r1 {
        Err(e) => (Err(e), p1),
        Ok(x) => {
            let (n, p2) = next_step_spec(tape, p1, TOKEN_RBRACKET, "expected ',' or ']' at tape["@);
            match n {
                Err(e) => (Err(e), p2),
                Ok(more) => if !more {
                    (Ok(seq![x]), p2)
                } else if pos < p2 <= tape.len() {
                    prepend(seq![x], array_items::<T>(src, tape, p2))
                } else {
                    (Err(ErrorView::Custom(Seq::empty())), p2)
                },
            }
        },
    }
}

/// The outcome of reading an array: `[`, then `]` as the next byte past
/// whitespace (no items) or its items.
pub open spec fn array_spec<T: Deserialize>(src: Seq<u8>, tape: Seq<u32>, pos: int) -> (Result<Seq<T::Model>, ErrorView>, int) {
    let (b, p1) = expect_tag_spec(src, tape, pos, TOKEN_LBRACKET, "'['"@);
    match b {
        Err(e) => (Err(e), p1),
        Ok(_) => if empty_array_close(src, tape, p1) {
            (Ok(Seq::empty()), p1 + 1)
        } else {
            array_items::<T>(src, tape, p1)
        },
    }
}

impl<T: Deserialize> Deserialize for Vec<T> {
    type Model = Seq<T::Model>;

    open spec fn models(&self, m: Seq<T::Model>) -> bool {
        &&& self@.len() == m.len()
        &&& forall|i: int| 0 <= i < m.len() ==> #[trigger] self@[i].models(m[i])
    }

    open spec fn parse_spec(src: Seq<u8>, tape: Seq<u32>, pos: int) -> (Result<Seq<T::Model>, ErrorView>, int) {
        array_spec::<T>(src, tape, pos)
    }

    open spec fn reads_tag_first() -> bool {
        true
    }

    fn deserialize(parser: &mut Parser<'_>) -> (r: Result<Self, Error>) {
        match parser.begin_array() {
            Ok(_) => {},
            Err(e) => return Err(e),
        }
        let mut items: Vec<T> = Vec::new();
        if parser.at_empty_array_close() {
            parser.pos = parser.pos + 1;
            return Ok(items);
        }
        let ghost src = parser.src@;
        let ghost tape = parser.tape@;
        let ghost p0 = parser.pos as int;
        let ghost mut ms: Seq<T::Model> = Seq::empty();
        proof {
            assert(prepend(ms, array_items::<T>(src, tape, p0)) == array_items::<T>(src, tape, p0)) by {
                if let Ok(xs) = array_items::<T>(src, tape, p0).0 {
                    assert(ms + xs =~= xs);
                }
            }
        }
        loop
            invariant
                parser.src == old(parser).src,
                parser.tape@ == old(parser).tape@,
                src == parser.src@,
                tape == parser.tape@,
                parser.wf(),
                old(parser).pos <= p0 <= parser.pos <= tape.len(),
                array_spec::<T>(src, tape, old(parser).pos as int) == array_items::<T>(src, tape, p0),
                items@.len() == ms.len(),
                forall|i: int| 0 <= i < ms.len() ==> #[trigger] items@[i].models(ms[i]),
                array_items::<T>(src, tape, p0) == prepend(ms, array_items::<T>(src, tape, parser.pos as int)),
            decreases tape.len() - parser.pos,
        {
            let ghost cur = parser.pos as int;
            let v = match T::deserialize(parser) {
                Ok(v) => v,
                Err(e) => return Err(e),
            };
            let ghost x = T::parse_spec(src, tape, cur).0->Ok_0;
            match parser.array_next() {
                Err(e) => return Err(e),
                Ok(more) => {
                    let ghost before = items@;
                    let ghost old_ms = ms;
                    items.push(v);
                    proof {
                        ms = ms.push(x);
                        assert(old_ms + seq![x] =~= ms);
                        assert forall|i: int| 0 <= i < ms.len() implies #[trigger] items@[i].models(ms[i]) by {
                            if i < old_ms.len() {
                                assert(items@[i] == before[i]);
                            }
                        }
                    }
                    if !more {
                        proof {
                            if let Ok(xs) = array_items::<T>(src, tape, p0).0 {
                                assert(xs =~= ms);
                            }
                        }
                        return Ok(items);
                    }
                    proof {
                        lemma_prepend_prepend(old_ms, seq![x], array_items::<T>(src, tape, parser.pos as int));
                    }
                },
            }
        }
    }
}

impl<'b> Deserialize for std::borrow::Cow<'b, str> {
    type Model = Seq<char>;

    open spec fn models(&self, m: Seq<char>) -> bool {
        self@ == m
    }

    open spec fn parse_spec(src: Seq<u8>, tape: Seq<u32>, pos: int) -> (Result<Seq<char>, ErrorView>, int) {
        string_value(src, tape, pos)
    }

    open spec fn reads_tag_first() -> bool {
        true
    }

    fn deserialize(parser: &mut Parser<'_>) -> (r: Result<Self, Error>) {
        match parser.parse_string_owned() {
            Ok(s) => Ok(std::borrow::Cow::Owned(s)),
            Err(e) => Err(e),
        }
    }
}

// ---------------------------------------------------------------------------
// Maps
// ---------------------------------------------------------------------------

/// The outcome of reading the members of a non-empty object from entry
/// `pos`: a string key, `:`, one `V`, then `,` and more members, or `}`.
/// (Each step moves forward along the tape; the last branch, where it would
/// not, cannot happen.)
pub open spec fn object_members<V: Deserialize>(src: Seq<u8>, tape: Seq<u32>, pos: int) -> (Result<Seq<(Seq<char>, V::Model)>, ErrorView>, int)
    decreases tape.len() - pos,
{
    let (k, p1) = string_value(src, tape, pos);
    match k {
        Err(e) => (Err(e), p1),
        Ok(key) => {
            let (c, p2) = expect_tag_spec(src, tape, p1, TOKEN_COLON, "':'"@);
            match c {
                Err(e) => (Err(e), p2),
                Ok(_) => {
                    let (r, p3) = V::parse_spec(src, tape, p2);
                    match r {
                        Err(e) => (Err(e), p3),
                        Ok(x) => {
                            let (n, p4) = next_step_spec(tape, p3, TOKEN_RBRACE, "expected ',' or '}' at tape["@);
                            match n {
                                Err(e) => (Err(e), p4),
                                Ok(more) => if !more {
                                    (Ok(seq![(key, x)]), p4)
                                } else if pos < p4 <= tape.len() {
                                    prepend(seq![(key, x)], object_members::<V>(src, tape, p4))
                                } else {
                                    (Err(ErrorView::Custom(Seq::empty())), p4)
                                },
                            }
                        },
                    }
                },
            }
        },
    }
}

/// The outcome of reading an object's members: `{`, then `}` at once (no
/// members) or its members, in the order they appear.
pub open spec fn object_spec<V: Deserialize>(src: Seq<u8>, tape: Seq<u32>, pos: int) -> (Result<Seq<(Seq<char>, V::Model)>, ErrorView>, int) {
    let (b, p1) = expect_tag_spec(src, tape, pos, TOKEN_LBRACE, "'{'"@);
    match b {
        Err(e) => (Err(e), p1),
        Ok(_) => if tag_at(tape, p1) == Some(TOKEN_RBRACE) {
            (Ok(Seq::empty()), p1 + 1)
        } else {
            object_members::<V>(src, tape, p1)
        },
    }
}

/// Whether `pairs` stands for the members `ms`, key by key and value by value.
pub open spec fn pairs_model<V: Deserialize>(pairs: Seq<(String, V)>, ms: Seq<(Seq<char>, V::Model)>) -> bool {
    &&& pairs.len() == ms.len()
    &&& forall|i: int| 0 <= i < ms.len() ==> (#[trigger] pairs[i]).0@ == ms[i].0 && pairs[i].1.models(ms[i].1)
}

/// Reads an object's members, in order.
fn read_members<V: Deserialize>(parser: &mut Parser<'_>) -> (r: Result<Vec<(String, V)>, Error>)
    requires
        old(parser).wf(),
    ensures
        final(parser).src == old(parser).src,
        final(parser).tape@ == old(parser).tape@,
        old(parser).pos <= final(parser).pos,
        r is Ok ==> final(parser).pos <= final(parser).tape@.len(),
        ({
            let (sr, sp) = object_spec::<V>(old(parser).src@, old(parser).tape@, old(parser).pos as int);
            &&& final(parser).pos as int == sp
            &&& match r {
                Ok(v) => sr is Ok && pairs_model(v@, sr->Ok_0),
                Err(e) => sr == Err::<Seq<(Seq<char>, V::Model)>, ErrorView>(e@),
            }
        }),
{
    match parser.begin_object() {
        Ok(_) => {},
        Err(e) => return Err(e),
    }
    let mut pairs: Vec<(String, V)> = Vec::new();
    if parser.pos < parser.tape.len() && (parser.tape[parser.pos] & 0xF000_0000u32)
        == TOKEN_RBRACE {
        parser.pos = parser.pos + 1;
        return Ok(pairs);
    }
    let ghost src = parser.src@;
    let ghost tape = parser.tape@;
    let ghost p0 = parser.pos as int;
    let ghost mut ms: Seq<(Seq<char>, V::Model)> = Seq::empty();
    proof {
        if let Ok(xs) = object_members::<V>(src, tape, p0).0 {
            assert(ms + xs =~= xs);
        }
    }
    loop
        invariant
            parser.src == old(parser).src,
            parser.tape@ == old(parser).tape@,
            src == parser.src@,
            tape == parser.tape@,
            parser.wf(),
            old(parser).pos <= p0 <= parser.pos <= tape.len(),
            object_spec::<V>(src, tape, old(parser).pos as int) == object_members::<V>(src, tape, p0),
            pairs_model(pairs@, ms),
            object_members::<V>(src, tape, p0) == prepend(ms, object_members::<V>(src, tape, parser.pos as int)),
        decreases tape.len() - parser.pos,
    {
        let ghost cur = parser.pos as int;
        let key = match parser.parse_string_owned() {
            Ok(k) => k,
            Err(e) => return Err(e),
        };
        match parser.expect_colon() {
            Ok(_) => {},
            Err(e) => return Err(e),
        }
        let ghost p2 = parser.pos as int;
        let v = match V::deserialize(parser) {
            Ok(v) => v,
            Err(e) => return Err(e),
        };
        let ghost x = V::parse_spec(src, tape, p2).0->Ok_0;
        let ghost k = key@;
        match parser.object_next() {
            Err(e) => return Err(e),
            Ok(more) => {
                let ghost before = pairs@;
                let ghost old_ms = ms;
                pairs.push((key, v));
                proof {
                    ms = ms.push((k, x));
                    assert(old_ms + seq![(k, x)] =~= ms);
                    assert forall|i: int| 0 <= i < ms.len() implies (#[trigger] pairs@[i]).0@ == ms[i].0
                        && pairs@[i].1.models(ms[i].1) by {
                        if i < old_ms.len() {
                            assert(pairs@[i] == before[i]);
                        }
                    }
                }
                if !more {
                    proof {
                        if let Ok(xs) = object_members::<V>(src, tape, p0).0 {
                            assert(xs =~= ms);
                        }
                    }
                    return Ok(pairs);
                }
                proof {
                    lemma_prepend_prepend(old_ms, seq![(k, x)], object_members::<V>(src, tape, parser.pos as int));
                }
            },
        }
    }
}

/// A map keyed by strings, keyed instead by the strings' text.
pub open spec fn by_text<V>(m: Map<String, V>) -> Map<Seq<char>, V> {
    Map::new(
        |s: Seq<char>| exists|k: String| #[trigger] m.contains_key(k) && k@ == s,
        |s: Seq<char>| m[choose|k: String| #[trigger] m.contains_key(k) && k@ == s],
    )
}

/// The members `ms` as a map: each key to the value of its last occurrence.
pub open spec fn members_map<M>(ms: Seq<(Seq<char>, M)>) -> Map<Seq<char>, M>
    decreases ms.len(),
{
    if ms.len() == 0 {
        Map::empty()
    } else {
        members_map(ms.drop_last()).insert(ms.last().0, ms.last().1)
    }
}

/// Whether the values `t` stand, key by key, for the models `mm`.
pub open spec fn map_models<V: Deserialize>(t: Map<Seq<char>, V>, mm: Map<Seq<char>, V::Model>) -> bool {
    &&& t.dom() == mm.dom()
    &&& forall|k: Seq<char>| #[trigger] mm.contains_key(k) ==> t[k].models(mm[k])
}

/// The pairs with each key taken by its text.
pub open spec fn text_pairs<V>(pairs: Seq<(String, V)>) -> Seq<(Seq<char>, V)> {
    pairs.map_values(|p: (String, V)| (p.0@, p.1))
}

/// `HashMap::insert` with a string key. As the standard library documents
/// it, the key then maps to `v` and every other key keeps its value; since
/// `String`s are equal exactly when their text is, this is stated over the
/// keys' text.
#[verifier::external_body]
fn hash_map_insert<V>(m: &mut HashMap<String, V>, k: String, v: V)
    ensures
        by_text(final(m)@) == by_text(old(m)@).insert(k@, v),
{
    m.insert(k, v);
}

/// `BTreeMap::insert` with a string key. As the standard library documents
/// it, the key then maps to `v` and every other key keeps its value; since
/// `String`s are equal exactly when their text is, this is stated over the
/// keys' text.
#[verifier::external_body]
fn btree_map_insert<V>(m: &mut BTreeMap<String, V>, k: String, v: V)
    ensures
        by_text(final(m)@) == by_text(old(m)@).insert(k@, v),
{
    m.insert(k, v);
}

/// The empty map keyed by strings holds no text either.
proof fn lemma_by_text_empty<V>()
    ensures
        by_text(Map::<String, V>::empty()) == Map::<Seq<char>, V>::empty(),
{
    assert(by_text(Map::<String, V>::empty()) =~= Map::<Seq<char>, V>::empty());
}

/// One more pair: its key now maps to its value.
proof fn lemma_members_map_step<M>(ms: Seq<(Seq<char>, M)>, i: int)
    requires
        0 <= i < ms.len(),
    ensures
        members_map(ms.take(i + 1)) == members_map(ms.take(i)).insert(ms[i].0, ms[i].1),
{
    assert(ms.take(i + 1).drop_last() =~= ms.take(i));
}

/// Values that stand for models, pair by pair, stand for them key by key.
proof fn lemma_members_models<V: Deserialize>(pairs: Seq<(String, V)>, ms: Seq<(Seq<char>, V::Model)>)
    requires
        pairs_model(pairs, ms),
    ensures
        map_models(members_map(text_pairs(pairs)), members_map(ms)),
    decreases pairs.len(),
{
    let tp = text_pairs(pairs);
    if pairs.len() == 0 {
        assert(members_map(tp).dom() =~= members_map(ms).dom());
    } else {
        let n = pairs.len() - 1;
        assert(pairs_model(pairs.drop_last(), ms.drop_last())) by {
            assert forall|i: int| 0 <= i < ms.drop_last().len() implies (#[trigger] pairs.drop_last()[i]).0@
                == ms.drop_last()[i].0 && pairs.drop_last()[i].1.models(ms.drop_last()[i].1) by {
                assert(pairs[i] == pairs.drop_last()[i]);
            }
        }
        lemma_members_models(pairs.drop_last(), ms.drop_last());
        assert(tp.drop_last() =~= text_pairs(pairs.drop_last()));
        assert(pairs[n].0@ == ms[n].0 && pairs[n].1.models(ms[n].1));
        let a = members_map(tp);
        let b = members_map(ms);
        assert(a.dom() =~= b.dom());
        assert forall|k: Seq<char>| #[trigger] b.contains_key(k) implies a[k].models(b[k]) by {
            if k != ms[n].0 {
                assert(members_map(ms.drop_last()).contains_key(k));
            }
        }
    }
}

impl<V: Deserialize> Deserialize for HashMap<String, V> {
    type Model = Seq<(Seq<char>, V::Model)>;

    /// The map holds, by their text, exactly the keys read, each with a
    /// value that stands for the value of its last occurrence.
    open spec fn models(&self, m: Seq<(Seq<char>, V::Model)>) -> bool {
        map_models(by_text(self@), members_map(m))
    }

    open spec fn parse_spec(src: Seq<u8>, tape: Seq<u32>, pos: int) -> (Result<Seq<(Seq<char>, V::Model)>, ErrorView>, int) {
        object_spec::<V>(src, tape, pos)
    }

    open spec fn reads_tag_first() -> bool {
        true
    }

    fn deserialize(parser: &mut Parser<'_>) -> (r: Result<Self, Error>) {
        let ghost ms = object_spec::<V>(parser.src@, parser.tape@, parser.pos as int).0->Ok_0;
        let pairs = match read_members::<V>(parser) {
            Ok(p) => p,
            Err(e) => return Err(e),
        };
        let ghost ps = pairs@;
        let ghost tp = text_pairs(ps);
        let mut map: HashMap<String, V> = HashMap::new();
        proof {
            lemma_by_text_empty::<V>();
            assert(tp.take(0) =~= Seq::<(Seq<char>, V)>::empty());
        }
        for pair in it: pairs.into_iter()
            invariant
                it.seq() == ps,
                tp == text_pairs(ps),
                by_text(map@) == members_map(tp.take(it.index() as int)),
        {
            proof {
                lemma_members_map_step(tp, it.index() as int);
            }
            hash_map_insert(&mut map, pair.0, pair.1);
        }
        proof {
            assert(tp.take(ps.len() as int) =~= tp);
            lemma_members_models(ps, ms);
        }
        Ok(map)
    }
}
impl<V: Deserialize> Deserialize for BTreeMap<String, V> {
    type Model = Seq<(Seq<char>, V::Model)>;

    /// The map holds, by their text, exactly the keys read, each with a
    /// value that stands for the value of its last occurrence.
    open spec fn models(&self, m: Seq<(Seq<char>, V::Model)>) -> bool {
        map_models(by_text(self@), members_map(m))
    }

    open spec fn parse_spec(src: Seq<u8>, tape: Seq<u32>, pos: int) -> (Result<Seq<(Seq<char>, V::Model)>, ErrorView>, int) {
        object_spec::<V>(src, tape, pos)
    }

    open spec fn reads_tag_first() -> bool {
        true
    }

    fn deserialize(parser: &mut Parser<'_>) -> (r: Result<Self, Error>) {
        let ghost ms = object_spec::<V>(parser.src@, parser.tape@, parser.pos as int).0->Ok_0;
        let pairs = match read_members::<V>(parser) {
            Ok(p) => p,
            Err(e) => return Err(e),
        };
        let ghost ps = pairs@;
        let ghost tp = text_pairs(ps);
        let mut map: BTreeMap<String, V> = BTreeMap::new();
        proof {
            lemma_by_text_empty::<V>();
            assert(tp.take(0) =~= Seq::<(Seq<char>, V)>::empty());
        }
        for pair in it: pairs.into_iter()
            invariant
                it.seq() == ps,
                tp == text_pairs(ps),
                by_text(map@) == members_map(tp.take(it.index() as int)),
        {
            proof {
                lemma_members_map_step(tp, it.index() as int);
            }
            btree_map_insert(&mut map, pair.0, pair.1);
        }
        proof {
            assert(tp.take(ps.len() as int) =~= tp);
            lemma_members_models(ps, ms);
        }
        Ok(map)
    }
}
// ---------------------------------------------------------------------------
// Records
// ---------------------------------------------------------------------------

/// The outcome of reading the members of a non-empty record object from
/// entry `pos`, with fields `fields`: a string key, `:`, then the value, read
/// as a `V` into the field the key names (see [`field_index`]) or skipped
/// where no field is read from that key; then `,` and more members, or `}`.
/// The items are the field indices and the models read, in order.
pub open spec fn record_members<V: Deserialize>(src: Seq<u8>, tape: Seq<u32>, pos: int, fields: Seq<FieldSpec>) -> (Result<Seq<(int, V::Model)>, ErrorView>, int)
    decreases tape.len() - pos,
{
    let (k, p1) = string_value(src, tape, pos);
    match k {
        Err(e) => (Err(e), p1),
        Ok(key) => {
            let (c, p2) = expect_tag_spec(src, tape, p1, TOKEN_COLON, "':'"@);
            match c {
                Err(e) => (Err(e), p2),
                Ok(_) => {
                    let (r, p3) = member_value::<V>(src, tape, p2, field_index(fields, key));
                    match r {
                        Err(e) => (Err(e), p3),
                        Ok(item) => {
                            let (n, p4) = next_step_spec(tape, p3, TOKEN_RBRACE, "expected ',' or '}' at tape["@);
                            match n {
                                Err(e) => (Err(e), p4),
                                Ok(more) => if !more {
                                    (Ok(item), p4)
                                } else if pos < p4 <= tape.len() {
                                    prepend(item, record_members::<V>(src, tape, p4, fields))
                                } else {
                                    (Err(ErrorView::Custom(Seq::empty())), p4)
                                },
                            }
                        },
                    }
                },
            }
        },
    }
}

/// The outcome of reading one member's value at `pos`: into field `i` (one
/// item), or skipped (no item).
pub open spec fn member_value<V: Deserialize>(src: Seq<u8>, tape: Seq<u32>, pos: int, field: Option<int>) -> (Result<Seq<(int, V::Model)>, ErrorView>, int) {
    match field {
        Some(i) => {
            let (x, q) = V::parse_spec(src, tape, pos);
            match x {
                Ok(v) => (Ok(seq![(i, v)]), q),
                Err(e) => (Err(e), q),
            }
        },
        None => {
            let (x, q) = skip_value_spec(tape, pos);
            match x {
                Ok(_) => (Ok(Seq::empty()), q),
                Err(e) => (Err(e), q),
            }
        },
    }
}

/// The outcome of reading a record: `{`, then `}` at once (no members) or
/// its members (see [`record_members`]).
pub open spec fn record_spec<V: Deserialize>(src: Seq<u8>, tape: Seq<u32>, pos: int, fields: Seq<FieldSpec>) -> (Result<Seq<(int, V::Model)>, ErrorView>, int) {
    let (b, p1) = expect_tag_spec(src, tape, pos, TOKEN_LBRACE, "'{'"@);
    match b {
        Err(e) => (Err(e), p1),
        Ok(_) => if tag_at(tape, p1) == Some(TOKEN_RBRACE) {
            (Ok(Seq::empty()), p1 + 1)
        } else {
            record_members::<V>(src, tape, p1, fields)
        },
    }
}

/// The model that field `i` ends up with: that of the last item read into
/// it, or none.
pub open spec fn slot_model<M>(items: Seq<(int, M)>, i: int) -> Option<M>
    decreases items.len(),
{
    if items.len() == 0 {
        None
    } else if items.last().0 == i {
        Some(items.last().1)
    } else {
        slot_model(items.drop_last(), i)
    }
}

/// Whether the `n` slots stand, field by field, for the items read.
pub open spec fn slots_model<V: Deserialize>(slots: Seq<Option<V>>, items: Seq<(int, V::Model)>, n: int) -> bool {
    &&& slots.len() == n
    &&& forall|i: int| 0 <= i < n ==> match #[trigger] slots[i] {
        None => slot_model(items, i) is None,
        Some(v) => slot_model(items, i) matches Some(m) && v.models(m),
    }
}

/// Reads a record with fields `fields`, each value as a `V` (see
/// [`record_spec`]): one slot per field, holding the value of the last
/// member read into it, or `None` where no member was.
pub fn read_record<V: Deserialize>(parser: &mut Parser<'_>, fields: &[FieldSpec]) -> (r: Result<Vec<Option<V>>, Error>)
    requires
        old(parser).wf(),
    ensures
        final(parser).src == old(parser).src,
        final(parser).tape@ == old(parser).tape@,
        ({
            let (sr, sp) = record_spec::<V>(old(parser).src@, old(parser).tape@, old(parser).pos as int, fields@);
            &&& final(parser).pos as int == sp
            &&& match r {
                Ok(slots) => sr is Ok && slots_model(slots@, sr->Ok_0, fields@.len() as int),
                Err(e) => sr == Err::<Seq<(int, V::Model)>, ErrorView>(e@),
            }
        }),
{
    let mut slots: Vec<Option<V>> = Vec::new();
    while slots.len() < fields.len()
        invariant
            slots@.len() <= fields@.len(),
            forall|i: int| 0 <= i < slots@.len() ==> #[trigger] slots@[i] is None,
        decreases fields@.len() - slots@.len(),
    {
        slots.push(None);
    }
    let ghost n = fields@.len() as int;
    proof {
        assert(slots_model(slots@, Seq::<(int, V::Model)>::empty(), n));
    }
    match parser.begin_object() {
        Ok(_) => {},
        Err(e) => return Err(e),
    }
    if parser.pos < parser.tape.len() && (parser.tape[parser.pos] & 0xF000_0000u32)
        == TOKEN_RBRACE {
        parser.pos = parser.pos + 1;
        return Ok(slots);
    }
    let ghost src = parser.src@;
    let ghost tape = parser.tape@;
    let ghost p0 = parser.pos as int;
    let ghost mut ms: Seq<(int, V::Model)> = Seq::empty();
    proof {
        if let Ok(xs) = record_members::<V>(src, tape, p0, fields@).0 {
            assert(ms + xs =~= xs);
        }
    }
    loop
        invariant
            parser.src == old(parser).src,
            parser.tape@ == old(parser).tape@,
            src == parser.src@,
            tape == parser.tape@,
            parser.wf(),
            old(parser).pos <= p0 <= parser.pos <= tape.len(),
            n == fields@.len(),
            record_spec::<V>(src, tape, old(parser).pos as int, fields@) == record_members::<V>(src, tape, p0, fields@),
            slots_model(slots@, ms, n),
            record_members::<V>(src, tape, p0, fields@) == prepend(ms, record_members::<V>(src, tape, parser.pos as int, fields@)),
        decreases tape.len() - parser.pos,
    {
        let ghost cur = parser.pos as int;
        let key = match parser.parse_string_owned() {
            Ok(k) => k,
            Err(e) => return Err(e),
        };
        match parser.expect_colon() {
            Ok(_) => {},
            Err(e) => return Err(e),
        }
        let ghost p2 = parser.pos as int;
        let ghost old_ms = ms;
        let field = match_field(fields, key.as_str());
        let ghost fi = field_index(fields@, key@);
        match field {
            Some(i) => {
                let v = match V::deserialize(parser) {
                    Ok(v) => v,
                    Err(e) => return Err(e),
                };
                let ghost x = V::parse_spec(src, tape, p2).0->Ok_0;
                let ghost before = slots@;
                proof {
                    lemma_field_index_bound(fields@, key@, 0);
                }
                slots.set(i, Some(v));
                proof {
                    lemma_slots_set(before, old_ms, n, i as int, v, x);
                    ms = old_ms.push((i as int, x));
                    assert(old_ms + seq![(i as int, x)] =~= ms);
                }
            },
            None => {
                proof {
                    lemma_skip_nested_advances(tape, p2 + 1, 1, TOKEN_LBRACE, TOKEN_RBRACE, "unexpected end of tape in object skip"@);
                    lemma_skip_nested_advances(tape, p2 + 1, 1, TOKEN_LBRACKET, TOKEN_RBRACKET, "unexpected end of tape in array skip"@);
                }
                match parser.skip_value() {
                    Ok(_) => {},
                    Err(e) => return Err(e),
                }
                proof {
                    assert(parser.pos >= p2);
                    assert(old_ms + Seq::<(int, V::Model)>::empty() =~= old_ms);
                }
            },
        }
        let ghost item = member_value::<V>(src, tape, p2, fi).0->Ok_0;
        assert(cur < p2 <= parser.pos);
        proof {
            assert(old_ms + item =~= ms);
        }
        match parser.object_next() {
            Err(e) => return Err(e),
            Ok(more) => {
                if !more {
                    proof {
                        if let Ok(xs) = record_members::<V>(src, tape, p0, fields@).0 {
                            assert(xs =~= ms);
                        }
                    }
                    return Ok(slots);
                }
                proof {
                    assert(cur < parser.pos <= tape.len());
                    assert(record_members::<V>(src, tape, cur, fields@) == prepend(
                        item,
                        record_members::<V>(src, tape, parser.pos as int, fields@),
                    ));
                    lemma_prepend_prepend(old_ms, item, record_members::<V>(src, tape, parser.pos as int, fields@));
                }
            },
        }
    }
}

/// Reading value `v` (standing for `x`) into slot `i` keeps the slots
/// standing for the items, with `(i, x)` now the last.
proof fn lemma_slots_set<V: Deserialize>(slots: Seq<Option<V>>, items: Seq<(int, V::Model)>, n: int, i: int, v: V, x: V::Model)
    requires
        slots_model(slots, items, n),
        0 <= i < n,
        v.models(x),
    ensures
        slots_model(slots.update(i, Some(v)), items.push((i, x)), n),
{
    let s2 = slots.update(i, Some(v));
    let it2 = items.push((i, x));
    assert(it2.drop_last() =~= items);
    assert forall|j: int| 0 <= j < n implies match #[trigger] s2[j] {
        None => slot_model(it2, j) is None,
        Some(w) => slot_model(it2, j) matches Some(m) && w.models(m),
    } by {
        if j != i {
            assert(s2[j] == slots[j]);
        }
    }
}

/// A field index found from `i` on is one of the fields.
proof fn lemma_field_index_bound(fields: Seq<FieldSpec>, key: Seq<char>, i: int)
    ensures
        field_index_from(fields, key, i) matches Some(j) ==> i <= j < fields.len(),
    decreases fields.len() - i,
{
    if 0 <= i < fields.len() {
        lemma_field_index_bound(fields, key, i + 1);
    }
}

// ---------------------------------------------------------------------------
// Enum variants, externally tagged
// ---------------------------------------------------------------------------

/// The outcome of reading the head of an enum value at entry `pos`: a
/// string is a unit variant's name (`false`: no object was opened);
/// otherwise `{` opens an object whose first key is the variant's name
/// (`true`), and the variant's data follows its `:`.
pub open spec fn variant_head_spec(src: Seq<u8>, tape: Seq<u32>, pos: int) -> (Result<(Seq<char>, bool), ErrorView>, int) {
    if tag_at(tape, pos) == Some(TOKEN_QUOTE) {
        let (k, p1) = string_value(src, tape, pos);
        match k {
            Ok(name) => (Ok((name, false)), p1),
            Err(e) => (Err(e), p1),
        }
    } else {
        let (b, p1) = expect_tag_spec(src, tape, pos, TOKEN_LBRACE, "'{'"@);
        match b {
            Err(e) => (Err(e), p1),
            Ok(_) => {
                let (k, p2) = string_value(src, tape, p1);
                match k {
                    Ok(name) => (Ok((name, true)), p2),
                    Err(e) => (Err(e), p2),
                }
            },
        }
    }
}

/// Reads the head of an enum value (see [`variant_head_spec`]): the
/// variant's name, and whether it was read as the key of an object.
pub fn read_variant_head(parser: &mut Parser<'_>) -> (r: Result<(String, bool), Error>)
    requires
        old(parser).wf(),
    ensures
        final(parser).src == old(parser).src,
        final(parser).tape@ == old(parser).tape@,
        ({
            let (sr, sp) = variant_head_spec(old(parser).src@, old(parser).tape@, old(parser).pos as int);
            &&& final(parser).pos as int == sp
            &&& match r {
                Ok((name, in_object)) => sr == Ok::<(Seq<char>, bool), ErrorView>((name@, in_object)),
                Err(e) => sr == Err::<(Seq<char>, bool), ErrorView>(e@),
            }
        }),
{
    if parser.peek_is_string() {
        match parser.parse_string_owned() {
            Ok(name) => Ok((name, false)),
            Err(e) => Err(e),
        }
    } else {
        match parser.begin_object() {
            Ok(_) => {},
            Err(e) => return Err(e),
        }
        match parser.parse_string_owned() {
            Ok(name) => Ok((name, true)),
            Err(e) => Err(e),
        }
    }
}

/// Consumes the `}` that closes the object around a variant's data.
pub fn end_variant_object(parser: &mut Parser<'_>) -> (r: Result<(), Error>)
    requires
        old(parser).wf(),
    ensures
        final(parser).src == old(parser).src,
        final(parser).tape@ == old(parser).tape@,
        ({
            let (sr, sp) = expect_tag_spec(old(parser).src@, old(parser).tape@, old(parser).pos as int, TOKEN_RBRACE, "'}'"@);
            &&& final(parser).pos as int == sp
            &&& match r {
                Ok(_) => sr is Ok,
                Err(e) => sr == Err::<int, ErrorView>(e@),
            }
        }),
{
    match parser.expect_tag(TOKEN_RBRACE, "'}'") {
        Ok(_) => Ok(()),
        Err(e) => Err(e),
    }
}

// ---------------------------------------------------------------------------
// Entry points
// ---------------------------------------------------------------------------

/// The outcome of deserializing a `T` from a whole document: the value at
/// the start of its tagged tape.
pub open spec fn document_spec<T: Deserialize>(src: Seq<u8>) -> Result<T::Model, ErrorView> {
    T::parse_spec(src, tagged_tape(src), 0).0
}

/// Deserializes a `T` from a JSON byte slice, which must be valid UTF-8.
pub fn from_slice<T: Deserialize>(src: &[u8]) -> (r: Result<T, Error>)
    requires
        src@.len() <= 0x1000_0000,
    ensures
        !valid_utf8(src@) ==> (r matches Err(e) && e@ == ErrorView::Custom(
            "invalid UTF-8: "@ + utf8_error_display(src@),
        )),
        valid_utf8(src@) ==> match r {
            Ok(v) => document_spec::<T>(src@) is Ok && v.models(document_spec::<T>(src@)->Ok_0),
            Err(e) => document_spec::<T>(src@) == Err::<T::Model, ErrorView>(e@),
        },
{
    match str_from_utf8(src) {
        Ok(_) => {},
        Err(_) => {
            let mut msg = text("invalid UTF-8: ");
            let detail = utf8_error_text(src);
            push_text(&mut msg, detail.as_str());
            return Err(Error::Custom(msg));
        },
    }
    let mut parser = Parser::new(src);
    T::deserialize(&mut parser)
}

/// Deserializes a `T` from a JSON string.
pub fn from_str<T: Deserialize>(s: &str) -> (r: Result<T, Error>)
    requires
        s.spec_bytes().len() <= 0x1000_0000,
    ensures
        match r {
            Ok(v) => document_spec::<T>(s.spec_bytes()) is Ok && v.models(document_spec::<T>(s.spec_bytes())->Ok_0),
            Err(e) => document_spec::<T>(s.spec_bytes()) == Err::<T::Model, ErrorView>(e@),
        },
{
    let bytes = s.as_bytes();
    let mut parser = Parser::new(bytes);
    T::deserialize(&mut parser)
}

} // verus!
