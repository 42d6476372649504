//! Parsing: a parser over the tagged structural tape of a JSON document, the
//! [`Deserialize`] trait, and its impls for the standard types.

use vstd::prelude::*;
use vstd::string::*;
use vstd::utf8::{decode_utf8, valid_utf8};
use crate::error::{push_int, push_text, text, Error, ErrorView};
use crate::scanner::{
    entry_offset, entry_tag, lemma_positions_bounds, lemma_tagged_entry, structural_positions,
    tag_byte, tagged_entry, Scanner, OFFSET_MASK, TOKEN_COLON, TOKEN_COMMA, TOKEN_LBRACE,
    TOKEN_LBRACKET, TOKEN_QUOTE, TOKEN_RBRACE, TOKEN_RBRACKET,
};
use crate::serialize::{bool_text, int_text, null_text};
use crate::number::{int_error_text, parse_int, parse_int_spec, IntErrorKind};
use crate::string::{decode_escapes, KString};
use crate::utf8::{ascii_chars, debug_utf8_result, str_from_utf8, utf8_result_debug};

verus! {

// ---------------------------------------------------------------------------
// The tape model
// ---------------------------------------------------------------------------

/// The tag of tape entry `pos`, if there is one.
pub open spec fn tag_at(tape: Seq<u32>, pos: int) -> Option<u32> {
    if 0 <= pos < tape.len() {
        Some(entry_tag(tape[pos]))
    } else {
        None
    }
}

/// A tape fits its source: the source has at most 2^28 bytes, and the
/// entries' offsets lie inside it and strictly increase.
pub open spec fn tape_wf(src: Seq<u8>, tape: Seq<u32>) -> bool {
    &&& src.len() <= 0x1000_0000
    &&& forall|k: int| 0 <= k < tape.len() ==> (entry_offset(#[trigger] tape[k]) as int) < src.len()
    &&& forall|k1: int, k2: int|
        0 <= k1 < k2 < tape.len() ==> entry_offset(#[trigger] tape[k1]) < entry_offset(
            #[trigger] tape[k2],
        )
}

/// The tagged tape of `src`: one entry per structural byte, in order.
pub open spec fn tagged_tape(src: Seq<u8>) -> Seq<u32> {
    structural_positions(src).map_values(|p: int| tagged_entry(src[p], p))
}

/// A tape of at most 2^28 offsets fits in memory without overflow.
pub(crate) proof fn lemma_tape_len(src: Seq<u8>, tape: Seq<u32>)
    requires
        tape_wf(src, tape),
    ensures
        tape.len() <= src.len(),
    decreases tape.len(),
{
    if tape.len() > 0 {
        let t = tape.drop_last();
        assert(tape_wf(src, t)) by {
            assert forall|k: int| 0 <= k < t.len() implies (entry_offset(#[trigger] t[k]) as int)
                < src.len() by {
                assert(t[k] == tape[k]);
            }
            assert forall|k1: int, k2: int| 0 <= k1 < k2 < t.len() implies entry_offset(
                #[trigger] t[k1],
            ) < entry_offset(#[trigger] t[k2]) by {
                assert(t[k1] == tape[k1]);
                assert(t[k2] == tape[k2]);
            }
        }
        lemma_tape_len(src, t);
        if tape.len() >= 2 {
            assert(entry_offset(tape[tape.len() - 2]) < entry_offset(tape[tape.len() - 1]));
        }
        lemma_offsets_grow(src, tape, tape.len() - 1);
    }
}

/// The offset of entry `k` is at least `k`.
proof fn lemma_offsets_grow(src: Seq<u8>, tape: Seq<u32>, k: int)
    requires
        tape_wf(src, tape),
        0 <= k < tape.len(),
    ensures
        entry_offset(tape[k]) >= k,
    decreases k,
{
    if k > 0 {
        lemma_offsets_grow(src, tape, k - 1);
        assert(entry_offset(tape[k - 1]) < entry_offset(tape[k]));
    }
}

// ---------------------------------------------------------------------------
// Line and column
// ---------------------------------------------------------------------------

/// The number of newline bytes in `s`.
pub open spec fn count_newlines(s: Seq<u8>) -> int
    decreases s.len(),
{
    if s.len() == 0 {
        0
    } else {
        count_newlines(s.drop_last()) + if s.last() == 0x0A {
            1int
        } else {
            0int
        }
    }
}

/// The index of the last newline byte in `s`, if any.
pub open spec fn last_newline(s: Seq<u8>) -> Option<int>
    decreases s.len(),
{
    if s.len() == 0 {
        None
    } else if s.last() == 0x0A {
        Some(s.len() - 1)
    } else {
        last_newline(s.drop_last())
    }
}

/// The 1-based line and column of byte `offset` of `src` (an offset past the
/// end counts as the end).
pub open spec fn line_col(src: Seq<u8>, offset: int) -> (int, int) {
    let safe = if offset < src.len() {
        offset
    } else {
        src.len() as int
    };
    let pre = src.take(safe);
    (
        count_newlines(pre) + 1,
        match last_newline(pre) {
            Some(nl) => safe - nl,
            None => safe + 1,
        },
    )
}

proof fn lemma_newline_bounds(s: Seq<u8>)
    ensures
        0 <= count_newlines(s) <= s.len(),
        match last_newline(s) {
            Some(nl) => 0 <= nl < s.len(),
            None => true,
        },
    decreases s.len(),
{
    if s.len() > 0 {
        lemma_newline_bounds(s.drop_last());
    }
}

/// The byte after a newline is at column 1 of the next line.
pub proof fn law_line_col_after_newline(src: Seq<u8>, i: int)
    requires
        0 <= i < src.len(),
        src[i] == 0x0A,
    ensures
        line_col(src, i + 1) == (line_col(src, i).0 + 1, 1int),
{
    assert(src.take(i + 1).drop_last() =~= src.take(i));
}

/// Converts a byte offset in `src` to a (1-based line, 1-based column) pair.
pub fn byte_offset_to_line_col(src: &[u8], offset: usize) -> (r: (usize, usize))
    requires
        src@.len() < usize::MAX,
    ensures
        r.0 as int == line_col(src@, offset as int).0,
        r.1 as int == line_col(src@, offset as int).1,
{
    let safe = if offset < src.len() {
        offset
    } else {
        src.len()
    };
    let mut line: usize = 1;
    let mut last: Option<usize> = None;
    let mut i: usize = 0;
    proof {
        assert(src@.take(0) =~= Seq::<u8>::empty());
    }
    while i < safe
        invariant
            i <= safe <= src@.len() < usize::MAX,
            line as int == count_newlines(src@.take(i as int)) + 1,
            line <= i + 1,
            match last {
                Some(nl) => last_newline(src@.take(i as int)) == Some(nl as int) && nl < i,
                None => last_newline(src@.take(i as int)) is None,
            },
        decreases safe - i,
    {
        proof {
            assert(src@.take(i + 1).drop_last() =~= src@.take(i as int));
        }
        if src[i] == 0x0A {
            line = line + 1;
            last = Some(i);
        }
        i = i + 1;
    }
    let col = match last {
        Some(nl) => safe - nl,
        None => safe + 1,
    };
    (line, col)
}

// ---------------------------------------------------------------------------
// Parser
// ---------------------------------------------------------------------------

/// Whitespace as the parser skips it: space, tab, newline, carriage return.
pub open spec fn is_ws(b: u8) -> bool {
    b == 0x20 || b == 0x09 || b == 0x0A || b == 0x0D
}

/// The first offset at or after `i` that is not whitespace (or the end).
pub open spec fn skip_ws_from(src: Seq<u8>, i: int) -> int
    decreases src.len() - i,
{
    if 0 <= i < src.len() && is_ws(src[i]) {
        skip_ws_from(src, i + 1)
    } else {
        i
    }
}

/// The offset where the next value starts: past whitespace, from the start
/// of the source at position 0, else from right after the byte of the most
/// recently consumed tape entry.
pub open spec fn value_start(src: Seq<u8>, tape: Seq<u32>, pos: int) -> int {
    if pos == 0 {
        skip_ws_from(src, 0)
    } else {
        skip_ws_from(src, entry_offset(tape[pos - 1]) + 1)
    }
}

/// Whether the entry at `pos` is a `]` that is the first byte of the next
/// value, so that the array it closes has no items.
pub open spec fn empty_array_close(src: Seq<u8>, tape: Seq<u32>, pos: int) -> bool {
    &&& tag_at(tape, pos) == Some(TOKEN_RBRACKET)
    &&& entry_offset(tape[pos]) == value_start(src, tape, pos)
}

/// A byte that ends a number: `,` `}` `]` or whitespace.
pub open spec fn ends_number(b: u8) -> bool {
    b == 0x2C || b == 0x7D || b == 0x5D || is_ws(b)
}

/// The first offset at or after `i` whose byte ends a number (or the end).
pub open spec fn number_end(src: Seq<u8>, i: int) -> int
    decreases src.len() - i,
{
    if 0 <= i < src.len() && !ends_number(src[i]) {
        number_end(src, i + 1)
    } else {
        i
    }
}

proof fn lemma_skip_ws_bounds(src: Seq<u8>, i: int)
    requires
        0 <= i <= src.len(),
    ensures
        i <= skip_ws_from(src, i) <= src.len(),
    decreases src.len() - i,
{
    if i < src.len() && is_ws(src[i]) {
        lemma_skip_ws_bounds(src, i + 1);
    }
}

pub(crate) proof fn lemma_number_end_bounds(src: Seq<u8>, i: int)
    requires
        0 <= i,
    ensures
        i <= number_end(src, i),
        i <= src.len() ==> number_end(src, i) <= src.len(),
    decreases src.len() - i,
{
    if 0 <= i < src.len() && !ends_number(src[i]) {
        lemma_number_end_bounds(src, i + 1);
    }
}

/// The `Debug` text of an optional tag: `Some(n)` or `None`.
pub open spec fn tag_debug(t: Option<u32>) -> Seq<char> {
    match t {
        Some(x) => "Some("@ + ascii_chars(int_text(x as int)) + ")"@,
        None => "None"@,
    }
}

/// The error for a tape entry `pos` that does not carry the expected tag,
/// located at that entry's byte (or at the end when the tape is exhausted).
pub open spec fn expect_tag_error(src: Seq<u8>, tape: Seq<u32>, pos: int, label: Seq<char>) -> ErrorView {
    let off = if 0 <= pos < tape.len() {
        entry_offset(tape[pos]) as int
    } else {
        src.len() as int
    };
    let lc = line_col(src, off);
    ErrorView::Parse(
        "expected "@ + label + ", got "@ + tag_debug(tag_at(tape, pos)),
        lc.0 as usize,
        lc.1 as usize,
    )
}

/// The outcome of `expect_tag`: the entry's offset and the next position,
/// or the error and the unchanged position.
pub open spec fn expect_tag_spec(src: Seq<u8>, tape: Seq<u32>, pos: int, expected: u32, label: Seq<char>) -> (Result<int, ErrorView>, int) {
    if tag_at(tape, pos) == Some(expected) {
        (Ok(entry_offset(tape[pos]) as int), pos + 1)
    } else {
        (Err(expect_tag_error(src, tape, pos, label)), pos)
    }
}

/// The outcome of reading a string token at `pos`: the offsets of its
/// opening and closing quotes, and the position after them.
pub open spec fn string_token(src: Seq<u8>, tape: Seq<u32>, pos: int) -> (Result<(int, int), ErrorView>, int) {
    let (open, p1) = expect_tag_spec(src, tape, pos, TOKEN_QUOTE, "opening '\"'"@);
    match open {
        Err(e) => (Err(e), p1),
        Ok(o) => if p1 >= tape.len() {
            (Err(ErrorView::Custom("unexpected end of tape after opening '\"'"@)), p1)
        } else if entry_tag(tape[p1]) != TOKEN_QUOTE {
            (Err(ErrorView::Custom("expected closing '\"'"@)), p1)
        } else {
            (Ok((o, entry_offset(tape[p1]) as int)), p1 + 1)
        },
    }
}

/// The bytes a string body decodes to: its escapes decoded if it holds a
/// backslash, else the body itself.
pub open spec fn string_body_bytes(raw: Seq<u8>) -> Seq<u8> {
    if raw.contains(0x5Cu8) {
        decode_escapes(raw)
    } else {
        raw
    }
}

/// The outcome of reading a string value at `pos` as text.
pub open spec fn string_value(src: Seq<u8>, tape: Seq<u32>, pos: int) -> (Result<Seq<char>, ErrorView>, int) {
    let (r, p) = string_token(src, tape, pos);
    match r {
        Err(e) => (Err(e), p),
        Ok((o, c)) => {
            let bytes = string_body_bytes(src.subrange(o + 1, c));
            if valid_utf8(bytes) {
                (Ok(decode_utf8(bytes)), p)
            } else {
                (Err(ErrorView::Custom("invalid UTF-8 in string"@)), p)
            }
        },
    }
}

/// Whether `src[start..start + lit.len()]` is `lit`.
pub open spec fn literal_at(src: Seq<u8>, start: int, lit: Seq<u8>) -> bool {
    0 <= start && start + lit.len() <= src.len() && src.subrange(start, start + lit.len()) == lit
}

/// The outcome of skipping to the entry that closes a nesting of `depth`
/// levels of `open`/`close` tags, starting at `pos`.
pub open spec fn skip_nested(tape: Seq<u32>, pos: int, depth: nat, open: u32, close: u32, msg: Seq<char>) -> (Result<(), ErrorView>, int)
    decreases tape.len() - pos,
{
    if depth == 0 {
        (Ok(()), pos)
    } else if pos < 0 || pos >= tape.len() {
        (Err(ErrorView::Custom(msg)), pos)
    } else {
        let t = entry_tag(tape[pos]);
        if t == open {
            skip_nested(tape, pos + 1, depth + 1, open, close, msg)
        } else if t == close {
            skip_nested(tape, pos + 1, (depth - 1) as nat, open, close, msg)
        } else {
            skip_nested(tape, pos + 1, depth, open, close, msg)
        }
    }
}

/// The outcome of skipping one value starting at `pos`: a string skips its
/// two quote entries, an object or array everything up to its closing
/// entry, and a primitive nothing (it has no entry).
pub open spec fn skip_value_spec(tape: Seq<u32>, pos: int) -> (Result<(), ErrorView>, int) {
    let t = tag_at(tape, pos);
    if t == Some(TOKEN_QUOTE) {
        (Ok(()), pos + 2)
    } else if t == Some(TOKEN_LBRACE) {
        skip_nested(tape, pos + 1, 1, TOKEN_LBRACE, TOKEN_RBRACE, "unexpected end of tape in object skip"@)
    } else if t == Some(TOKEN_LBRACKET) {
        skip_nested(tape, pos + 1, 1, TOKEN_LBRACKET, TOKEN_RBRACKET, "unexpected end of tape in array skip"@)
    } else {
        (Ok(()), pos)
    }
}

/// Skipping nested entries never moves backwards.
pub proof fn lemma_skip_nested_advances(tape: Seq<u32>, pos: int, depth: nat, open: u32, close: u32, msg: Seq<char>)
    ensures
        skip_nested(tape, pos, depth, open, close, msg).1 >= pos,
    decreases tape.len() - pos,
{
    if depth != 0 && 0 <= pos < tape.len() {
        let t = entry_tag(tape[pos]);
        if t == open {
            lemma_skip_nested_advances(tape, pos + 1, depth + 1, open, close, msg);
        } else if t == close {
            lemma_skip_nested_advances(tape, pos + 1, (depth - 1) as nat, open, close, msg);
        } else {
            lemma_skip_nested_advances(tape, pos + 1, depth, open, close, msg);
        }
    }
}

/// Skipping a value never moves backwards.
pub proof fn lemma_skip_value_advances(tape: Seq<u32>, pos: int)
    ensures
        skip_value_spec(tape, pos).1 >= pos,
{
    let t = tag_at(tape, pos);
    if t == Some(TOKEN_LBRACE) {
        lemma_skip_nested_advances(tape, pos + 1, 1, TOKEN_LBRACE, TOKEN_RBRACE, "unexpected end of tape in object skip"@);
    } else if t == Some(TOKEN_LBRACKET) {
        lemma_skip_nested_advances(tape, pos + 1, 1, TOKEN_LBRACKET, TOKEN_RBRACKET, "unexpected end of tape in array skip"@);
    }
}

/// The raw text of the number that starts at the current value.
pub open spec fn number_text(src: Seq<u8>, tape: Seq<u32>, pos: int) -> Seq<u8> {
    let start = value_start(src, tape, pos);
    src.subrange(start, number_end(src, start))
}

/// The outcome of reading the current value as an integer in `[lo, hi]`,
/// with `kind_name` in the message of a rejected text.
pub open spec fn int_value(src: Seq<u8>, tape: Seq<u32>, pos: int, signed: bool, lo: int, hi: int, kind_name: Seq<char>) -> Result<int, ErrorView> {
    let text = number_text(src, tape, pos);
    if !valid_utf8(text) {
        Err(ErrorView::Custom("non-utf8 number"@))
    } else {
        match parse_int_spec(text, signed, lo, hi) {
            Ok(v) => Ok(v),
            Err(k) => Err(ErrorView::Custom("invalid "@ + kind_name + ": "@ + int_error_text(k))),
        }
    }
}

/// The outcome of reading the current value as an `i64`.
pub open spec fn i64_value(src: Seq<u8>, tape: Seq<u32>, pos: int) -> Result<int, ErrorView> {
    int_value(src, tape, pos, true, i64::MIN as int, i64::MAX as int, "i64"@)
}

/// The outcome of reading the current value as a `u64`.
pub open spec fn u64_value(src: Seq<u8>, tape: Seq<u32>, pos: int) -> Result<int, ErrorView> {
    int_value(src, tape, pos, false, 0, u64::MAX as int, "u64"@)
}

/// What a rejected boolean was, as the message shows it: `None` when fewer
/// than five bytes are left, else `Some(..)` around the `Debug` text of
/// `std::str::from_utf8` applied to the next five bytes.
pub open spec fn bool_found_text(src: Seq<u8>, start: int) -> Seq<char> {
    if start + 5 <= src.len() {
        "Some("@ + utf8_result_debug(src.subrange(start, start + 5)) + ")"@
    } else {
        "None"@
    }
}

/// The message of a rejected boolean at `start`, up to what was found.
pub open spec fn bool_error_head(start: int) -> Seq<char> {
    "expected boolean at offset "@ + ascii_chars(int_text(start)) + ", got "@
}

/// The outcome of reading the current value as a boolean: the literal
/// `true` or `false` at the value's start, else an error that says what
/// was found there.
pub open spec fn bool_value(src: Seq<u8>, tape: Seq<u32>, pos: int) -> Result<bool, ErrorView> {
    let start = value_start(src, tape, pos);
    if literal_at(src, start, bool_text(true)) {
        Ok(true)
    } else if literal_at(src, start, bool_text(false)) {
        Ok(false)
    } else {
        Err(ErrorView::Custom(bool_error_head(start) + bool_found_text(src, start)))
    }
}

/// Whether `src[start..]` begins with `lit`.
pub(crate) fn bytes_at(src: &[u8], start: usize, lit: &[u8]) -> (r: bool)
    requires
        start <= src@.len(),
    ensures
        r == literal_at(src@, start as int, lit@),
{
    if src.len() - start < lit.len() {
        return false;
    }
    let mut k: usize = 0;
    while k < lit.len()
        invariant
            k <= lit@.len(),
            start + lit@.len() <= src.len(),
            src.len() == src@.len(),
            forall|j: int| 0 <= j < k ==> src@[start + j] == #[trigger] lit@[j],
        decreases lit@.len() - k,
    {
        if src[start + k] != lit[k] {
            proof {
                assert(src@.subrange(start as int, start + lit@.len())[k as int] != lit@[k as int]);
            }
            return false;
        }
        k = k + 1;
    }
    proof {
        assert(src@.subrange(start as int, start + lit@.len()) =~= lit@);
    }
    true
}

/// The outcome of stepping past a list separator at `pos`: `,` gives
/// `true`, the closing tag `close` gives `false`, both consumed; anything
/// else is an error naming the position.
pub open spec fn next_step_spec(tape: Seq<u32>, pos: int, close: u32, what: Seq<char>) -> (Result<bool, ErrorView>, int) {
    let t = tag_at(tape, pos);
    if t == Some(close) {
        (Ok(false), pos + 1)
    } else if t == Some(TOKEN_COMMA) {
        (Ok(true), pos + 1)
    } else {
        (Err(ErrorView::Custom(what + ascii_chars(int_text(pos)) + "]"@)), pos)
    }
}

/// The standard library's message for an integer parse error kind.
fn int_error_str(k: IntErrorKind) -> (r: &'static str)
    ensures
        r@ == int_error_text(k),
{
    match k {
        IntErrorKind::Empty => "cannot parse integer from empty string",
        IntErrorKind::InvalidDigit => "invalid digit found in string",
        IntErrorKind::PosOverflow => "number too large to fit in target type",
        IntErrorKind::NegOverflow => "number too small to fit in target type",
    }
}

/// Where the parser is after a step that may have failed.
pub enum ObjectStep {
    Continue,
    End,
}

/// Streaming JSON parser over the structural tape of its source.
pub struct Parser<'a> {
    pub src: &'a [u8],
    pub tape: Vec<u32>,
    /// The index of the next tape entry to read.
    pub pos: usize,
}

impl<'a> Parser<'a> {
    /// The tape fits the source (see [`tape_wf`]).
    pub open spec fn wf(&self) -> bool {
        tape_wf(self.src@, self.tape@)
    }

    /// A parser over `src`, positioned at the start of its tagged tape.
    pub fn new(src: &'a [u8]) -> (p: Self)
        requires
            src@.len() <= 0x1000_0000,
        ensures
            p.src == src,
            p.pos == 0,
            p.tape@ == tagged_tape(src@),
            p.wf(),
    {
        let n_slots = src.len() + 8;
        let mut tape: Vec<u32> = Vec::with_capacity(n_slots);
        let mut k: usize = 0;
        while k < n_slots
            invariant
                k <= n_slots,
                tape@.len() == k,
            decreases n_slots - k,
        {
            tape.push(0);
            k = k + 1;
        }
        let ghost ps = structural_positions(src@);
        proof {
            lemma_positions_bounds(src@, src@.len() as int);
        }
        let n = Scanner::new(src).scan(tape.as_mut_slice());
        assert(n == ps.len());
        tape.truncate(n);
        let mut k: usize = 0;
        while k < n
            invariant
                k <= n,
                n == ps.len(),
                tape@.len() == n,
                src@.len() <= 0x1000_0000,
                forall|j: int| 0 <= j < ps.len() ==> 0 <= #[trigger] ps[j] < src@.len(),
                forall|j: int| 0 <= j < k ==> #[trigger] tape@[j] == tagged_entry(src@[ps[j]], ps[j]),
                forall|j: int| k <= j < n ==> #[trigger] tape@[j] as int == ps[j],
            decreases n - k,
        {
            let p = tape[k] as usize;
            let t = tag_byte(src[p], p);
            tape[k] = t;
            k = k + 1;
        }
        let p = Parser { src, tape, pos: 0 };
        proof {
            assert(p.tape@ =~= tagged_tape(src@));
            assert forall|j: int| 0 <= j < p.tape@.len() implies entry_offset(#[trigger] p.tape@[j])
                == ps[j] by {
                lemma_tagged_entry(src@[ps[j]], ps[j] as u32);
            }
        }
        p
    }

    /// The tag of the entry at `pos`, if any.
    fn peek_tag(&self) -> (r: Option<u32>)
        ensures
            r == tag_at(self.tape@, self.pos as int),
    {
        if self.pos < self.tape.len() {
            Some(self.tape[self.pos] & 0xF000_0000u32)
        } else {
            None
        }
    }

    /// The byte offset of the entry at `pos`, if any.
    fn peek_offset(&self) -> (r: Option<usize>)
        ensures
            r == (if self.pos < self.tape@.len() {
                Some(entry_offset(self.tape@[self.pos as int]) as usize)
            } else {
                None
            }),
    {
        if self.pos < self.tape.len() {
            Some((self.tape[self.pos] & OFFSET_MASK) as usize)
        } else {
            None
        }
    }

    /// Moves to the next tape entry.
    fn advance(&mut self)
        requires
            old(self).pos < usize::MAX,
        ensures
            final(self).pos == old(self).pos + 1,
            final(self).src == old(self).src,
            final(self).tape@ == old(self).tape@,
    {
        self.pos = self.pos + 1;
    }

    /// Skips whitespace; the tape holds no whitespace, so there is nothing
    /// to do.
    fn skip_ws(&mut self)
        ensures
            *final(self) == *old(self),
    {
    }

    /// Expects the entry at `pos` to carry tag `expected`: returns its byte
    /// offset and moves past it, or returns a located error naming `label`.
    pub(crate) fn expect_tag(&mut self, expected: u32, label: &str) -> (r: Result<usize, Error>)
        requires
            old(self).wf(),
        ensures
            final(self).src == old(self).src,
            final(self).tape@ == old(self).tape@,
            ({
                let (sr, sp) = expect_tag_spec(old(self).src@, old(self).tape@, old(self).pos as int, expected, label@);
                &&& final(self).pos as int == sp
                &&& match r {
                    Ok(off) => sr == Ok::<int, ErrorView>(off as int),
                    Err(e) => sr == Err::<int, ErrorView>(e@),
                }
            }),
    {
        if self.pos < self.tape.len() && (self.tape[self.pos] & 0xF000_0000u32) == expected {
            let off = (self.tape[self.pos] & OFFSET_MASK) as usize;
            self.pos = self.pos + 1;
            Ok(off)
        } else {
            let byte_off = match self.peek_offset() {
                Some(o) => o,
                None => self.src.len(),
            };
            let (line, col) = byte_offset_to_line_col(self.src, byte_off);
            let mut msg = text("expected ");
            push_text(&mut msg, label);
            push_text(&mut msg, ", got ");
            let ghost head = msg@;
            match self.peek_tag() {
                Some(t) => {
                    push_text(&mut msg, "Some(");
                    push_int(&mut msg, t as i128);
                    push_text(&mut msg, ")");
                },
                None => push_text(&mut msg, "None"),
            }
            proof {
                assert(msg@ =~= head + tag_debug(tag_at(self.tape@, self.pos as int)));
            }
            Err(Error::parse_at(msg, line, col))
        }
    }

    /// Parses a JSON string: the tape holds an entry for its opening quote
    /// and one for its closing quote.
    pub fn parse_string(&mut self) -> (r: Result<KString<'a>, Error>)
        requires
            old(self).wf(),
        ensures
            final(self).src == old(self).src,
            final(self).tape@ == old(self).tape@,
            ({
                let (sr, sp) = string_token(old(self).src@, old(self).tape@, old(self).pos as int);
                &&& final(self).pos as int == sp
                &&& match r {
                    Ok(ks) => sr matches Ok((o, c)) && ks.raw_spec() == old(self).src@.subrange(
                        o + 1,
                        c,
                    ) && ks.escapes_spec() == ks.raw_spec().contains(0x5Cu8),
                    Err(e) => sr == Err::<(int, int), ErrorView>(e@),
                }
            }),
    {
        let open_off = self.expect_tag(TOKEN_QUOTE, "opening '\"'")?;
        if self.pos >= self.tape.len() {
            return Err(Error::custom("unexpected end of tape after opening '\"'"));
        }
        let close_entry = self.tape[self.pos];
        if (close_entry & 0xF000_0000u32) != TOKEN_QUOTE {
            return Err(Error::custom("expected closing '\"'"));
        }
        let close_off = (close_entry & OFFSET_MASK) as usize;
        proof {
            assert(entry_offset(self.tape@[self.pos - 1]) < entry_offset(self.tape@[self.pos as int]));
        }
        self.pos = self.pos + 1;
        let raw = vstd::slice::slice_subrange(self.src, open_off + 1, close_off);
        let mut has_escapes = false;
        let mut i: usize = 0;
        while i < raw.len()
            invariant
                i <= raw@.len(),
                has_escapes <==> exists|k: int| 0 <= k < i && raw@[k] == 0x5Cu8,
            decreases raw@.len() - i,
        {
            if raw[i] == 0x5C {
                has_escapes = true;
            }
            i = i + 1;
        }
        proof {
            if has_escapes {
                let k = choose|k: int| 0 <= k < i && raw@[k] == 0x5Cu8;
                assert(raw@.contains(0x5Cu8));
            }
        }
        Ok(KString::new(raw, has_escapes))
    }

    /// Parses a JSON string and returns its decoded text.
    pub fn parse_string_owned(&mut self) -> (r: Result<String, Error>)
        requires
            old(self).wf(),
        ensures
            final(self).src == old(self).src,
            final(self).tape@ == old(self).tape@,
            ({
                let (sr, sp) = string_value(old(self).src@, old(self).tape@, old(self).pos as int);
                &&& final(self).pos as int == sp
                &&& match r {
                    Ok(s) => sr == Ok::<Seq<char>, ErrorView>(s@),
                    Err(e) => sr == Err::<Seq<char>, ErrorView>(e@),
                }
            }),
    {
        let s = self.parse_string()?;
        let ghost bytes = s.decoded_bytes();
        let decoded = s.decoded_vec();
        match str_from_utf8(decoded.as_slice()) {
            Ok(t) => {
                proof {
                    vstd::utf8::encode_utf8_decode_utf8(t@);
                }
                Ok(t.to_owned())
            },
            Err(_) => Err(Error::custom("invalid UTF-8 in string")),
        }
    }

    /// The byte offset where the next value starts: past whitespace, from
    /// right after the most recently consumed tape entry, or from the start
    /// of the source when no entry was consumed.
    pub fn current_value_start(&self) -> (r: Result<usize, Error>)
        requires
            self.wf(),
            self.pos <= self.tape@.len(),
        ensures
            r matches Ok(s) && s as int == value_start(self.src@, self.tape@, self.pos as int),
            r matches Ok(s) && s <= self.src@.len(),
    {
        let mut i: usize = if self.pos == 0 {
            0
        } else {
            let prev = self.tape[self.pos - 1];
            (prev & OFFSET_MASK) as usize + 1
        };
        let ghost from = i as int;
        proof {
            lemma_skip_ws_bounds(self.src@, i as int);
        }
        while i < self.src.len() && (self.src[i] == 0x20 || self.src[i] == 0x09 || self.src[i]
            == 0x0A || self.src[i] == 0x0D)
            invariant
                i <= self.src@.len(),
                skip_ws_from(self.src@, i as int) == skip_ws_from(self.src@, from),
            decreases self.src@.len() - i,
        {
            i = i + 1;
        }
        Ok(i)
    }

    /// Whether the entry at `pos` is a `]` that directly follows the
    /// opening `[` (whitespace aside).
    pub(crate) fn at_empty_array_close(&self) -> (r: bool)
        requires
            self.wf(),
            self.pos <= self.tape@.len(),
        ensures
            r == empty_array_close(self.src@, self.tape@, self.pos as int),
            r ==> self.pos < self.tape.len(),
    {
        if self.pos < self.tape.len() && (self.tape[self.pos] & 0xF000_0000u32) == TOKEN_RBRACKET {
            match self.current_value_start() {
                Ok(start) => (self.tape[self.pos] & OFFSET_MASK) as usize == start,
                Err(_) => false,
            }
        } else {
            false
        }
    }

    fn scan_number_end(&self, start: usize) -> (r: usize)
        ensures
            r as int == number_end(self.src@, start as int),
    {
        let mut i = start;
        proof {
            lemma_number_end_bounds(self.src@, start as int);
        }
        while i < self.src.len() && !(self.src[i] == 0x2C || self.src[i] == 0x7D || self.src[i]
            == 0x5D || self.src[i] == 0x20 || self.src[i] == 0x09 || self.src[i] == 0x0A
            || self.src[i] == 0x0D)
            invariant
                start <= i,
                number_end(self.src@, i as int) == number_end(self.src@, start as int),
            decreases self.src@.len() - i,
        {
            i = i + 1;
        }
        i
    }

    /// The first offset at or after `start` whose byte ends a number: `,`,
    /// `}`, `]` or whitespace (or the end of the source).
    pub fn scan_number_end_pub(&self, start: usize) -> (r: usize)
        ensures
            r as int == number_end(self.src@, start as int),
    {
        self.scan_number_end(start)
    }

    /// The raw bytes of the number at the current value.
    fn parse_number_bytes(&mut self) -> (r: Result<&'a [u8], Error>)
        requires
            old(self).wf(),
            old(self).pos <= old(self).tape@.len(),
        ensures
            *final(self) == *old(self),
            r matches Ok(b) && b@ == number_text(old(self).src@, old(self).tape@, old(self).pos as int),
    {
        let start = self.current_value_start()?;
        let end = self.scan_number_end(start);
        proof {
            lemma_number_end_bounds(self.src@, start as int);
        }
        Ok(vstd::slice::slice_subrange(self.src, start, end))
    }

    /// Whether the current value is the literal `null`. Consumes nothing.
    pub fn parse_null(&mut self) -> (r: Result<bool, Error>)
        requires
            old(self).wf(),
            old(self).pos <= old(self).tape@.len(),
        ensures
            *final(self) == *old(self),
            r matches Ok(b) && b == literal_at(
                old(self).src@,
                value_start(old(self).src@, old(self).tape@, old(self).pos as int),
                null_text(),
            ),
    {
        let start = self.current_value_start()?;
        let lit: [u8; 4] = [0x6E, 0x75, 0x6C, 0x6C];
        Ok(bytes_at(self.src, start, lit.as_slice()))
    }

    /// Reads the current value as the literal `true` or `false`. Consumes
    /// nothing.
    pub fn parse_bool(&mut self) -> (r: Result<bool, Error>)
        requires
            old(self).wf(),
            old(self).pos <= old(self).tape@.len(),
        ensures
            *final(self) == *old(self),
            match r {
                Ok(b) => bool_value(old(self).src@, old(self).tape@, old(self).pos as int) == Ok::<bool, ErrorView>(b),
                Err(e) => bool_value(old(self).src@, old(self).tape@, old(self).pos as int) == Err::<bool, ErrorView>(e@),
            },
    {
        let start = self.current_value_start()?;
        let t: [u8; 4] = [0x74, 0x72, 0x75, 0x65];
        let f: [u8; 5] = [0x66, 0x61, 0x6C, 0x73, 0x65];
        proof {
            assert(t@ =~= bool_text(true));
            assert(f@ =~= bool_text(false));
        }
        if bytes_at(self.src, start, t.as_slice()) {
            Ok(true)
        } else if bytes_at(self.src, start, f.as_slice()) {
            Ok(false)
        } else {
            let mut msg = text("expected boolean at offset ");
            push_int(&mut msg, start as i128);
            push_text(&mut msg, ", got ");
            if self.src.len() - start >= 5 {
                let sub = vstd::slice::slice_subrange(self.src, start, start + 5);
                push_text(&mut msg, "Some(");
                let d = debug_utf8_result(sub);
                push_text(&mut msg, d.as_str());
                push_text(&mut msg, ")");
            } else {
                push_text(&mut msg, "None");
            }
            assert(msg@ =~= bool_error_head(start as int) + bool_found_text(self.src@, start as int));
            Err(Error::Custom(msg))
        }
    }

    /// Expects `{`: returns its byte offset.
    pub fn begin_object(&mut self) -> (r: Result<usize, Error>)
        requires
            old(self).wf(),
        ensures
            final(self).src == old(self).src,
            final(self).tape@ == old(self).tape@,
            ({
                let (sr, sp) = expect_tag_spec(old(self).src@, old(self).tape@, old(self).pos as int, TOKEN_LBRACE, "'{'"@);
                &&& final(self).pos as int == sp
                &&& match r {
                    Ok(off) => sr == Ok::<int, ErrorView>(off as int),
                    Err(e) => sr == Err::<int, ErrorView>(e@),
                }
            }),
    {
        self.expect_tag(TOKEN_LBRACE, "'{'")
    }

    /// If the next entry is `}`, consumes it and returns `End`; otherwise
    /// returns `Continue` and consumes nothing.
    pub fn end_object_or_comma(&mut self) -> (r: Result<ObjectStep, Error>)
        ensures
            final(self).src == old(self).src,
            final(self).tape@ == old(self).tape@,
            if tag_at(old(self).tape@, old(self).pos as int) == Some(TOKEN_RBRACE) {
                r matches Ok(ObjectStep::End) && final(self).pos == old(self).pos + 1
            } else {
                r matches Ok(ObjectStep::Continue) && final(self).pos == old(self).pos
            },
    {
        if self.pos < self.tape.len() && (self.tape[self.pos] & 0xF000_0000u32) == TOKEN_RBRACE {
            self.pos = self.pos + 1;
            Ok(ObjectStep::End)
        } else {
            Ok(ObjectStep::Continue)
        }
    }

    /// After a key, expects `:`.
    pub fn expect_colon(&mut self) -> (r: Result<(), Error>)
        requires
            old(self).wf(),
        ensures
            final(self).src == old(self).src,
            final(self).tape@ == old(self).tape@,
            ({
                let (sr, sp) = expect_tag_spec(old(self).src@, old(self).tape@, old(self).pos as int, TOKEN_COLON, "':'"@);
                &&& final(self).pos as int == sp
                &&& match r {
                    Ok(_) => sr is Ok,
                    Err(e) => sr == Err::<int, ErrorView>(e@),
                }
            }),
    {
        match self.expect_tag(TOKEN_COLON, "':'") {
            Ok(_) => Ok(()),
            Err(e) => Err(e),
        }
    }

    /// After a member's value: `,` is consumed and gives `true` (more
    /// members), `}` is consumed and gives `false`, anything else is an
    /// error.
    pub fn object_next(&mut self) -> (r: Result<bool, Error>)
        ensures
            final(self).src == old(self).src,
            final(self).tape@ == old(self).tape@,
            ({
                let (sr, sp) = next_step_spec(old(self).tape@, old(self).pos as int, TOKEN_RBRACE, "expected ',' or '}' at tape["@);
                &&& final(self).pos as int == sp
                &&& match r {
                    Ok(b) => sr == Ok::<bool, ErrorView>(b),
                    Err(e) => sr == Err::<bool, ErrorView>(e@),
                }
            }),
    {
        self.list_next(TOKEN_RBRACE, "expected ',' or '}' at tape[")
    }

    fn list_next(&mut self, close: u32, what: &str) -> (r: Result<bool, Error>)
        ensures
            final(self).src == old(self).src,
            final(self).tape@ == old(self).tape@,
            ({
                let (sr, sp) = next_step_spec(old(self).tape@, old(self).pos as int, close, what@);
                &&& final(self).pos as int == sp
                &&& match r {
                    Ok(b) => sr == Ok::<bool, ErrorView>(b),
                    Err(e) => sr == Err::<bool, ErrorView>(e@),
                }
            }),
    {
        if self.pos < self.tape.len() {
            let t = self.tape[self.pos] & 0xF000_0000u32;
            if t == close {
                self.pos = self.pos + 1;
                return Ok(false);
            } else if t == TOKEN_COMMA {
                self.pos = self.pos + 1;
                return Ok(true);
            }
        }
        let mut msg = text(what);
        push_int(&mut msg, self.pos as i128);
        push_text(&mut msg, "]");
        Err(Error::Custom(msg))
    }

    /// Expects `[`.
    pub fn begin_array(&mut self) -> (r: Result<(), Error>)
        requires
            old(self).wf(),
        ensures
            final(self).src == old(self).src,
            final(self).tape@ == old(self).tape@,
            ({
                let (sr, sp) = expect_tag_spec(old(self).src@, old(self).tape@, old(self).pos as int, TOKEN_LBRACKET, "'['"@);
                &&& final(self).pos as int == sp
                &&& match r {
                    Ok(_) => sr is Ok,
                    Err(e) => sr == Err::<int, ErrorView>(e@),
                }
            }),
    {
        match self.expect_tag(TOKEN_LBRACKET, "'['") {
            Ok(_) => Ok(()),
            Err(e) => Err(e),
        }
    }

    /// After an element: `,` is consumed and gives `true` (more elements),
    /// `]` is consumed and gives `false`, anything else is an error.
    pub fn array_next(&mut self) -> (r: Result<bool, Error>)
        ensures
            final(self).src == old(self).src,
            final(self).tape@ == old(self).tape@,
            ({
                let (sr, sp) = next_step_spec(old(self).tape@, old(self).pos as int, TOKEN_RBRACKET, "expected ',' or ']' at tape["@);
                &&& final(self).pos as int == sp
                &&& match r {
                    Ok(b) => sr == Ok::<bool, ErrorView>(b),
                    Err(e) => sr == Err::<bool, ErrorView>(e@),
                }
            }),
    {
        self.list_next(TOKEN_RBRACKET, "expected ',' or ']' at tape[")
    }

    /// Whether the next entry opens a string.
    pub fn peek_is_string(&self) -> (r: bool)
        ensures
            r == (tag_at(self.tape@, self.pos as int) == Some(TOKEN_QUOTE)),
    {
        self.peek_tag() == Some(TOKEN_QUOTE)
    }

    /// Whether the next entry opens an object.
    pub fn peek_is_object(&self) -> (r: bool)
        ensures
            r == (tag_at(self.tape@, self.pos as int) == Some(TOKEN_LBRACE)),
    {
        self.peek_tag() == Some(TOKEN_LBRACE)
    }

    /// Whether the next entry opens an array.
    pub fn peek_is_array(&self) -> (r: bool)
        ensures
            r == (tag_at(self.tape@, self.pos as int) == Some(TOKEN_LBRACKET)),
    {
        self.peek_tag() == Some(TOKEN_LBRACKET)
    }

    /// Skips a single value (object, array, string, or primitive).
    pub fn skip_value(&mut self) -> (r: Result<(), Error>)
        requires
            old(self).wf(),
        ensures
            final(self).src == old(self).src,
            final(self).tape@ == old(self).tape@,
            ({
                let (sr, sp) = skip_value_spec(old(self).tape@, old(self).pos as int);
                &&& final(self).pos as int == sp
                &&& match r {
                    Ok(_) => sr is Ok,
                    Err(e) => sr == Err::<(), ErrorView>(e@),
                }
            }),
    {
        proof {
            lemma_tape_len(self.src@, self.tape@);
        }
        let t = self.peek_tag();
        if t == Some(TOKEN_QUOTE) {
            self.pos = self.pos + 2;
            Ok(())
        } else if t == Some(TOKEN_LBRACE) {
            self.pos = self.pos + 1;
            self.skip_nested(TOKEN_LBRACE, TOKEN_RBRACE, "unexpected end of tape in object skip")
        } else if t == Some(TOKEN_LBRACKET) {
            self.pos = self.pos + 1;
            self.skip_nested(TOKEN_LBRACKET, TOKEN_RBRACKET, "unexpected end of tape in array skip")
        } else {
            Ok(())
        }
    }

    fn skip_nested(&mut self, open: u32, close: u32, msg: &str) -> (r: Result<(), Error>)
        requires
            old(self).tape@.len() <= 0x1000_0000,
            old(self).pos <= old(self).tape@.len(),
        ensures
            final(self).src == old(self).src,
            final(self).tape@ == old(self).tape@,
            ({
                let (sr, sp) = skip_nested(old(self).tape@, old(self).pos as int, 1, open, close, msg@);
                &&& final(self).pos as int == sp
                &&& match r {
                    Ok(_) => sr is Ok,
                    Err(e) => sr == Err::<(), ErrorView>(e@),
                }
            }),
    {
        let ghost p0 = self.pos;
        let mut depth: usize = 1;
        while depth > 0
            invariant
                self.src == old(self).src,
                self.tape@ == old(self).tape@,
                self.tape@.len() <= 0x1000_0000,
                p0 <= self.pos <= self.tape@.len(),
                p0 == old(self).pos,
                depth <= self.pos - p0 + 1,
                skip_nested(self.tape@, p0 as int, 1, open, close, msg@) == skip_nested(
                    self.tape@,
                    self.pos as int,
                    depth as nat,
                    open,
                    close,
                    msg@,
                ),
            decreases self.tape@.len() - self.pos, depth,
        {
            match self.peek_tag() {
                Some(t) => {
                    if t == open {
                        depth = depth + 1;
                    } else if t == close {
                        depth = depth - 1;
                    }
                    self.pos = self.pos + 1;
                },
                None => {
                    assert(skip_nested(self.tape@, self.pos as int, depth as nat, open, close, msg@)
                        == (Err::<(), ErrorView>(ErrorView::Custom(msg@)), self.pos as int));
                    return Err(Error::custom(msg));
                },
            }
        }
        Ok(())
    }

    /// Reads the current value as an `i64`. Consumes nothing.
    pub fn parse_i64(&mut self) -> (r: Result<i64, Error>)
        requires
            old(self).wf(),
            old(self).pos <= old(self).tape@.len(),
        ensures
            *final(self) == *old(self),
            match r {
                Ok(v) => i64_value(old(self).src@, old(self).tape@, old(self).pos as int) == Ok::<
                    int,
                    ErrorView,
                >(v as int),
                Err(e) => i64_value(old(self).src@, old(self).tape@, old(self).pos as int) == Err::<
                    int,
                    ErrorView,
                >(e@),
            },
    {
        match self.parse_int_value(true, i64::MIN as i128, i64::MAX as i128, "i64") {
            Ok(v) => Ok(v as i64),
            Err(e) => Err(e),
        }
    }

    /// Reads the current value as a `u64`. Consumes nothing.
    pub fn parse_u64(&mut self) -> (r: Result<u64, Error>)
        requires
            old(self).wf(),
            old(self).pos <= old(self).tape@.len(),
        ensures
            *final(self) == *old(self),
            match r {
                Ok(v) => u64_value(old(self).src@, old(self).tape@, old(self).pos as int) == Ok::<
                    int,
                    ErrorView,
                >(v as int),
                Err(e) => u64_value(old(self).src@, old(self).tape@, old(self).pos as int) == Err::<
                    int,
                    ErrorView,
                >(e@),
            },
    {
        match self.parse_int_value(false, 0, u64::MAX as i128, "u64") {
            Ok(v) => Ok(v as u64),
            Err(e) => Err(e),
        }
    }

    fn parse_int_value(&mut self, signed: bool, lo: i128, hi: i128, kind_name: &str) -> (r: Result<i128, Error>)
        requires
            old(self).wf(),
            old(self).pos <= old(self).tape@.len(),
            -0x1_0000_0000_0000_0000 <= lo <= 0 <= hi <= 0x1_0000_0000_0000_0000,
        ensures
            *final(self) == *old(self),
            match r {
                Ok(v) => int_value(old(self).src@, old(self).tape@, old(self).pos as int, signed, lo as int, hi as int, kind_name@)
                    == Ok::<int, ErrorView>(v as int) && lo <= v <= hi,
                Err(e) => int_value(old(self).src@, old(self).tape@, old(self).pos as int, signed, lo as int, hi as int, kind_name@)
                    == Err::<int, ErrorView>(e@),
            },
    {
        let bytes = self.parse_number_bytes()?;
        match str_from_utf8(bytes) {
            Ok(_) => {},
            Err(_) => {
                return Err(Error::custom("non-utf8 number"));
            },
        }
        match parse_int(bytes, signed, lo, hi) {
            Ok(v) => {
                Ok(v)
            },
            Err(k) => {
                let mut msg = text("invalid ");
                push_text(&mut msg, kind_name);
                push_text(&mut msg, ": ");
                push_text(&mut msg, int_error_str(k));
                Err(Error::Custom(msg))
            },
        }
    }
}

} // verus!
