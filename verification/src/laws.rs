//! Properties that span the writer and the reader: what reading gives back
//! of what writing wrote.

use vstd::prelude::*;
use vstd::string::StringSliceAdditionalSpecFns;
use vstd::utf8::{
    decode_utf8, decode_utf8_encode_utf8, encode_utf8, encode_utf8_decode_utf8, encode_utf8_valid_utf8,
    valid_utf8,
};
use crate::deser::{array_items, document_spec, members_map, slot_model, variant_head_spec, Deserialize};
use crate::schema::{field_index, field_index_from, key_of, unit_variant_text, FieldSpec};
use crate::error::ErrorView;
use crate::fast_user::{
    user_field, user_json, user_members, user_spec, FastUser,
    UserFields,
};
use crate::number::{accumulate, is_digit, parse_int_spec};
use crate::parse::{
    bool_value, empty_array_close, literal_at, ends_number, i64_value, is_ws, number_end, number_text,
    skip_nested, skip_value_spec, skip_ws_from, string_body_bytes, string_value, tag_at, tagged_tape, u64_value, value_start,
};
use crate::scanner::{
    entry_offset, entry_tag, lemma_tagged_entry, positions_upto, records, scan_state, scan_step,
    is_structural_byte, lemma_quiet_run, structural_positions, tagged_entry, token_of,
    TOKEN_COLON, TOKEN_COMMA, TOKEN_LBRACE, TOKEN_LBRACKET, TOKEN_QUOTE, TOKEN_RBRACE,
    TOKEN_RBRACKET,
};
use crate::serialize::{
    bool_text, decimal_digits, null_text, escape_body, escape_byte, escape_code, hex_digit, int_text,
    json_array, json_items, json_string, lemma_decimal_digits_ascii, lemma_int_text_ascii, Serialize,
};
use crate::utf8::{ascii_chars, lemma_ascii_utf8};
use crate::value::{Value, ValueView};
use crate::string::decode_escapes;

verus! {

/// No byte of `b` is written with the generic `\u00XX` escape (that is, no
/// control byte other than backspace, form feed, newline, carriage return
/// and tab).
pub open spec fn no_unicode_escapes(b: Seq<u8>) -> bool {
    forall|i: int| 0 <= i < b.len() ==> escape_code(#[trigger] b[i]) != 0x75
}

/// Escaping a byte in front of the rest escapes it in front of the rest's
/// escaping.
pub proof fn lemma_escape_body_cons(x: u8, r: Seq<u8>)
    ensures
        escape_body(seq![x] + r) == escape_byte(x) + escape_body(r),
    decreases r.len(),
{
    if r.len() == 0 {
        assert(seq![x] + r =~= seq![x]);
        assert(seq![x].drop_last() =~= Seq::<u8>::empty());
        assert(seq![x].last() == x);
        assert(escape_body(Seq::<u8>::empty()) =~= Seq::<u8>::empty());
        assert(escape_body(seq![x]) == escape_body(Seq::<u8>::empty()) + escape_byte(x));
        assert(escape_body(seq![x]) =~= escape_byte(x));
        assert(escape_body(r) =~= Seq::<u8>::empty());
        assert(escape_byte(x) + escape_body(r) =~= escape_byte(x));
    } else {
        lemma_escape_body_cons(x, r.drop_last());
        assert((seq![x] + r).drop_last() =~= seq![x] + r.drop_last());
        assert((seq![x] + r).last() == r.last());
        assert(escape_byte(x) + escape_body(r.drop_last()) + escape_byte(r.last()) =~= escape_byte(x)
            + escape_body(r));
    }
}

/// Decoding the escape of one byte in front of more text gives the byte in
/// front of the decoding of the rest.
proof fn lemma_decode_escaped_byte(x: u8, rest: Seq<u8>)
    requires
        escape_code(x) != 0x75,
    ensures
        decode_escapes(escape_byte(x) + rest) == seq![x] + decode_escapes(rest),
{
    let s = escape_byte(x) + rest;
    if escape_code(x) == 0 {
        assert(s.skip(1) =~= rest);
    } else {
        assert(s[0] == 0x5C);
        assert(s.skip(2) =~= rest);
    }
}

/// Decoding undoes escaping, for bytes that need no `\u00XX` escape.
pub proof fn law_decode_undoes_escape(b: Seq<u8>)
    requires
        no_unicode_escapes(b),
    ensures
        decode_escapes(escape_body(b)) == b,
    decreases b.len(),
{
    if b.len() > 0 {
        let rest = b.skip(1);
        assert(b =~= seq![b[0]] + rest);
        lemma_escape_body_cons(b[0], rest);
        assert(no_unicode_escapes(rest)) by {
            assert forall|i: int| 0 <= i < rest.len() implies escape_code(#[trigger] rest[i]) != 0x75 by {
                assert(rest[i] == b[i + 1]);
            }
        }
        law_decode_undoes_escape(rest);
        assert(escape_code(b[0]) != 0x75);
        lemma_decode_escaped_byte(b[0], escape_body(rest));
    } else {
        assert(escape_body(b) =~= Seq::<u8>::empty());
    }
}

/// Text without a backslash decodes to itself.
proof fn lemma_decode_plain(s: Seq<u8>)
    requires
        !s.contains(0x5Cu8),
    ensures
        decode_escapes(s) == s,
    decreases s.len(),
{
    if s.len() > 0 {
        assert(s[0] != 0x5C) by {
            if s[0] == 0x5C {
                assert(s.contains(0x5Cu8));
            }
        }
        let rest = s.skip(1);
        assert(!rest.contains(0x5Cu8)) by {
            if rest.contains(0x5Cu8) {
                let k = choose|k: int| 0 <= k < rest.len() && rest[k] == 0x5Cu8;
                assert(s[k + 1] == 0x5Cu8);
            }
        }
        lemma_decode_plain(rest);
        assert(s =~= seq![s[0]] + rest);
    }
}

/// The bytes that a string body written by the escaper reads back as are
/// the bytes written, for bytes that need no `\u00XX` escape.
pub proof fn law_string_body_roundtrip(b: Seq<u8>)
    requires
        no_unicode_escapes(b),
    ensures
        string_body_bytes(escape_body(b)) == b,
{
    law_decode_undoes_escape(b);
    if !escape_body(b).contains(0x5Cu8) {
        lemma_decode_plain(escape_body(b));
    }
}

/// One more byte that the scanner neither records nor leaves the state
/// `st` on.
proof fn lemma_scan_quiet_byte(input: Seq<u8>, i: int, st: (bool, bool))
    requires
        0 <= i < input.len(),
        scan_state(input, i) == st,
        scan_step(st, input[i]) == st,
        !records(st, input[i]),
    ensures
        scan_state(input, i + 1) == st,
        positions_upto(input, i + 1) == positions_upto(input, i),
{
}

/// Inside a string, the escape of one byte is read without recording
/// anything and leaves the scanner inside the string.
proof fn lemma_scan_escape_byte(input: Seq<u8>, i: int, x: u8)
    requires
        0 <= i,
        i + escape_byte(x).len() <= input.len(),
        input.subrange(i, i + escape_byte(x).len()) == escape_byte(x),
        scan_state(input, i) == (true, false),
    ensures
        scan_state(input, i + escape_byte(x).len()) == (true, false),
        positions_upto(input, i + escape_byte(x).len()) == positions_upto(input, i),
{
    let e = escape_byte(x);
    assert forall|k: int| 0 <= k < e.len() implies input[i + k] == #[trigger] e[k] by {
        assert(input.subrange(i, i + e.len())[k] == input[i + k]);
    }
    let st = (true, false);
    if escape_code(x) == 0 {
        assert(e =~= seq![x]);
        assert(input[i + 0] == e[0]);
        assert(input[i] == x);
        lemma_scan_quiet_byte(input, i, st);
    } else {
        assert(input[i] == 0x5C);
        assert(input[i + 1] == e[1]);
        assert(scan_state(input, i + 1) == (true, true));
        assert(positions_upto(input, i + 1) == positions_upto(input, i));
        assert(scan_state(input, i + 2) == st);
        assert(positions_upto(input, i + 2) == positions_upto(input, i + 1));
        if escape_code(x) == 0x75 {
            assert(x >> 4u8 < 16) by (bit_vector);
            assert(x & 0xFu8 < 16) by (bit_vector);
            let h = hex_digit(x >> 4u8);
            let l = hex_digit(x & 0xFu8);
            assert(input[i + 2] == 0x30u8);
            assert(input[i + 3] == 0x30u8);
            assert(input[i + 4] == h);
            assert(input[i + 5] == l);
            lemma_scan_quiet_byte(input, i + 2, st);
            lemma_scan_quiet_byte(input, i + 3, st);
            lemma_scan_quiet_byte(input, i + 4, st);
            lemma_scan_quiet_byte(input, i + 5, st);
        }
    }
}

/// Inside a string, an escaped body is read without recording anything
/// and leaves the scanner inside the string.
proof fn lemma_scan_escape_body(input: Seq<u8>, i: int, b: Seq<u8>)
    requires
        0 <= i,
        i + escape_body(b).len() <= input.len(),
        input.subrange(i, i + escape_body(b).len()) == escape_body(b),
        scan_state(input, i) == (true, false),
    ensures
        scan_state(input, i + escape_body(b).len()) == (true, false),
        positions_upto(input, i + escape_body(b).len()) == positions_upto(input, i),
    decreases b.len(),
{
    if b.len() == 0 {
        assert(escape_body(b) =~= Seq::<u8>::empty());
    } else {
        let rest = b.skip(1);
        assert(b =~= seq![b[0]] + rest);
        lemma_escape_body_cons(b[0], rest);
        let e = escape_byte(b[0]);
        let body = escape_body(b);
        assert(input.subrange(i, i + e.len()) =~= e) by {
            assert(body.subrange(0, e.len() as int) =~= e);
            assert(input.subrange(i, i + e.len()) =~= input.subrange(i, i + body.len()).subrange(0, e.len() as int));
        }
        lemma_scan_escape_byte(input, i, b[0]);
        let j = i + e.len();
        assert(input.subrange(j, j + escape_body(rest).len()) =~= escape_body(rest)) by {
            assert(body.subrange(e.len() as int, body.len() as int) =~= escape_body(rest));
            assert(input.subrange(j, j + escape_body(rest).len()) =~= input.subrange(i, i + body.len()).subrange(
                e.len() as int,
                body.len() as int,
            ));
        }
        lemma_scan_escape_body(input, j, rest);
    }
}

/// The structural positions of a string literal written by the escaper
/// are its two quotes.
pub proof fn lemma_string_literal_positions(b: Seq<u8>)
    ensures
        structural_positions(json_string(b)) == seq![0int, json_string(b).len() - 1],
{
    let input = json_string(b);
    let body = escape_body(b);
    let last = input.len() - 1;
    assert(input.len() == body.len() + 2);
    assert(input[0] == 0x22);
    assert(scan_state(input, 0) == (false, false));
    assert(positions_upto(input, 0) =~= Seq::<int>::empty());
    assert(scan_state(input, 1) == (true, false));
    assert(positions_upto(input, 1) =~= seq![0int]);
    assert(input.subrange(1, 1 + body.len() as int) =~= body);
    lemma_scan_escape_body(input, 1, b);
    assert(input[last] == 0x22);
    assert(positions_upto(input, last + 1) =~= seq![0int, last]);
}

/// Reading a string from the text that writing it produced gives it back,
/// for strings whose bytes need no `\u00XX` escape (within the parser's
/// size limit).
pub proof fn law_string_roundtrip(s: Seq<char>)
    requires
        no_unicode_escapes(encode_utf8(s)),
        json_string(encode_utf8(s)).len() <= 0x1000_0000,
    ensures
        document_spec::<String>(json_string(encode_utf8(s))) == Ok::<Seq<char>, ErrorView>(s),
{
    let b = encode_utf8(s);
    let input = json_string(b);
    let last = input.len() - 1;
    lemma_string_literal_positions(b);
    let tape = tagged_tape(input);
    assert(tape.len() == 2);
    assert(tape[0] == tagged_entry(input[0], 0));
    assert(tape[1] == tagged_entry(input[last], last));
    lemma_tagged_entry(0x22u8, 0u32);
    lemma_tagged_entry(0x22u8, last as u32);
    assert(entry_tag(tape[0]) == TOKEN_QUOTE);
    assert(entry_offset(tape[0]) == 0);
    assert(entry_tag(tape[1]) == TOKEN_QUOTE);
    assert(entry_offset(tape[1]) == last);
    assert(input.subrange(1, last) =~= escape_body(b));
    law_string_body_roundtrip(b);
    encode_utf8_valid_utf8(s);
    encode_utf8_decode_utf8(s);
}

// ---------------------------------------------------------------------------
// Integers and booleans
// ---------------------------------------------------------------------------

/// Reading one more digit after digits that read as `v`.
proof fn lemma_accumulate_push(s: Seq<u8>, i: int, acc: int, neg: bool, lo: int, hi: int, d: u8, v: int)
    requires
        0 <= i <= s.len(),
        accumulate(s, i, acc, neg, lo, hi) == Ok::<int, crate::number::IntErrorKind>(v),
        is_digit(d),
        lo <= (if neg { v * 10 - (d - 0x30) } else { v * 10 + (d - 0x30) }) <= hi,
    ensures
        accumulate(s.push(d), i, acc, neg, lo, hi) == Ok::<int, crate::number::IntErrorKind>(
            if neg { v * 10 - (d - 0x30) } else { v * 10 + (d - 0x30) },
        ),
    decreases s.len() - i,
{
    let t = s.push(d);
    assert(t[s.len() as int] == d);
    if i < s.len() {
        assert(t[i] == s[i]);
        let di = s[i] - 0x30;
        let next = if neg { acc * 10 - di } else { acc * 10 + di };
        lemma_accumulate_push(s, i + 1, next, neg, lo, hi, d, v);
    } else {
        let next = if neg { acc * 10 - (d - 0x30) } else { acc * 10 + (d - 0x30) };
        assert(accumulate(t, i + 1, next, neg, lo, hi) == Ok::<int, crate::number::IntErrorKind>(next));
    }
}

/// Reading the decimal digits of `n` after a prefix `p` gives `n` (or `-n`
/// when negating), when that value is in range.
proof fn lemma_accumulate_digits(p: Seq<u8>, n: nat, neg: bool, lo: int, hi: int)
    requires
        lo <= 0 <= hi,
        neg ==> lo <= -n,
        !neg ==> n <= hi,
    ensures
        accumulate(p + decimal_digits(n), p.len() as int, 0, neg, lo, hi) == Ok::<int, crate::number::IntErrorKind>(
            if neg { -n } else { n as int },
        ),
    decreases n,
{
    lemma_decimal_digits_ascii(n);
    if n < 10 {
        let s = p + decimal_digits(n);
        let d = (0x30 + n) as u8;
        assert(s[p.len() as int] == d);
        let next = if neg { 0 * 10 - (d - 0x30) } else { 0 * 10 + (d - 0x30) };
        assert(accumulate(s, p.len() + 1int, next, neg, lo, hi) == Ok::<int, crate::number::IntErrorKind>(next));
    } else {
        let q = (n / 10) as nat;
        let d = (0x30 + n % 10) as u8;
        lemma_accumulate_digits(p, q, neg, lo, hi);
        assert(p + decimal_digits(n) =~= (p + decimal_digits(q)).push(d));
        assert(q * 10 + n % 10 == n);
        lemma_accumulate_push(p + decimal_digits(q), p.len() as int, 0, neg, lo, hi, d, if neg { -q } else { q as int });
    }
}

/// Parsing the decimal text of an integer in range gives it back.
pub proof fn law_int_text_parses_back(v: int, signed: bool, lo: int, hi: int)
    requires
        lo <= 0 <= hi,
        lo <= v <= hi,
        v < 0 ==> signed,
    ensures
        parse_int_spec(int_text(v), signed, lo, hi) == Ok::<int, crate::number::IntErrorKind>(v),
{
    if v < 0 {
        let n = (-v) as nat;
        lemma_accumulate_digits(seq![0x2Du8], n, true, lo, hi);
        lemma_decimal_digits_ascii(n);
        assert(decimal_digits(n).len() > 0);
    } else {
        let n = v as nat;
        lemma_accumulate_digits(Seq::empty(), n, false, lo, hi);
        lemma_decimal_digits_ascii(n);
        assert(Seq::<u8>::empty() + decimal_digits(n) =~= decimal_digits(n));
        assert(decimal_digits(n).len() > 0);
        assert(is_digit(decimal_digits(n)[0]));
    }
}

/// Bytes that are neither quotes nor structural leave the tape empty.
proof fn lemma_quiet_document(input: Seq<u8>)
    requires
        forall|j: int| 0 <= j < input.len() ==> #[trigger] input[j] != 0x22 && token_of(input[j]) == 0,
    ensures
        structural_positions(input) == Seq::<int>::empty(),
        tagged_tape(input) == Seq::<u32>::empty(),
{
    assert forall|j: int| 0 <= j < input.len() implies scan_step((false, false), #[trigger] input[j]) == (false, false)
        && !records((false, false), input[j]) by {
        assert(input[j] != 0x22 && token_of(input[j]) == 0);
    }
    lemma_quiet_run(input, 0, input.len() as int, (false, false));
    assert(positions_upto(input, 0) =~= Seq::<int>::empty());
    assert(tagged_tape(input) =~= Seq::<u32>::empty());
}

/// A number runs to the end of bytes none of which ends a number.
proof fn lemma_number_end_all(s: Seq<u8>, i: int)
    requires
        0 <= i <= s.len(),
        forall|j: int| i <= j < s.len() ==> !ends_number(#[trigger] s[j]),
    ensures
        number_end(s, i) == s.len(),
    decreases s.len() - i,
{
    if i < s.len() {
        lemma_number_end_all(s, i + 1);
    }
}

/// The decimal text of an integer reads as a document with no tape entries
/// whose number text is all of it.
proof fn lemma_int_document(v: int)
    ensures
        tagged_tape(int_text(v)) == Seq::<u32>::empty(),
        number_text(int_text(v), Seq::<u32>::empty(), 0) == int_text(v),
        valid_utf8(int_text(v)),
{
    let input = int_text(v);
    lemma_int_text_ascii(v);
    let n = if v < 0 { (-v) as nat } else { v as nat };
    lemma_decimal_digits_ascii(n);
    assert forall|j: int| 0 <= j < input.len() implies #[trigger] input[j] != 0x22 && token_of(input[j]) == 0
        && !ends_number(input[j]) by {
        if v < 0 {
            if j > 0 {
                assert(input[j] == decimal_digits(n)[j - 1]);
            }
        }
    }
    lemma_quiet_document(input);
    lemma_number_end_all(input, 0);
    assert(input.subrange(0, input.len() as int) =~= input);
    lemma_ascii_utf8(input);
}

/// Reading an `i64` from the text that writing it produced gives it back.
pub proof fn law_i64_roundtrip(v: i64)
    ensures
        document_spec::<i64>(int_text(v as int)) == Ok::<int, ErrorView>(v as int),
{
    lemma_int_document(v as int);
    law_int_text_parses_back(v as int, true, i64::MIN as int, i64::MAX as int);
}

/// Reading a `u64` from the text that writing it produced gives it back.
pub proof fn law_u64_roundtrip(v: u64)
    ensures
        document_spec::<u64>(int_text(v as int)) == Ok::<int, ErrorView>(v as int),
{
    lemma_int_document(v as int);
    law_int_text_parses_back(v as int, false, 0, u64::MAX as int);
}

/// The decimal text of an integer, then a whitespace byte `w`, reads as a
/// document with no tape entries whose number text is the integer's text.
proof fn lemma_int_then_ws_document(v: int, w: u8)
    requires
        w == 0x20 || w == 0x09 || w == 0x0A || w == 0x0D,
    ensures
        tagged_tape(int_text(v).push(w)) == Seq::<u32>::empty(),
        number_text(int_text(v).push(w), Seq::<u32>::empty(), 0) == int_text(v),
        valid_utf8(int_text(v)),
{
    let t = int_text(v);
    let input = t.push(w);
    lemma_int_document(v);
    lemma_int_text_ascii(v);
    let n = if v < 0 { (-v) as nat } else { v as nat };
    lemma_decimal_digits_ascii(n);
    assert(t.len() > 0);
    assert forall|j: int| 0 <= j < t.len() implies #[trigger] input[j] != 0x22 && token_of(input[j]) == 0
        && !ends_number(input[j]) && !is_ws(input[j]) by {
        assert(input[j] == t[j]);
        if v < 0 {
            if j > 0 {
                assert(t[j] == decimal_digits(n)[j - 1]);
            }
        }
    }
    assert forall|j: int| 0 <= j < input.len() implies #[trigger] input[j] != 0x22 && token_of(input[j]) == 0 by {
        if j < t.len() {
            assert(input[j] == t[j]);
        }
    }
    lemma_quiet_document(input);
    assert(skip_ws_from(input, 0) == 0);
    lemma_number_end_at(input, 0, t.len() as int);
    assert(input.subrange(0, t.len() as int) =~= t);
}

/// A number ends at each whitespace byte: reading an `i64` from its text
/// followed by a space, a tab, a line feed or a carriage return gives it
/// back.
pub proof fn law_number_ends_at_whitespace(v: i64, w: u8)
    requires
        w == 0x20 || w == 0x09 || w == 0x0A || w == 0x0D,
    ensures
        document_spec::<i64>(int_text(v as int).push(w)) == Ok::<int, ErrorView>(v as int),
{
    lemma_int_then_ws_document(v as int, w);
    law_int_text_parses_back(v as int, true, i64::MIN as int, i64::MAX as int);
}

/// The integer that an `i64` in range reads as.
proof fn lemma_written_int_reads_as_i64(v: int)
    requires
        i64::MIN <= v <= i64::MAX,
    ensures
        i64_value(int_text(v), tagged_tape(int_text(v)), 0) == Ok::<int, ErrorView>(v),
{
    lemma_int_document(v);
    law_int_text_parses_back(v, true, i64::MIN as int, i64::MAX as int);
}

/// The integer that a `u64` in range reads as.
proof fn lemma_written_int_reads_as_u64(v: int)
    requires
        0 <= v <= u64::MAX,
    ensures
        u64_value(int_text(v), tagged_tape(int_text(v)), 0) == Ok::<int, ErrorView>(v),
{
    lemma_int_document(v);
    law_int_text_parses_back(v, false, 0, u64::MAX as int);
}

/// What writing an `i8` produces reads back as it.
pub proof fn law_i8_written_reads_back(v: i8)
    ensures
        document_spec::<i8>(v.json_bytes()) == Ok::<int, ErrorView>(v as int),
{
    lemma_written_int_reads_as_i64(v as int);
}

/// What writing an `i16` produces reads back as it.
pub proof fn law_i16_written_reads_back(v: i16)
    ensures
        document_spec::<i16>(v.json_bytes()) == Ok::<int, ErrorView>(v as int),
{
    lemma_written_int_reads_as_i64(v as int);
}

/// What writing an `i32` produces reads back as it.
pub proof fn law_i32_written_reads_back(v: i32)
    ensures
        document_spec::<i32>(v.json_bytes()) == Ok::<int, ErrorView>(v as int),
{
    lemma_written_int_reads_as_i64(v as int);
}

/// What writing an `i64` produces reads back as it.
pub proof fn law_i64_written_reads_back(v: i64)
    ensures
        document_spec::<i64>(v.json_bytes()) == Ok::<int, ErrorView>(v as int),
{
    lemma_written_int_reads_as_i64(v as int);
}

/// What writing an `isize` produces reads back as it.
pub proof fn law_isize_written_reads_back(v: isize)
    ensures
        document_spec::<isize>(v.json_bytes()) == Ok::<int, ErrorView>(v as int),
{
    lemma_written_int_reads_as_i64(v as int);
}

/// What writing a `u8` produces reads back as it.
pub proof fn law_u8_written_reads_back(v: u8)
    ensures
        document_spec::<u8>(v.json_bytes()) == Ok::<int, ErrorView>(v as int),
{
    lemma_written_int_reads_as_u64(v as int);
}

/// What writing a `u16` produces reads back as it.
pub proof fn law_u16_written_reads_back(v: u16)
    ensures
        document_spec::<u16>(v.json_bytes()) == Ok::<int, ErrorView>(v as int),
{
    lemma_written_int_reads_as_u64(v as int);
}

/// What writing a `u32` produces reads back as it.
pub proof fn law_u32_written_reads_back(v: u32)
    ensures
        document_spec::<u32>(v.json_bytes()) == Ok::<int, ErrorView>(v as int),
{
    lemma_written_int_reads_as_u64(v as int);
}

/// What writing a `u64` produces reads back as it.
pub proof fn law_u64_written_reads_back(v: u64)
    ensures
        document_spec::<u64>(v.json_bytes()) == Ok::<int, ErrorView>(v as int),
{
    lemma_written_int_reads_as_u64(v as int);
}

/// What writing a `usize` produces reads back as it.
pub proof fn law_usize_written_reads_back(v: usize)
    ensures
        document_spec::<usize>(v.json_bytes()) == Ok::<int, ErrorView>(v as int),
{
    lemma_written_int_reads_as_u64(v as int);
}

/// Reading a dynamic value from the decimal text of any integer, negative
/// ones included, gives a number whose text is that decimal text.
pub proof fn law_value_reads_integer_text(v: int)
    ensures
        document_spec::<Value>(int_text(v)) == Ok::<ValueView, ErrorView>(ValueView::Number(ascii_chars(int_text(v)))),
{
    let t = int_text(v);
    lemma_int_document(v);
    lemma_int_text_ascii(v);
    let n = if v < 0 { (-v) as nat } else { v as nat };
    lemma_decimal_digits_ascii(n);
    assert(t.len() > 0);
    if v < 0 {
        assert(t[0] == 0x2D);
    } else {
        assert(t[0] == decimal_digits(n)[0]);
    }
    assert(skip_ws_from(t, 0) == 0);
    assert(!literal_at(t, 0, null_text())) by {
        if literal_at(t, 0, null_text()) {
            assert(t.subrange(0, 4)[0] == t[0]);
        }
    }
    assert(!literal_at(t, 0, bool_text(true))) by {
        if literal_at(t, 0, bool_text(true)) {
            assert(t.subrange(0, 4)[0] == t[0]);
        }
    }
    assert(!literal_at(t, 0, bool_text(false))) by {
        if literal_at(t, 0, bool_text(false)) {
            assert(t.subrange(0, 5)[0] == t[0]);
        }
    }
    lemma_ascii_utf8(t);
}

/// Reading a `bool` from the text that writing it produced gives it back.
pub proof fn law_bool_roundtrip(b: bool)
    ensures
        document_spec::<bool>(bool_text(b)) == Ok::<bool, ErrorView>(b),
{
    let input = bool_text(b);
    assert forall|j: int| 0 <= j < input.len() implies #[trigger] input[j] != 0x22 && token_of(input[j]) == 0 by {
    }
    lemma_quiet_document(input);
    assert(input.subrange(0, input.len() as int) =~= input);
    if !b {
        assert(input.subrange(0, 4) != bool_text(true)) by {
            assert(input.subrange(0, 4)[0] != bool_text(true)[0]);
        }
    }
}

/// What writing a `bool` produces reads back as it.
pub proof fn law_bool_written_reads_back(b: bool)
    ensures
        document_spec::<bool>(b.json_bytes()) == Ok::<bool, ErrorView>(b),
{
    law_bool_roundtrip(b);
}

/// What writing a `String` produces reads back as its text, for texts
/// whose bytes need no `\u00XX` escape (within the parser's size limit).
pub proof fn law_string_written_reads_back(s: String)
    requires
        no_unicode_escapes(encode_utf8(s@)),
        s.json_bytes().len() <= 0x1000_0000,
    ensures
        document_spec::<String>(s.json_bytes()) == Ok::<Seq<char>, ErrorView>(s@),
{
    law_string_roundtrip(s@);
}

/// What writing a `str` produces reads back as its text, for texts whose
/// bytes need no `\u00XX` escape (within the parser's size limit).
pub proof fn law_str_written_reads_back(s: &str)
    requires
        no_unicode_escapes(s.spec_bytes()),
        s.json_bytes().len() <= 0x1000_0000,
    ensures
        document_spec::<String>(s.json_bytes()) == Ok::<Seq<char>, ErrorView>(s@),
{
    law_string_roundtrip(s@);
}

/// What writing an optional `i64` produces reads back as it: `None` as
/// `null`, `Some(v)` as `v`.
pub proof fn law_option_i64_written_reads_back(o: Option<i64>)
    ensures
        document_spec::<Option<i64>>(o.json_bytes()) == Ok::<Option<int>, ErrorView>(
            match o {
                Some(v) => Some(v as int),
                None => None,
            },
        ),
{
    match o {
        Some(v) => {
            let t = int_text(v as int);
            lemma_int_document(v as int);
            lemma_int_text_ascii(v as int);
            let n = if v < 0 { (-v) as nat } else { v as nat };
            lemma_decimal_digits_ascii(n);
            assert(t.len() > 0);
            if v >= 0 {
                assert(t[0] == decimal_digits(n)[0]);
            }
            assert(skip_ws_from(t, 0) == 0);
            assert(!literal_at(t, 0, null_text())) by {
                if literal_at(t, 0, null_text()) {
                    assert(t.subrange(0, 4)[0] == t[0]);
                }
            }
            law_i64_roundtrip(v);
        },
        None => {
            let input = null_text();
            assert forall|j: int| 0 <= j < input.len() implies #[trigger] input[j] != 0x22 && token_of(input[j]) == 0 by {
            }
            lemma_quiet_document(input);
            assert(input.subrange(0, 4) =~= null_text());
        },
    }
}

/// What writing a vector of `i64` produces reads back as it (within the
/// parser's size limit).
pub proof fn law_vec_i64_written_reads_back(v: Vec<i64>)
    requires
        v.json_bytes().len() <= 0x1000_0000,
    ensures
        document_spec::<Vec<i64>>(v.json_bytes()) == Ok::<Seq<int>, ErrorView>(
            Seq::new(v@.len(), |k: int| v@[k] as int),
        ),
{
    law_i64_array_roundtrip(v@);
}

/// Whitespace before a document is skipped: reading an `i64` from its text
/// after a space, a tab, a line feed or a carriage return gives it back.
pub proof fn law_leading_whitespace_skipped(v: i64, w: u8)
    requires
        w == 0x20 || w == 0x09 || w == 0x0A || w == 0x0D,
    ensures
        document_spec::<i64>(seq![w] + int_text(v as int)) == Ok::<int, ErrorView>(v as int),
{
    let t = int_text(v as int);
    let input = seq![w] + t;
    lemma_int_document(v as int);
    lemma_int_text_ascii(v as int);
    let n = if v < 0 { (-v) as nat } else { v as nat };
    lemma_decimal_digits_ascii(n);
    assert(t.len() > 0);
    assert forall|j: int| 0 <= j < t.len() implies #[trigger] t[j] != 0x22 && token_of(t[j]) == 0
        && !ends_number(t[j]) && !is_ws(t[j]) by {
        if v < 0 {
            if j > 0 {
                assert(t[j] == decimal_digits(n)[j - 1]);
            }
        }
    }
    assert forall|j: int| 0 <= j < input.len() implies #[trigger] input[j] != 0x22 && token_of(input[j]) == 0 by {
        if j > 0 {
            assert(input[j] == t[j - 1]);
        }
    }
    lemma_quiet_document(input);
    assert(input[1] == t[0]);
    assert(skip_ws_from(input, 1) == 1);
    assert(skip_ws_from(input, 0) == 1);
    assert forall|j: int| 1 <= j < input.len() implies !ends_number(#[trigger] input[j]) by {
        assert(input[j] == t[j - 1]);
    }
    lemma_number_end_all(input, 1);
    assert(input.subrange(1, input.len() as int) =~= t);
    law_int_text_parses_back(v as int, true, i64::MIN as int, i64::MAX as int);
}

/// Reading a dynamic value from `null`, `true` or `false` gives that
/// literal's value.
pub proof fn law_value_reads_literals()
    ensures
        document_spec::<Value>(null_text()) == Ok::<ValueView, ErrorView>(ValueView::Null),
        document_spec::<Value>(bool_text(true)) == Ok::<ValueView, ErrorView>(ValueView::Bool(true)),
        document_spec::<Value>(bool_text(false)) == Ok::<ValueView, ErrorView>(ValueView::Bool(false)),
{
    let a = null_text();
    let b = bool_text(true);
    let c = bool_text(false);
    assert forall|j: int| 0 <= j < a.len() implies #[trigger] a[j] != 0x22 && token_of(a[j]) == 0 by {}
    assert forall|j: int| 0 <= j < b.len() implies #[trigger] b[j] != 0x22 && token_of(b[j]) == 0 by {}
    assert forall|j: int| 0 <= j < c.len() implies #[trigger] c[j] != 0x22 && token_of(c[j]) == 0 by {}
    lemma_quiet_document(a);
    lemma_quiet_document(b);
    lemma_quiet_document(c);
    assert(a.subrange(0, 4) =~= a);
    assert(b.subrange(0, 4) =~= b);
    assert(c.subrange(0, 5) =~= c);
    assert(!literal_at(b, 0, null_text())) by {
        assert(b.subrange(0, 4)[0] != null_text()[0]);
    }
    assert(!literal_at(c, 0, null_text())) by {
        assert(c.subrange(0, 4)[0] != null_text()[0]);
    }
    assert(!literal_at(c, 0, bool_text(true))) by {
        assert(c.subrange(0, 4)[0] != bool_text(true)[0]);
    }
}

// ---------------------------------------------------------------------------
// Records
// ---------------------------------------------------------------------------

/// A structural byte outside strings is recorded and leaves the scanner
/// outside strings.
proof fn lemma_scan_structural(input: Seq<u8>, i: int)
    requires
        0 <= i < input.len(),
        scan_state(input, i) == (false, false),
        is_structural_byte(input[i]),
    ensures
        scan_state(input, i + 1) == (false, false),
        positions_upto(input, i + 1) == positions_upto(input, i).push(i),
{
}

/// Bytes that are neither quotes nor structural are passed over outside
/// strings.
proof fn lemma_scan_plain(input: Seq<u8>, i: int, k: int)
    requires
        0 <= i <= k <= input.len(),
        scan_state(input, i) == (false, false),
        forall|j: int| i <= j < k ==> #[trigger] input[j] != 0x22 && !is_structural_byte(input[j]),
    ensures
        scan_state(input, k) == (false, false),
        positions_upto(input, k) == positions_upto(input, i),
{
    assert forall|j: int| i <= j < k implies scan_step((false, false), #[trigger] input[j]) == (false, false)
        && !records((false, false), input[j]) by {
    }
    lemma_quiet_run(input, i, k, (false, false));
}

/// A string literal written by the escaper records its two quotes and
/// leaves the scanner outside strings.
proof fn lemma_scan_string_literal(input: Seq<u8>, i: int, b: Seq<u8>)
    requires
        0 <= i,
        i + json_string(b).len() <= input.len(),
        input.subrange(i, i + json_string(b).len()) == json_string(b),
        scan_state(input, i) == (false, false),
    ensures
        scan_state(input, i + json_string(b).len()) == (false, false),
        positions_upto(input, i + json_string(b).len()) == positions_upto(input, i) + seq![
            i,
            i + json_string(b).len() - 1,
        ],
{
    let lit = json_string(b);
    let body = escape_body(b);
    let end = i + lit.len();
    assert(input[i] == lit[0]);
    assert(input[end - 1] == lit[lit.len() - 1]);
    assert(scan_state(input, i + 1) == (true, false));
    assert(positions_upto(input, i + 1) == positions_upto(input, i).push(i));
    assert(input.subrange(i + 1, i + 1 + body.len()) =~= body) by {
        assert(lit.subrange(1, 1 + body.len() as int) =~= body);
        assert(input.subrange(i + 1, i + 1 + body.len()) =~= input.subrange(i, end).subrange(
            1,
            1 + body.len() as int,
        ));
    }
    lemma_scan_escape_body(input, i + 1, b);
    assert(positions_upto(input, end) =~= positions_upto(input, i) + seq![i, end - 1]);
}

/// Bytes that need no escaping are their own escaped body.
proof fn lemma_escape_body_plain(b: Seq<u8>)
    requires
        forall|i: int| 0 <= i < b.len() ==> escape_code(#[trigger] b[i]) == 0,
    ensures
        escape_body(b) == b,
    decreases b.len(),
{
    if b.len() > 0 {
        lemma_escape_body_plain(b.drop_last());
        assert(escape_byte(b.last()) =~= seq![b.last()]);
        assert(b.drop_last().push(b.last()) =~= b);
    } else {
        assert(escape_body(b) =~= b);
    }
}

/// Tape entry `k` of a document tags the `k`-th structural byte with its
/// kind and offset.
proof fn lemma_tape_entry(input: Seq<u8>, k: int)
    requires
        input.len() <= 0x1000_0000,
        0 <= k < structural_positions(input).len(),
    ensures
        ({
            let p = structural_positions(input)[k];
            &&& 0 <= p < input.len()
            &&& entry_tag(tagged_tape(input)[k]) == token_of(input[p])
            &&& entry_offset(tagged_tape(input)[k]) == p
        }),
{
    crate::scanner::lemma_positions_bounds(input, input.len() as int);
    let p = structural_positions(input)[k];
    lemma_tagged_entry(input[p], p as u32);
}

/// The key `"k"` as written before a member's value.
proof fn lemma_key_reads_back(src: Seq<u8>, tape: Seq<u32>, pos: int, o: int, key: Seq<u8>)
    requires
        0 <= pos,
        pos + 1 < tape.len(),
        entry_tag(tape[pos]) == TOKEN_QUOTE,
        entry_tag(tape[pos + 1]) == TOKEN_QUOTE,
        entry_offset(tape[pos]) == o,
        entry_offset(tape[pos + 1]) == o + key.len() + 1,
        0 <= o,
        o + key.len() + 2 <= src.len(),
        src.subrange(o + 1, o + 1 + key.len()) == key,
        forall|i: int| 0 <= i < key.len() ==> 0x20 <= #[trigger] key[i] < 0x80 && key[i] != 0x22 && key[i]
            != 0x5C,
    ensures
        string_value(src, tape, pos) == (Ok::<Seq<char>, ErrorView>(crate::utf8::ascii_chars(key)), pos + 2),
{
    assert(!key.contains(0x5Cu8));
    assert(string_body_bytes(key) == key);
    lemma_ascii_utf8(key);
}

/// A number runs up to the first byte that ends it.
proof fn lemma_number_end_at(s: Seq<u8>, i: int, k: int)
    requires
        0 <= i <= k < s.len(),
        forall|j: int| i <= j < k ==> !ends_number(#[trigger] s[j]),
        ends_number(s[k]),
    ensures
        number_end(s, i) == k,
    decreases k - i,
{
    if i < k {
        lemma_number_end_at(s, i + 1, k);
    }
}

/// The text of an integer reads back as that integer from a member whose
/// value starts at `start` and is followed by `,`.
proof fn lemma_member_u64(src: Seq<u8>, tape: Seq<u32>, pos: int, start: int, id: u64)
    requires
        0 < pos <= tape.len(),
        entry_offset(tape[pos - 1]) + 1 == start,
        0 <= start,
        start + int_text(id as int).len() < src.len(),
        src.subrange(start, start + int_text(id as int).len()) == int_text(id as int),
        src[start + int_text(id as int).len()] == 0x2C,
    ensures
        u64_value(src, tape, pos) == Ok::<int, ErrorView>(id as int),
{
    let d = int_text(id as int);
    lemma_int_text_ascii(id as int);
    lemma_decimal_digits_ascii(id as nat);
    assert(d.len() > 0);
    assert(src[start] == d[0]);
    assert(skip_ws_from(src, start) == start);
    assert forall|j: int| start <= j < start + d.len() implies !ends_number(#[trigger] src[j]) by {
        assert(src[j] == d[j - start]);
    }
    lemma_number_end_at(src, start, start + d.len());
    lemma_ascii_utf8(d);
    law_int_text_parses_back(id as int, false, 0, u64::MAX as int);
}

/// The offsets of the structural bytes of a user's text whose id text,
/// name literal and flag text have lengths `dl`, `sl` and `bl`.
pub open spec fn user_positions(dl: int, sl: int, bl: int) -> Seq<int> {
    seq![
        0int,
        1,
        4,
        5,
        6 + dl,
        7 + dl,
        12 + dl,
        13 + dl,
        14 + dl,
        13 + dl + sl,
        14 + dl + sl,
        15 + dl + sl,
        22 + dl + sl,
        23 + dl + sl,
        24 + dl + sl + bl,
    ]
}

/// The key `id` as bytes.
pub open spec fn id_key() -> Seq<u8> {
    seq![0x69u8, 0x64u8]
}

/// The key `name` as bytes.
pub open spec fn name_key() -> Seq<u8> {
    seq![0x6Eu8, 0x61u8, 0x6Du8, 0x65u8]
}

/// The key `active` as bytes.
pub open spec fn active_key() -> Seq<u8> {
    seq![0x61u8, 0x63u8, 0x74u8, 0x69u8, 0x76u8, 0x65u8]
}

proof fn lemma_keys_plain()
    ensures
        escape_body(id_key()) == id_key(),
        escape_body(name_key()) == name_key(),
        escape_body(active_key()) == active_key(),
        json_string(id_key()) == seq![0x22u8] + id_key() + seq![0x22u8],
        json_string(name_key()) == seq![0x22u8] + name_key() + seq![0x22u8],
        json_string(active_key()) == seq![0x22u8] + active_key() + seq![0x22u8],
{
    lemma_escape_body_plain(id_key());
    lemma_escape_body_plain(name_key());
    lemma_escape_body_plain(active_key());
}

/// The pieces of a user's text, by offset.
proof fn lemma_user_text(id: u64, name: Seq<char>, active: bool)
    ensures
        ({
            let src = user_json(id as int, name, active);
            let digits = int_text(id as int);
            let js = json_string(encode_utf8(name));
            let bt = bool_text(active);
            let dl = digits.len() as int;
            let sl = js.len() as int;
            let bl = bt.len() as int;
            &&& dl > 0
            &&& src.len() == 25 + dl + sl + bl
            &&& src[0] == 0x7B
            &&& src.subrange(1, 5) == json_string(id_key())
            &&& src[5] == 0x3A
            &&& src.subrange(6, 6 + dl) == digits
            &&& src[6 + dl] == 0x2C
            &&& src.subrange(7 + dl, 13 + dl) == json_string(name_key())
            &&& src[13 + dl] == 0x3A
            &&& src.subrange(14 + dl, 14 + dl + sl) == js
            &&& src[14 + dl + sl] == 0x2C
            &&& src.subrange(15 + dl + sl, 23 + dl + sl) == json_string(active_key())
            &&& src[23 + dl + sl] == 0x3A
            &&& src.subrange(24 + dl + sl, 24 + dl + sl + bl) == bt
            &&& src[24 + dl + sl + bl] == 0x7D
        }),
{
    let src = user_json(id as int, name, active);
    let digits = int_text(id as int);
    let js = json_string(encode_utf8(name));
    let bt = bool_text(active);
    let dl = digits.len() as int;
    let sl = js.len() as int;
    let bl = bt.len() as int;
    lemma_decimal_digits_ascii(id as nat);
    lemma_keys_plain();
    assert(src.subrange(1, 5) =~= json_string(id_key()));
    assert(src.subrange(6, 6 + dl) =~= digits);
    assert(src.subrange(7 + dl, 13 + dl) =~= json_string(name_key()));
    assert(src.subrange(14 + dl, 14 + dl + sl) =~= js);
    assert(src.subrange(15 + dl + sl, 23 + dl + sl) =~= json_string(active_key()));
    assert(src.subrange(24 + dl + sl, 24 + dl + sl + bl) =~= bt);
}

/// A member's key after `{` or `,`, and the `:` after it, record those
/// four bytes.
proof fn lemma_scan_key(src: Seq<u8>, i: int, key: Seq<u8>)
    requires
        0 <= i,
        i + key.len() + 4 <= src.len(),
        scan_state(src, i) == (false, false),
        is_structural_byte(src[i]),
        escape_body(key) == key,
        src.subrange(i + 1, i + 3 + key.len()) == json_string(key),
        src[i + 3 + key.len()] == 0x3A,
    ensures
        scan_state(src, i + 4 + key.len()) == (false, false),
        positions_upto(src, i + 4 + key.len()) == positions_upto(src, i) + seq![
            i,
            i + 1,
            i + 2 + key.len(),
            i + 3 + key.len(),
        ],
{
    lemma_scan_structural(src, i);
    lemma_scan_string_literal(src, i + 1, key);
    lemma_scan_structural(src, i + 3 + key.len());
    assert(positions_upto(src, i + 4 + key.len()) =~= positions_upto(src, i) + seq![
        i,
        i + 1,
        i + 2 + key.len(),
        i + 3 + key.len(),
    ]);
}

/// A run of the given bytes outside strings records nothing.
proof fn lemma_scan_quiet_piece(src: Seq<u8>, i: int, piece: Seq<u8>)
    requires
        0 <= i,
        i + piece.len() <= src.len(),
        scan_state(src, i) == (false, false),
        src.subrange(i, i + piece.len()) == piece,
        forall|j: int| 0 <= j < piece.len() ==> #[trigger] piece[j] != 0x22 && token_of(piece[j]) == 0,
    ensures
        scan_state(src, i + piece.len()) == (false, false),
        positions_upto(src, i + piece.len()) == positions_upto(src, i),
{
    assert forall|j: int| i <= j < i + piece.len() implies #[trigger] src[j] != 0x22 && !is_structural_byte(
        src[j],
    ) by {
        assert(src.subrange(i, i + piece.len())[j - i] == src[j]);
        assert(piece[j - i] != 0x22 && token_of(piece[j - i]) == 0);
    }
    lemma_scan_plain(src, i, i + piece.len());
}

proof fn lemma_int_text_quiet(v: int)
    ensures
        forall|j: int| 0 <= j < int_text(v).len() ==> #[trigger] int_text(v)[j] != 0x22 && token_of(
            int_text(v)[j],
        ) == 0,
{
    let n = if v < 0 { (-v) as nat } else { v as nat };
    lemma_decimal_digits_ascii(n);
    assert forall|j: int| 0 <= j < int_text(v).len() implies #[trigger] int_text(v)[j] != 0x22 && token_of(
        int_text(v)[j],
    ) == 0 by {
        if v < 0 && j > 0 {
            assert(int_text(v)[j] == decimal_digits(n)[j - 1]);
        }
    }
}

/// The structural bytes of a user's text: the object's braces, the keys'
/// quotes, the colons, the commas and the name's quotes.
#[verifier::spinoff_prover]
#[verifier::rlimit(40)]
proof fn lemma_user_positions(id: u64, name: Seq<char>, active: bool)
    ensures
        structural_positions(user_json(id as int, name, active)) == user_positions(
            int_text(id as int).len() as int,
            json_string(encode_utf8(name)).len() as int,
            bool_text(active).len() as int,
        ),
{
    let digits = int_text(id as int);
    let nb = encode_utf8(name);
    let js = json_string(nb);
    let bt = bool_text(active);
    let src = user_json(id as int, name, active);
    let dl = digits.len() as int;
    let sl = js.len() as int;
    let bl = bt.len() as int;
    lemma_user_text(id, name, active);
    lemma_keys_plain();
    lemma_int_text_quiet(id as int);
    assert(positions_upto(src, 0) =~= Seq::<int>::empty());
    lemma_scan_key(src, 0, id_key());
    lemma_scan_quiet_piece(src, 6, digits);
    lemma_scan_key(src, 6 + dl, name_key());
    lemma_scan_string_literal(src, 14 + dl, nb);
    lemma_scan_key(src, 14 + dl + sl, active_key());
    assert forall|j: int| 0 <= j < bt.len() implies #[trigger] bt[j] != 0x22 && token_of(bt[j]) == 0 by {
    }
    lemma_scan_quiet_piece(src, 24 + dl + sl, bt);
    lemma_scan_structural(src, 24 + dl + sl + bl);
    assert(structural_positions(src) =~= user_positions(dl, sl, bl));
}

/// The tags of the entries of a user's tape, in order.
pub open spec fn user_tags() -> Seq<u32> {
    seq![
        TOKEN_LBRACE,
        TOKEN_QUOTE,
        TOKEN_QUOTE,
        TOKEN_COLON,
        TOKEN_COMMA,
        TOKEN_QUOTE,
        TOKEN_QUOTE,
        TOKEN_COLON,
        TOKEN_QUOTE,
        TOKEN_QUOTE,
        TOKEN_COMMA,
        TOKEN_QUOTE,
        TOKEN_QUOTE,
        TOKEN_COLON,
        TOKEN_RBRACE,
    ]
}

/// The tape of a user's text.
#[verifier::spinoff_prover]
#[verifier::rlimit(40)]
proof fn lemma_user_tape(id: u64, name: Seq<char>, active: bool)
    requires
        user_json(id as int, name, active).len() <= 0x1000_0000,
    ensures
        ({
            let src = user_json(id as int, name, active);
            let tape = tagged_tape(src);
            let ps = user_positions(
                int_text(id as int).len() as int,
                json_string(encode_utf8(name)).len() as int,
                bool_text(active).len() as int,
            );
            &&& tape.len() == 15
            &&& forall|k: int|
                0 <= k < 15 ==> entry_tag(#[trigger] tape[k]) == user_tags()[k] && entry_offset(tape[k])
                    == ps[k]
        }),
{
    let src = user_json(id as int, name, active);
    let digits = int_text(id as int);
    let js = json_string(encode_utf8(name));
    let bt = bool_text(active);
    let dl = digits.len() as int;
    let sl = js.len() as int;
    let bl = bt.len() as int;
    let ps = user_positions(dl, sl, bl);
    let tape = tagged_tape(src);
    lemma_user_text(id, name, active);
    lemma_user_positions(id, name, active);
    lemma_keys_plain();
    assert(src[1] == src.subrange(1, 5)[0]);
    assert(src[4] == src.subrange(1, 5)[3]);
    assert(src[7 + dl] == src.subrange(7 + dl, 13 + dl)[0]);
    assert(src[12 + dl] == src.subrange(7 + dl, 13 + dl)[5]);
    assert(src[14 + dl] == src.subrange(14 + dl, 14 + dl + sl)[0]);
    assert(src[13 + dl + sl] == src.subrange(14 + dl, 14 + dl + sl)[sl - 1]);
    assert(src[15 + dl + sl] == src.subrange(15 + dl + sl, 23 + dl + sl)[0]);
    assert(src[22 + dl + sl] == src.subrange(15 + dl + sl, 23 + dl + sl)[7]);
    assert forall|k: int| 0 <= k < 15 implies entry_tag(#[trigger] tape[k]) == user_tags()[k] && entry_offset(
        tape[k],
    ) == ps[k] by {
        lemma_tape_entry(src, k);
    }
}

/// What reading a user's text relies on: its pieces by offset (id text
/// `digits`, name bytes `nb`, flag `active`) and its tape.
pub open spec fn user_text_facts(src: Seq<u8>, tape: Seq<u32>, digits: Seq<u8>, nb: Seq<u8>, active: bool) -> bool {
    let dl = digits.len() as int;
    let sl = json_string(nb).len() as int;
    let bt = bool_text(active);
    let bl = bt.len() as int;
    let ps = user_positions(dl, sl, bl);
    &&& dl > 0
    &&& src.len() == 25 + dl + sl + bl
    &&& src.subrange(1, 5) == json_string(id_key())
    &&& src.subrange(6, 6 + dl) == digits
    &&& src[6 + dl] == 0x2C
    &&& src.subrange(7 + dl, 13 + dl) == json_string(name_key())
    &&& src.subrange(14 + dl, 14 + dl + sl) == json_string(nb)
    &&& src.subrange(15 + dl + sl, 23 + dl + sl) == json_string(active_key())
    &&& src.subrange(24 + dl + sl, 24 + dl + sl + bl) == bt
    &&& tape.len() == 15
    &&& forall|k: int|
        0 <= k < 15 ==> entry_tag(#[trigger] tape[k]) == user_tags()[k] && entry_offset(tape[k]) == ps[k]
}

/// The member `"id"` reads the id.
proof fn lemma_user_reads_id(src: Seq<u8>, tape: Seq<u32>, id: u64, nb: Seq<u8>, active: bool)
    requires
        user_text_facts(src, tape, int_text(id as int), nb, active),
    ensures
        user_members(src, tape, 1, (0, Seq::empty(), false)) == user_members(
            src,
            tape,
            5,
            (id as int, Seq::empty(), false),
        ),
{
    lemma_keys_plain();
    let acc0: UserFields = (0, Seq::empty(), false);
    let acc1: UserFields = (id as int, Seq::empty(), false);
    assert(src.subrange(2, 4) =~= id_key()) by {
        assert(src.subrange(2, 4) =~= src.subrange(1, 5).subrange(1, 3));
    }
    lemma_key_reads_back(src, tape, 1, 1, id_key());
    reveal_strlit("id");
    assert(crate::utf8::ascii_chars(id_key()) =~= "id"@);
    lemma_member_u64(src, tape, 4, 6, id);
    assert(user_field(src, tape, 4, "id"@, acc0) == (Ok::<UserFields, ErrorView>(acc1), 4int));
}

/// The member `"name"` reads the name.
proof fn lemma_user_reads_name(src: Seq<u8>, tape: Seq<u32>, digits: Seq<u8>, name: Seq<char>, active: bool, id: int)
    requires
        user_text_facts(src, tape, digits, encode_utf8(name), active),
        no_unicode_escapes(encode_utf8(name)),
    ensures
        user_members(src, tape, 5, (id, Seq::empty(), false)) == user_members(
            src,
            tape,
            11,
            (id, name, false),
        ),
{
    let nb = encode_utf8(name);
    let dl = digits.len() as int;
    let sl = json_string(nb).len() as int;
    lemma_keys_plain();
    let acc1: UserFields = (id, Seq::empty(), false);
    let acc2: UserFields = (id, name, false);
    assert(src.subrange(8 + dl, 12 + dl) =~= name_key()) by {
        assert(src.subrange(8 + dl, 12 + dl) =~= src.subrange(7 + dl, 13 + dl).subrange(1, 5));
    }
    lemma_key_reads_back(src, tape, 5, 7 + dl, name_key());
    reveal_strlit("id");
    reveal_strlit("name");
    assert(crate::utf8::ascii_chars(name_key()) =~= "name"@);
    assert(src.subrange(15 + dl, 13 + dl + sl) =~= escape_body(nb)) by {
        assert(src.subrange(15 + dl, 13 + dl + sl) =~= src.subrange(14 + dl, 14 + dl + sl).subrange(
            1,
            sl - 1,
        ));
    }
    law_string_body_roundtrip(nb);
    encode_utf8_valid_utf8(name);
    encode_utf8_decode_utf8(name);
    assert(string_value(src, tape, 8) == (Ok::<Seq<char>, ErrorView>(name), 10int));
    assert(user_field(src, tape, 8, "name"@, acc1) == (Ok::<UserFields, ErrorView>(acc2), 10int));
}

/// The member `"active"` reads the flag and ends the object.
proof fn lemma_user_reads_active(src: Seq<u8>, tape: Seq<u32>, digits: Seq<u8>, nb: Seq<u8>, active: bool, id: int, name: Seq<char>)
    requires
        user_text_facts(src, tape, digits, nb, active),
    ensures
        user_members(src, tape, 11, (id, name, false)) == (Ok::<UserFields, ErrorView>(
            (id, name, active),
        ), 15int),
{
    let dl = digits.len() as int;
    let sl = json_string(nb).len() as int;
    lemma_keys_plain();
    let acc2: UserFields = (id, name, false);
    let acc3: UserFields = (id, name, active);
    assert(src.subrange(16 + dl + sl, 22 + dl + sl) =~= active_key()) by {
        assert(src.subrange(16 + dl + sl, 22 + dl + sl) =~= src.subrange(15 + dl + sl, 23 + dl + sl).subrange(
            1,
            7,
        ));
    }
    lemma_key_reads_back(src, tape, 11, 15 + dl + sl, active_key());
    reveal_strlit("id");
    reveal_strlit("name");
    reveal_strlit("active");
    assert(crate::utf8::ascii_chars(active_key()) =~= "active"@);
    let bstart = 24 + dl + sl;
    assert(src[bstart] == src.subrange(bstart, bstart + bool_text(active).len())[0]);
    assert(skip_ws_from(src, bstart) == bstart);
    assert(value_start(src, tape, 14) == bstart);
    if active {
        assert(src.subrange(bstart, bstart + 4) =~= bool_text(true));
    } else {
        assert(src.subrange(bstart, bstart + 5) =~= bool_text(false));
        assert(src.subrange(bstart, bstart + 4)[0] != bool_text(true)[0]);
    }
    assert(bool_value(src, tape, 14) == Ok::<bool, ErrorView>(active));
    assert(user_field(src, tape, 14, "active"@, acc2) == (Ok::<UserFields, ErrorView>(acc3), 14int));
}

/// The facts that reading relies on hold of a user's text and its tape.
#[verifier::spinoff_prover]
#[verifier::rlimit(40)]
proof fn lemma_user_facts(id: u64, name: Seq<char>, active: bool)
    requires
        user_json(id as int, name, active).len() <= 0x1000_0000,
    ensures
        user_text_facts(
            user_json(id as int, name, active),
            tagged_tape(user_json(id as int, name, active)),
            int_text(id as int),
            encode_utf8(name),
            active,
        ),
{
    lemma_user_text(id, name, active);
    lemma_user_tape(id, name, active);
}

/// Reading a user from the text that writing it produced gives back its
/// fields, for names whose bytes need no `\u00XX` escape (within the
/// parser's size limit).
pub proof fn law_fast_user_roundtrip(id: u64, name: Seq<char>, active: bool)
    requires
        no_unicode_escapes(encode_utf8(name)),
        user_json(id as int, name, active).len() <= 0x1000_0000,
    ensures
        document_spec::<FastUser>(user_json(id as int, name, active)) == Ok::<UserFields, ErrorView>(
            (id as int, name, active),
        ),
{
    let src = user_json(id as int, name, active);
    let tape = tagged_tape(src);
    lemma_user_facts(id, name, active);
    lemma_user_reading(src, tape, id, name, active);
}

/// Reading a user's text, given what it relies on.
proof fn lemma_user_reading(src: Seq<u8>, tape: Seq<u32>, id: u64, name: Seq<char>, active: bool)
    requires
        user_text_facts(src, tape, int_text(id as int), encode_utf8(name), active),
        no_unicode_escapes(encode_utf8(name)),
    ensures
        user_spec(src, tape, 0) == (Ok::<UserFields, ErrorView>((id as int, name, active)), 15int),
{
    lemma_user_reads_id(src, tape, id, encode_utf8(name), active);
    lemma_user_reads_name(src, tape, int_text(id as int), name, active, id as int);
    lemma_user_reads_active(src, tape, int_text(id as int), encode_utf8(name), active, id as int, name);
    assert(tag_at(tape, 1) == Some(TOKEN_QUOTE));
}


// ---------------------------------------------------------------------------
// Arrays of integers
// ---------------------------------------------------------------------------

/// The offset where item `k` of the array text of `s` starts.
pub open spec fn item_start(s: Seq<i64>, k: int) -> int {
    1 + json_items(s.take(k)).len() + if k > 0 { 1int } else { 0int }
}

/// The offset of the byte right after item `k` of the array text of `s`.
pub open spec fn item_end(s: Seq<i64>, k: int) -> int {
    item_start(s, k) + int_text(s[k] as int).len()
}

/// The items' text of a prefix is a prefix of the items' text.
proof fn lemma_items_prefix(s: Seq<i64>, j: int)
    requires
        0 <= j <= s.len(),
    ensures
        json_items(s.take(j)).len() <= json_items(s).len(),
        json_items(s).subrange(0, json_items(s.take(j)).len() as int) == json_items(s.take(j)),
    decreases s.len() - j,
{
    if j == s.len() {
        assert(s.take(j) =~= s);
        assert(json_items(s).subrange(0, json_items(s).len() as int) =~= json_items(s));
    } else {
        lemma_items_prefix(s, j + 1);
        let t = s.take(j + 1);
        assert(t.drop_last() =~= s.take(j));
        let a = json_items(s.take(j));
        let b = json_items(t);
        assert(b.subrange(0, a.len() as int) =~= a) by {
            if j == 0 {
                assert(s.take(0) =~= Seq::<i64>::empty());
            }
        }
        assert(json_items(s).subrange(0, a.len() as int) =~= b.subrange(0, a.len() as int)) by {
            assert(json_items(s).subrange(0, b.len() as int) == b);
        }
    }
}

/// Item `k` of the array text of `s` is the text of `s[k]`, followed by
/// `,` or, after the last item, by `]`.
proof fn lemma_array_item(s: Seq<i64>, k: int)
    requires
        0 <= k < s.len(),
    ensures
        ({
            let src = json_array(s);
            &&& item_end(s, k) < src.len()
            &&& src.subrange(item_start(s, k), item_end(s, k)) == int_text(s[k] as int)
            &&& src[item_end(s, k)] == if k + 1 < s.len() { 0x2Cu8 } else { 0x5Du8 }
            &&& k + 1 < s.len() ==> item_start(s, k + 1) == item_end(s, k) + 1
            &&& k + 1 == s.len() ==> item_end(s, k) == src.len() - 1
        }),
{
    let src = json_array(s);
    let all = json_items(s);
    let t = s.take(k + 1);
    let pre = json_items(s.take(k));
    let cur = json_items(t);
    let text = int_text(s[k] as int);
    assert(t.drop_last() =~= s.take(k));
    assert(t.last() == s[k]);
    if k == 0 {
        assert(s.take(0) =~= Seq::<i64>::empty());
        assert(cur =~= text);
    } else {
        assert(cur =~= pre + seq![0x2Cu8] + text);
    }
    lemma_items_prefix(s, k + 1);
    assert(src =~= seq![0x5Bu8] + all + seq![0x5Du8]);
    assert(src.subrange(item_start(s, k), item_end(s, k)) =~= text) by {
        assert(forall|i: int| 0 <= i < text.len() ==> cur[cur.len() - text.len() + i] == #[trigger] text[i]);
        assert forall|i: int| 0 <= i < text.len() implies src[item_start(s, k) + i] == #[trigger] text[i] by {
            assert(all.subrange(0, cur.len() as int)[cur.len() - text.len() + i] == cur[cur.len() - text.len() + i]);
        }
    }
    if k + 1 < s.len() {
        let t2 = s.take(k + 2);
        assert(t2.drop_last() =~= t);
        let nxt = json_items(t2);
        assert(nxt =~= cur + seq![0x2Cu8] + int_text(s[k + 1] as int));
        lemma_items_prefix(s, k + 2);
        assert(all.subrange(0, nxt.len() as int)[cur.len() as int] == nxt[cur.len() as int]);
    } else {
        assert(t =~= s);
    }
}

/// Scanning the array text of `s` up to item `k`.
proof fn lemma_array_scan_upto(s: Seq<i64>, k: int)
    requires
        0 < s.len(),
        0 <= k < s.len(),
    ensures
        scan_state(json_array(s), item_start(s, k)) == (false, false),
        positions_upto(json_array(s), item_start(s, k)) == seq![0int] + Seq::new(k as nat, |j: int| item_end(s, j)),
    decreases k,
{
    let src = json_array(s);
    if k == 0 {
        assert(src[0] == 0x5B);
        assert(positions_upto(src, 0) =~= Seq::<int>::empty());
        lemma_scan_structural(src, 0);
        assert(item_start(s, 0) == 1) by {
            assert(s.take(0) =~= Seq::<i64>::empty());
        }
        assert(positions_upto(src, 1) =~= seq![0int] + Seq::new(0, |j: int| item_end(s, j)));
    } else {
        lemma_array_scan_upto(s, k - 1);
        lemma_array_item(s, k - 1);
        lemma_int_text_quiet(s[k - 1] as int);
        lemma_scan_quiet_piece(src, item_start(s, k - 1), int_text(s[k - 1] as int));
        lemma_scan_structural(src, item_end(s, k - 1));
        assert(positions_upto(src, item_end(s, k - 1) + 1) =~= seq![0int] + Seq::new(k as nat, |j: int| item_end(s, j)));
    }
}

/// The structural bytes of the array text of at least one integer: `[`,
/// the comma after each item but the last, and `]`.
proof fn lemma_array_positions(s: Seq<i64>)
    requires
        s.len() > 0,
    ensures
        structural_positions(json_array(s)) == seq![0int] + Seq::new(s.len(), |k: int| item_end(s, k)),
{
    let src = json_array(s);
    let n = s.len() as int;
    lemma_array_scan_upto(s, n - 1);
    lemma_array_item(s, n - 1);
    lemma_int_text_quiet(s[n - 1] as int);
    lemma_scan_quiet_piece(src, item_start(s, n - 1), int_text(s[n - 1] as int));
    lemma_scan_structural(src, item_end(s, n - 1));
    assert(positions_upto(src, item_end(s, n - 1) + 1) =~= seq![0int] + Seq::new(n as nat, |j: int| item_end(s, j)));
}


/// The tape of the array text of at least one integer.
proof fn lemma_array_tape(s: Seq<i64>)
    requires
        s.len() > 0,
        json_array(s).len() <= 0x1000_0000,
    ensures
        ({
            let tape = tagged_tape(json_array(s));
            &&& tape.len() == s.len() + 1
            &&& entry_tag(tape[0]) == TOKEN_LBRACKET
            &&& entry_offset(tape[0]) == 0
            &&& forall|k: int|
                0 <= k < s.len() ==> entry_offset(#[trigger] tape[k + 1]) == item_end(s, k) && entry_tag(
                    tape[k + 1],
                ) == if k + 1 < s.len() { TOKEN_COMMA } else { TOKEN_RBRACKET }
        }),
{
    let src = json_array(s);
    let tape = tagged_tape(src);
    lemma_array_positions(s);
    assert(src[0] == 0x5B);
    lemma_tape_entry(src, 0);
    assert forall|k: int| 0 <= k < s.len() implies entry_offset(#[trigger] tape[k + 1]) == item_end(s, k)
        && entry_tag(tape[k + 1]) == if k + 1 < s.len() { TOKEN_COMMA } else { TOKEN_RBRACKET } by {
        lemma_tape_entry(src, k + 1);
        lemma_array_item(s, k);
    }
}

/// An integer's text followed by a byte that ends a number reads back as
/// that integer.
proof fn lemma_item_i64(src: Seq<u8>, tape: Seq<u32>, pos: int, start: int, v: i64)
    requires
        0 < pos <= tape.len(),
        entry_offset(tape[pos - 1]) + 1 == start,
        0 <= start,
        start + int_text(v as int).len() < src.len(),
        src.subrange(start, start + int_text(v as int).len()) == int_text(v as int),
        ends_number(src[start + int_text(v as int).len()]),
    ensures
        i64_value(src, tape, pos) == Ok::<int, ErrorView>(v as int),
{
    let d = int_text(v as int);
    lemma_int_text_ascii(v as int);
    lemma_int_text_quiet(v as int);
    let n = if v < 0 { (-v) as nat } else { v as nat };
    lemma_decimal_digits_ascii(n);
    assert(d.len() > 0);
    assert(src[start] == d[0]);
    assert(skip_ws_from(src, start) == start);
    assert forall|j: int| start <= j < start + d.len() implies !ends_number(#[trigger] src[j]) by {
        assert(src[j] == d[j - start]);
        if v < 0 && j > start {
            assert(d[j - start] == decimal_digits(n)[j - start - 1]);
        }
    }
    lemma_number_end_at(src, start, start + d.len());
    lemma_ascii_utf8(d);
    law_int_text_parses_back(v as int, true, i64::MIN as int, i64::MAX as int);
}

/// The items of the array text of `s`, read from item `k` on.
proof fn lemma_array_items_read(s: Seq<i64>, k: int)
    requires
        0 <= k < s.len(),
        json_array(s).len() <= 0x1000_0000,
    ensures
        array_items::<i64>(json_array(s), tagged_tape(json_array(s)), k + 1) == (
            Ok::<Seq<int>, ErrorView>(Seq::new((s.len() - k) as nat, |j: int| s[k + j] as int)),
            s.len() + 1int,
        ),
    decreases s.len() - k,
{
    let src = json_array(s);
    let tape = tagged_tape(src);
    let n = s.len() as int;
    lemma_array_tape(s);
    lemma_array_item(s, k);
    if k == 0 {
        assert(item_start(s, 0) == 1) by {
            assert(s.take(0) =~= Seq::<i64>::empty());
        }
    } else {
        lemma_array_item(s, k - 1);
        assert(entry_offset(tape[k]) == item_end(s, k - 1));
    }
    assert(entry_offset(tape[k]) + 1 == item_start(s, k));
    lemma_item_i64(src, tape, k + 1, item_start(s, k), s[k]);
    let x = s[k] as int;
    assert(<i64 as Deserialize>::parse_spec(src, tape, k + 1) == (Ok::<int, ErrorView>(x), k + 1));
    if k + 1 < n {
        lemma_array_items_read(s, k + 1);
        assert(seq![x] + Seq::new((n - k - 1) as nat, |j: int| s[k + 1 + j] as int) =~= Seq::new(
            (n - k) as nat,
            |j: int| s[k + j] as int,
        ));
    } else {
        assert(seq![x] =~= Seq::new((n - k) as nat, |j: int| s[k + j] as int));
    }
}

/// Reading an array of `i64` from the text that writing it produced gives
/// it back (within the parser's size limit).
pub proof fn law_i64_array_roundtrip(s: Seq<i64>)
    requires
        json_array(s).len() <= 0x1000_0000,
    ensures
        document_spec::<Vec<i64>>(json_array(s)) == Ok::<Seq<int>, ErrorView>(
            Seq::new(s.len(), |k: int| s[k] as int),
        ),
{
    let src = json_array(s);
    let tape = tagged_tape(src);
    if s.len() == 0 {
        assert(json_items(s) =~= Seq::<u8>::empty());
        assert(src =~= seq![0x5Bu8, 0x5Du8]);
        assert(positions_upto(src, 0) =~= Seq::<int>::empty());
        lemma_scan_structural(src, 0);
        lemma_scan_structural(src, 1);
        assert(structural_positions(src) =~= seq![0int, 1]);
        lemma_tape_entry(src, 0);
        lemma_tape_entry(src, 1);
        assert(skip_ws_from(src, 1) == 1);
        assert(Seq::new(0, |k: int| s[k] as int) =~= Seq::<int>::empty());
    } else {
        lemma_array_tape(s);
        lemma_array_item(s, 0);
        assert(item_start(s, 0) == 1) by {
            assert(s.take(0) =~= Seq::<i64>::empty());
        }
        lemma_int_text_ascii(s[0] as int);
        lemma_int_text_quiet(s[0] as int);
        let n0 = if s[0] < 0 { (-s[0]) as nat } else { s[0] as nat };
        lemma_decimal_digits_ascii(n0);
        assert(int_text(s[0] as int).len() > 0);
        assert(src[1] == int_text(s[0] as int)[0]);
        assert(skip_ws_from(src, 1) == 1);
        assert(!empty_array_close(src, tape, 1));
        lemma_array_items_read(s, 0);
        assert(Seq::new((s.len() - 0) as nat, |j: int| s[0 + j] as int) =~= Seq::new(s.len(), |k: int| s[k] as int));
    }
}

// ---------------------------------------------------------------------------
// Bytes and text
// ---------------------------------------------------------------------------

/// Reading a document from bytes that are valid UTF-8 (`from_slice`) and
/// from the text they encode (`from_str`) gives the same outcome: the text's
/// bytes are those bytes.
pub proof fn law_slice_and_str_agree<T: Deserialize>(b: Seq<u8>, s: &str)
    requires
        valid_utf8(b),
        s@ == decode_utf8(b),
    ensures
        s.spec_bytes() == b,
        document_spec::<T>(s.spec_bytes()) == document_spec::<T>(b),
{
    decode_utf8_encode_utf8(b);
}

// ---------------------------------------------------------------------------
// Enum variants
// ---------------------------------------------------------------------------

/// Reading the head of an enum value from the text of a unit variant gives
/// its name back, as read outside an object, for names whose bytes need no
/// escaping (within the parser's size limit).
pub proof fn law_unit_variant_roundtrip(name: Seq<char>)
    requires
        forall|i: int| 0 <= i < encode_utf8(name).len() ==> escape_code(#[trigger] encode_utf8(name)[i]) == 0,
        unit_variant_text(encode_utf8(name)).len() <= 0x1000_0000,
    ensures
        variant_head_spec(unit_variant_text(encode_utf8(name)), tagged_tape(unit_variant_text(encode_utf8(name))), 0)
            == (Ok::<(Seq<char>, bool), ErrorView>((name, false)), 2int),
{
    let b = encode_utf8(name);
    lemma_escape_body_plain(b);
    let input = json_string(b);
    assert(input =~= unit_variant_text(b));
    let last = input.len() - 1;
    lemma_string_literal_positions(b);
    let tape = tagged_tape(input);
    assert(tape[0] == tagged_entry(input[0], 0));
    assert(tape[1] == tagged_entry(input[last], last));
    lemma_tagged_entry(0x22u8, 0u32);
    lemma_tagged_entry(0x22u8, last as u32);
    assert(tag_at(tape, 0) == Some(TOKEN_QUOTE));
    law_string_roundtrip(name);
}

// ---------------------------------------------------------------------------
// Skipping values
// ---------------------------------------------------------------------------

/// How entry `e` changes the nesting of `open`/`close` tags.
pub open spec fn nesting_delta(e: u32, open: u32, close: u32) -> int {
    if entry_tag(e) == open {
        1
    } else if entry_tag(e) == close {
        -1
    } else {
        0
    }
}

/// The nesting of `open`/`close` tags over the entries from `from` up to,
/// not including, `to`: one more per `open`, one less per `close`.
pub open spec fn nesting(tape: Seq<u32>, from: int, to: int, open: u32, close: u32) -> int
    decreases to - from,
{
    if to <= from {
        0
    } else {
        nesting(tape, from, to - 1, open, close) + nesting_delta(tape[to - 1], open, close)
    }
}

/// Skipping inside a container whose nesting first returns to zero right
/// after entry `j` ends right after `j`.
proof fn lemma_skip_nested_to_match(tape: Seq<u32>, pos: int, j: int, p: int, open: u32, close: u32, msg: Seq<char>)
    requires
        open != close,
        0 <= pos < p <= j + 1,
        j < tape.len(),
        nesting(tape, pos, j + 1, open, close) == 0,
        forall|k: int| pos < k <= j ==> #[trigger] nesting(tape, pos, k, open, close) > 0,
    ensures
        skip_nested(tape, p, nesting(tape, pos, p, open, close) as nat, open, close, msg) == (Ok::<(), ErrorView>(()), j + 1),
    decreases j + 1 - p,
{
    if p <= j {
        assert(nesting(tape, pos, p, open, close) > 0);
        assert(nesting(tape, pos, p + 1, open, close) == nesting(tape, pos, p, open, close) + nesting_delta(
            tape[p],
            open,
            close,
        ));
        if p + 1 <= j {
            assert(nesting(tape, pos, p + 1, open, close) > 0);
        }
        lemma_skip_nested_to_match(tape, pos, j, p + 1, open, close, msg);
    }
}

/// The tag that opens an array (or an object).
pub open spec fn open_tag(array: bool) -> u32 {
    if array { TOKEN_LBRACKET } else { TOKEN_LBRACE }
}

/// The tag that closes an array (or an object).
pub open spec fn close_tag(array: bool) -> u32 {
    if array { TOKEN_RBRACKET } else { TOKEN_RBRACE }
}

/// Skipping a value that opens an object or an array at entry `pos` moves
/// to just past the entry `j` that closes it: the first entry after which
/// as many `}` (`]`) as `{` (`[`) have been seen from `pos` on.
pub proof fn law_skip_container_to_its_close(tape: Seq<u32>, pos: int, j: int, array: bool)
    requires
        0 <= pos < j < tape.len(),
        tag_at(tape, pos) == Some(open_tag(array)),
        nesting(tape, pos, j + 1, open_tag(array), close_tag(array)) == 0,
        forall|k: int|
            pos < k <= j ==> #[trigger] nesting(tape, pos, k, open_tag(array), close_tag(array)) > 0,
    ensures
        skip_value_spec(tape, pos) == (Ok::<(), ErrorView>(()), j + 1),
{
    let open = open_tag(array);
    let close = close_tag(array);
    let msg = if array { "unexpected end of tape in array skip"@ } else { "unexpected end of tape in object skip"@ };
    assert(nesting(tape, pos, pos, open, close) == 0);
    assert(nesting(tape, pos, pos + 1, open, close) == 1);
    lemma_skip_nested_to_match(tape, pos, j, pos + 1, open, close, msg);
}

/// Reading a dynamic value from a string's text gives the string, for
/// strings whose bytes need no `\u00XX` escape (within the parser's size
/// limit).
pub proof fn law_value_reads_string_text(s: Seq<char>)
    requires
        no_unicode_escapes(encode_utf8(s)),
        json_string(encode_utf8(s)).len() <= 0x1000_0000,
    ensures
        document_spec::<Value>(json_string(encode_utf8(s))) == Ok::<ValueView, ErrorView>(ValueView::Str(s)),
{
    let b = encode_utf8(s);
    let input = json_string(b);
    let last = input.len() - 1;
    lemma_string_literal_positions(b);
    let tape = tagged_tape(input);
    assert(tape[0] == tagged_entry(input[0], 0));
    lemma_tagged_entry(0x22u8, 0u32);
    assert(tag_at(tape, 0) == Some(TOKEN_QUOTE));
    law_string_roundtrip(s);
}

// ---------------------------------------------------------------------------
// Records and maps: which member a field or a key ends up with
// ---------------------------------------------------------------------------

/// Whether field `f` is written and has key `key`.
pub open spec fn field_takes(f: FieldSpec, key: Seq<char>) -> bool {
    !f.skip && key_of(f) == key
}

/// A member with key `key` is read into field `i` exactly when field `i`
/// is written, has that key, and no earlier field does both; it is read
/// into no field exactly when no field does both.
pub proof fn law_field_index_is_first_match(fields: Seq<FieldSpec>, key: Seq<char>, i: int)
    ensures
        field_index(fields, key) == Some(i) <==> (0 <= i < fields.len() && field_takes(fields[i], key)
            && forall|j: int| 0 <= j < i ==> !#[trigger] field_takes(fields[j], key)),
        field_index(fields, key) is None <==> forall|j: int|
            0 <= j < fields.len() ==> !#[trigger] field_takes(fields[j], key),
{
    lemma_field_index_from(fields, key, 0, i);
}

proof fn lemma_field_index_from(fields: Seq<FieldSpec>, key: Seq<char>, from: int, i: int)
    requires
        0 <= from,
    ensures
        field_index_from(fields, key, from) == Some(i) <==> (from <= i < fields.len() && field_takes(fields[i], key)
            && forall|j: int| from <= j < i ==> !#[trigger] field_takes(fields[j], key)),
        field_index_from(fields, key, from) is None <==> forall|j: int|
            from <= j < fields.len() ==> !#[trigger] field_takes(fields[j], key),
    decreases fields.len() - from,
{
    if from < fields.len() {
        lemma_field_index_from(fields, key, from + 1, i);
        if !field_takes(fields[from], key) {
            if from <= i < fields.len() && field_takes(fields[i], key) {
                assert(i != from);
            }
            assert((forall|j: int| from <= j < i ==> !#[trigger] field_takes(fields[j], key)) <==> (forall|j: int|
                from + 1 <= j < i ==> !#[trigger] field_takes(fields[j], key)));
            assert((forall|j: int| from <= j < fields.len() ==> !#[trigger] field_takes(fields[j], key)) <==> (forall|
                j: int,
            |
                from + 1 <= j < fields.len() ==> !#[trigger] field_takes(fields[j], key)));
        }
    }
}

/// After reading items `(field, model)` in order, a field holds the model of
/// the last item read into it, and nothing when none was.
pub proof fn law_slot_holds_last_item<M>(items: Seq<(int, M)>, i: int)
    ensures
        slot_model(items, i) is None <==> forall|k: int| 0 <= k < items.len() ==> (#[trigger] items[k]).0 != i,
        forall|k: int|
            0 <= k < items.len() && (#[trigger] items[k]).0 == i && (forall|l: int|
                k < l < items.len() ==> (#[trigger] items[l]).0 != i) ==> slot_model(items, i) == Some(items[k].1),
    decreases items.len(),
{
    if items.len() > 0 {
        let pre = items.drop_last();
        law_slot_holds_last_item(pre, i);
        assert forall|k: int| 0 <= k < pre.len() implies #[trigger] pre[k] == items[k] by {}
        if items.last().0 != i {
            assert forall|k: int|
                0 <= k < items.len() && (#[trigger] items[k]).0 == i && (forall|l: int|
                    k < l < items.len() ==> (#[trigger] items[l]).0 != i) implies slot_model(items, i) == Some(
                items[k].1,
            ) by {
                assert(k < pre.len());
                assert(pre[k] == items[k]);
                assert forall|l: int| k < l < pre.len() implies (#[trigger] pre[l]).0 != i by {
                    assert(pre[l] == items[l]);
                }
            }
            if slot_model(items, i) is None {
                assert forall|k: int| 0 <= k < items.len() implies (#[trigger] items[k]).0 != i by {
                    if k < pre.len() {
                        assert(pre[k] == items[k]);
                    }
                }
            }
        }
    }
}

/// A map read from members holds exactly their keys, each with the value of
/// its last occurrence.
pub proof fn law_map_holds_last_value<M>(ms: Seq<(Seq<char>, M)>, key: Seq<char>)
    ensures
        members_map(ms).contains_key(key) <==> exists|k: int| 0 <= k < ms.len() && (#[trigger] ms[k]).0 == key,
        forall|k: int|
            0 <= k < ms.len() && (#[trigger] ms[k]).0 == key && (forall|l: int|
                k < l < ms.len() ==> (#[trigger] ms[l]).0 != key) ==> members_map(ms)[key] == ms[k].1,
    decreases ms.len(),
{
    if ms.len() > 0 {
        let pre = ms.drop_last();
        law_map_holds_last_value(pre, key);
        assert forall|k: int| 0 <= k < pre.len() implies #[trigger] pre[k] == ms[k] by {}
        if ms.last().0 != key {
            if exists|k: int| 0 <= k < ms.len() && (#[trigger] ms[k]).0 == key {
                let k = choose|k: int| 0 <= k < ms.len() && (#[trigger] ms[k]).0 == key;
                assert(k < pre.len());
                assert(pre[k].0 == key);
            }
            assert forall|k: int|
                0 <= k < ms.len() && (#[trigger] ms[k]).0 == key && (forall|l: int|
                    k < l < ms.len() ==> (#[trigger] ms[l]).0 != key) implies members_map(ms)[key] == ms[k].1 by {
                assert(k < pre.len());
                assert(pre[k] == ms[k]);
                assert forall|l: int| k < l < pre.len() implies (#[trigger] pre[l]).0 != key by {
                    assert(pre[l] == ms[l]);
                }
            }
        } else {
            assert(ms[ms.len() - 1].0 == key);
        }
    }
}

} // verus!
