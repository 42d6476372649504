//! JSON serialization: exact string escaping, integer and boolean text, and
//! the [`Serialize`] trait with its impls for the standard types.

use vstd::prelude::*;
use vstd::string::*;
use vstd::utf8::encode_utf8;
use crate::bytes::{append_all, append_range};

pub mod raw;

pub use raw::{write_str_escape_raw, write_value_raw, SerializeRaw};

verus! {

/// Lowercase hexadecimal digit for `n < 16`.
pub open spec fn hex_digit(n: u8) -> u8 {
    if n < 10 {
        (0x30 + n) as u8
    } else {
        (0x61 + n - 10) as u8
    }
}

/// The escape-table entry of byte `b`: `0` if it needs no escaping, else the
/// letter that follows the backslash (`u` for the generic `\u00XX` form).
pub open spec fn escape_code(b: u8) -> u8 {
    if b == 0x22 {
        0x22
    } else if b == 0x5C {
        0x5C
    } else if b == 0x0A {
        0x6E
    } else if b == 0x0D {
        0x72
    } else if b == 0x09 {
        0x74
    } else if b == 0x08 {
        0x62
    } else if b == 0x0C {
        0x66
    } else if b < 0x20 {
        0x75
    } else {
        0
    }
}

/// How byte `b` appears inside a JSON string literal.
pub open spec fn escape_byte(b: u8) -> Seq<u8> {
    let e = escape_code(b);
    if e == 0 {
        seq![b]
    } else if e == 0x75 {
        seq![0x5Cu8, 0x75u8, 0x30u8, 0x30u8, hex_digit(b >> 4u8), hex_digit(b & 0xFu8)]
    } else {
        seq![0x5Cu8, e]
    }
}

/// The escaped body of a JSON string literal for the bytes `s`.
pub open spec fn escape_body(s: Seq<u8>) -> Seq<u8>
    decreases s.len(),
{
    if s.len() == 0 {
        Seq::empty()
    } else {
        escape_body(s.drop_last()) + escape_byte(s.last())
    }
}

/// The JSON string literal, quotes included, for the bytes `s`.
pub open spec fn json_string(s: Seq<u8>) -> Seq<u8> {
    seq![0x22u8] + escape_body(s) + seq![0x22u8]
}

/// The decimal digits of `n`.
pub open spec fn decimal_digits(n: nat) -> Seq<u8>
    decreases n,
{
    if n < 10 {
        seq![(0x30 + n) as u8]
    } else {
        decimal_digits(n / 10).push((0x30 + n % 10) as u8)
    }
}

/// The decimal text of `i`, with a leading `-` when negative.
pub open spec fn int_text(i: int) -> Seq<u8> {
    if i < 0 {
        seq![0x2Du8] + decimal_digits((-i) as nat)
    } else {
        decimal_digits(i as nat)
    }
}

/// The text `true` or `false`.
pub open spec fn bool_text(b: bool) -> Seq<u8> {
    if b {
        seq![0x74u8, 0x72u8, 0x75u8, 0x65u8]
    } else {
        seq![0x66u8, 0x61u8, 0x6Cu8, 0x73u8, 0x65u8]
    }
}

/// The text `null`.
pub open spec fn null_text() -> Seq<u8> {
    seq![0x6Eu8, 0x75u8, 0x6Cu8, 0x6Cu8]
}

/// Decimal digits are ASCII.
pub proof fn lemma_decimal_digits_ascii(n: nat)
    ensures
        forall|i: int|
            0 <= i < decimal_digits(n).len() ==> 0x30 <= #[trigger] decimal_digits(n)[i] <= 0x39,
        decimal_digits(n).len() >= 1,
    decreases n,
{
    if n >= 10 {
        lemma_decimal_digits_ascii(n / 10);
    }
}

/// Integer text is ASCII.
pub proof fn lemma_int_text_ascii(i: int)
    ensures
        crate::utf8::is_ascii_bytes(int_text(i)),
{
    if i < 0 {
        lemma_decimal_digits_ascii((-i) as nat);
        let d = decimal_digits((-i) as nat);
        assert forall|k: int| 0 <= k < int_text(i).len() implies #[trigger] int_text(i)[k] < 0x80 by {
            if k > 0 {
                assert(int_text(i)[k] == d[k - 1]);
            }
        }
    } else {
        lemma_decimal_digits_ascii(i as nat);
    }
}

/// Formats `v` with `itoa::Buffer::format`, whose output is the decimal
/// representation of the integer, with a leading `-` for negative values
/// (as `core::fmt` prints it); the contract states exactly that text.
#[verifier::external_body]
fn itoa_i128(v: i128) -> (r: Vec<u8>)
    ensures
        r@ == int_text(v as int),
{
    let mut buffer = itoa::Buffer::new();
    buffer.format(v).as_bytes().to_vec()
}

/// Formats `v` with `itoa::Buffer::format`, whose output is the decimal
/// representation of the integer (as `core::fmt` prints it); the contract
/// states exactly that text.
#[verifier::external_body]
fn itoa_u128(v: u128) -> (r: Vec<u8>)
    ensures
        r@ == int_text(v as int),
{
    let mut buffer = itoa::Buffer::new();
    buffer.format(v).as_bytes().to_vec()
}

/// The decimal text of `v`, as bytes.
pub fn uint_to_text(v: u128) -> (r: Vec<u8>)
    ensures
        r@ == int_text(v as int),
{
    itoa_u128(v)
}

/// The decimal text of `v`, as bytes.
pub fn int_to_text(v: i128) -> (r: Vec<u8>)
    ensures
        r@ == int_text(v as int),
{
    itoa_i128(v)
}

/// The escape-table entry of byte `b` (see [`escape_code`]).
pub fn escape_code_of(b: u8) -> (e: u8)
    ensures
        e == escape_code(b),
{
    match b {
        0x22 => 0x22,
        0x5C => 0x5C,
        0x0A => 0x6E,
        0x0D => 0x72,
        0x09 => 0x74,
        0x08 => 0x62,
        0x0C => 0x66,
        _ => if b < 0x20 {
            0x75
        } else {
            0
        },
    }
}

/// Builds the 256-entry escape lookup table: entry `b` is
/// [`escape_code`]`(b)`.
pub fn build_escape_table() -> (t: [u8; 256])
    ensures
        forall|b: int| 0 <= b < 256 ==> #[trigger] t@[b] == escape_code(b as u8),
{
    let mut t = [0u8; 256];
    let mut i: usize = 0;
    while i < 256
        invariant
            i <= 256,
            forall|b: int| 0 <= b < i ==> #[trigger] t@[b] == escape_code(b as u8),
        decreases 256 - i,
    {
        let e = escape_code_of(i as u8);
        t[i] = e;
        i = i + 1;
    }
    t
}

fn hex_digit_of(n: u8) -> (d: u8)
    requires
        n < 16,
    ensures
        d == hex_digit(n),
{
    if n < 10 {
        0x30 + n
    } else {
        0x61 + n - 10
    }
}

/// Appends the escape sequence of a byte whose escape code `esc` is nonzero.
fn push_escape(buf: &mut Vec<u8>, b: u8, esc: u8)
    requires
        esc == escape_code(b),
        esc != 0,
    ensures
        final(buf)@ == old(buf)@ + escape_byte(b),
{
    if esc == 0x75 {
        let hi = (b >> 4u8) & 0xFu8;
        let lo = b & 0xFu8;
        assert((b >> 4u8) & 0xFu8 < 16) by (bit_vector);
        assert(b & 0xFu8 < 16) by (bit_vector);
        assert((b >> 4u8) & 0xFu8 == b >> 4u8) by (bit_vector);
        let dh = hex_digit_of(hi);
        let dl = hex_digit_of(lo);
        buf.push(0x5C);
        buf.push(0x75);
        buf.push(0x30);
        buf.push(0x30);
        buf.push(dh);
        buf.push(dl);
        proof {
            assert(final(buf)@ =~= old(buf)@ + escape_byte(b)) by {
                assert(escape_byte(b) =~= seq![0x5Cu8, 0x75u8, 0x30u8, 0x30u8, dh, dl]);
            }
        }
    } else {
        buf.push(0x5C);
        buf.push(esc);
        proof {
            assert(escape_byte(b) =~= seq![0x5Cu8, esc]);
        }
    }
}

/// Bytes that need no escaping appear in the body as they are.
proof fn lemma_escape_clean_run(s: Seq<u8>, i: int, j: int)
    requires
        0 <= i <= j <= s.len(),
        forall|k: int| i <= k < j ==> escape_code(#[trigger] s[k]) == 0,
    ensures
        escape_body(s.take(j)) == escape_body(s.take(i)) + s.subrange(i, j),
    decreases j - i,
{
    if i < j {
        lemma_escape_clean_run(s, i, j - 1);
        assert(s.take(j).drop_last() =~= s.take(j - 1));
        assert(s.subrange(i, j) =~= s.subrange(i, j - 1).push(s[j - 1]));
    } else {
        assert(s.subrange(i, j) =~= Seq::<u8>::empty());
    }
}

/// Appends the escaped body of `bytes` (without quotes) to `buf`.
fn write_escaped_body(buf: &mut Vec<u8>, bytes: &[u8])
    ensures
        final(buf)@ == old(buf)@ + escape_body(bytes@),
{
    let len = bytes.len();
    let mut i: usize = 0;
    let mut start: usize = 0;
    proof {
        assert(bytes@.take(0) =~= Seq::<u8>::empty());
    }
    while i < len
        invariant
            start <= i <= len,
            len == bytes@.len(),
            buf@ == old(buf)@ + escape_body(bytes@.take(start as int)),
            forall|k: int| start <= k < i ==> escape_code(#[trigger] bytes@[k]) == 0,
        decreases len - i,
    {
        let b = bytes[i];
        let esc = escape_code_of(b);
        if esc != 0 {
            proof {
                lemma_escape_clean_run(bytes@, start as int, i as int);
            }
            append_range(buf, bytes, start, i);
            push_escape(buf, b, esc);
            proof {
                assert(bytes@.take(i + 1).drop_last() =~= bytes@.take(i as int));
                assert(bytes@.take(i + 1).last() == b);
                assert(buf@ =~= old(buf)@ + escape_body(bytes@.take(i + 1)));
            }
            start = i + 1;
        }
        i = i + 1;
    }
    proof {
        lemma_escape_clean_run(bytes@, start as int, len as int);
        assert(bytes@.take(len as int) =~= bytes@);
    }
    append_range(buf, bytes, start, len);
}

/// Writes `bytes` as a JSON string literal into `buf`: a quote, the bytes
/// with `"`, `\` and the control characters escaped, and a quote. Runs of
/// bytes that need no escaping are copied in bulk.
pub fn write_str_escape(buf: &mut Vec<u8>, bytes: &[u8])
    ensures
        final(buf)@ == old(buf)@ + json_string(bytes@),
{
    buf.push(0x22);
    write_escaped_body(buf, bytes);
    buf.push(0x22);
    proof {
        assert(final(buf)@ =~= old(buf)@ + json_string(bytes@));
    }
}

/// Types that can write themselves as JSON text.
pub trait Serialize {
    /// The JSON text of this value.
    spec fn json_bytes(&self) -> Seq<u8>;

    /// Appends the JSON text of this value to `buf`.
    fn serialize(&self, buf: &mut Vec<u8>)
        ensures
            final(buf)@ == old(buf)@ + self.json_bytes(),
    ;
}

/// The elements' JSON texts separated by commas.
pub open spec fn json_items<T: Serialize>(s: Seq<T>) -> Seq<u8>
    decreases s.len(),
{
    if s.len() == 0 {
        Seq::empty()
    } else if s.len() == 1 {
        s[0].json_bytes()
    } else {
        json_items(s.drop_last()) + seq![0x2Cu8] + s.last().json_bytes()
    }
}

/// The JSON array text of the elements `s`.
pub open spec fn json_array<T: Serialize>(s: Seq<T>) -> Seq<u8> {
    seq![0x5Bu8] + json_items(s) + seq![0x5Du8]
}

impl Serialize for String {
    open spec fn json_bytes(&self) -> Seq<u8> {
        json_string(encode_utf8(self@))
    }

    fn serialize(&self, buf: &mut Vec<u8>) {
        write_str_escape(buf, self.as_str().as_bytes());
    }
}

impl Serialize for str {
    open spec fn json_bytes(&self) -> Seq<u8> {
        json_string(self.spec_bytes())
    }

    fn serialize(&self, buf: &mut Vec<u8>) {
        write_str_escape(buf, self.as_bytes());
    }
}

impl Serialize for bool {
    open spec fn json_bytes(&self) -> Seq<u8> {
        bool_text(*self)
    }

    fn serialize(&self, buf: &mut Vec<u8>) {
        if *self {
            let t: [u8; 4] = [0x74, 0x72, 0x75, 0x65];
            append_all(buf, t.as_slice());
        } else {
            let f: [u8; 5] = [0x66, 0x61, 0x6C, 0x73, 0x65];
            append_all(buf, f.as_slice());
        }
    }
}

/// Appends the decimal text of `v`.
fn serialize_int(v: i128, buf: &mut Vec<u8>)
    ensures
        final(buf)@ == old(buf)@ + int_text(v as int),
{
    let text = int_to_text(v);
    append_all(buf, text.as_slice());
}

impl Serialize for i8 {
    open spec fn json_bytes(&self) -> Seq<u8> {
        int_text(*self as int)
    }

    fn serialize(&self, buf: &mut Vec<u8>) {
        serialize_int(*self as i128, buf);
    }
}

impl Serialize for i16 {
    open spec fn json_bytes(&self) -> Seq<u8> {
        int_text(*self as int)
    }

    fn serialize(&self, buf: &mut Vec<u8>) {
        serialize_int(*self as i128, buf);
    }
}

impl Serialize for i32 {
    open spec fn json_bytes(&self) -> Seq<u8> {
        int_text(*self as int)
    }

    fn serialize(&self, buf: &mut Vec<u8>) {
        serialize_int(*self as i128, buf);
    }
}

impl Serialize for i64 {
    open spec fn json_bytes(&self) -> Seq<u8> {
        int_text(*self as int)
    }

    fn serialize(&self, buf: &mut Vec<u8>) {
        serialize_int(*self as i128, buf);
    }
}

impl Serialize for isize {
    open spec fn json_bytes(&self) -> Seq<u8> {
        int_text(*self as int)
    }

    fn serialize(&self, buf: &mut Vec<u8>) {
        serialize_int(*self as i128, buf);
    }
}

impl Serialize for u8 {
    open spec fn json_bytes(&self) -> Seq<u8> {
        int_text(*self as int)
    }

    fn serialize(&self, buf: &mut Vec<u8>) {
        serialize_int(*self as i128, buf);
    }
}

impl Serialize for u16 {
    open spec fn json_bytes(&self) -> Seq<u8> {
        int_text(*self as int)
    }

    fn serialize(&self, buf: &mut Vec<u8>) {
        serialize_int(*self as i128, buf);
    }
}

impl Serialize for u32 {
    open spec fn json_bytes(&self) -> Seq<u8> {
        int_text(*self as int)
    }

    fn serialize(&self, buf: &mut Vec<u8>) {
        serialize_int(*self as i128, buf);
    }
}

impl Serialize for u64 {
    open spec fn json_bytes(&self) -> Seq<u8> {
        int_text(*self as int)
    }

    fn serialize(&self, buf: &mut Vec<u8>) {
        serialize_int(*self as i128, buf);
    }
}

impl Serialize for usize {
    open spec fn json_bytes(&self) -> Seq<u8> {
        int_text(*self as int)
    }

    fn serialize(&self, buf: &mut Vec<u8>) {
        serialize_int(*self as i128, buf);
    }
}

/// Writes the elements of `items` as a JSON array.
fn serialize_slice<T: Serialize>(items: &[T], buf: &mut Vec<u8>)
    ensures
        final(buf)@ == old(buf)@ + json_array(items@),
{
    buf.push(0x5B);
    let ghost start = buf@;
    let mut i: usize = 0;
    while i < items.len()
        invariant
            i <= items@.len(),
            start == old(buf)@.push(0x5Bu8),
            buf@ == start + json_items(items@.take(i as int)),
        decreases items@.len() - i,
    {
        let ghost before = buf@;
        if i > 0 {
            buf.push(0x2C);
        }
        items[i].serialize(buf);
        proof {
            let t = items@.take(i + 1);
            assert(t.drop_last() =~= items@.take(i as int));
            assert(t.last() == items@[i as int]);
            if i == 0 {
                assert(buf@ =~= start + json_items(t));
            } else {
                assert(buf@ =~= start + json_items(t));
            }
        }
        i = i + 1;
    }
    buf.push(0x5D);
    proof {
        assert(items@.take(items@.len() as int) =~= items@);
        assert(final(buf)@ =~= old(buf)@ + json_array(items@));
    }
}

impl<T: Serialize> Serialize for Vec<T> {
    open spec fn json_bytes(&self) -> Seq<u8> {
        json_array(self@)
    }

    fn serialize(&self, buf: &mut Vec<u8>) {
        serialize_slice(self.as_slice(), buf);
    }
}

impl<T: Serialize> Serialize for [T] {
    open spec fn json_bytes(&self) -> Seq<u8> {
        json_array(self@)
    }

    fn serialize(&self, buf: &mut Vec<u8>) {
        serialize_slice(self, buf);
    }
}

impl<T: Serialize + ?Sized> Serialize for &T {
    open spec fn json_bytes(&self) -> Seq<u8> {
        (**self).json_bytes()
    }

    fn serialize(&self, buf: &mut Vec<u8>) {
        (**self).serialize(buf);
    }
}

impl<T: Serialize> Serialize for Option<T> {
    open spec fn json_bytes(&self) -> Seq<u8> {
        match self {
            Some(v) => v.json_bytes(),
            None => null_text(),
        }
    }

    fn serialize(&self, buf: &mut Vec<u8>) {
        match self {
            Some(v) => v.serialize(buf),
            None => {
                let n: [u8; 4] = [0x6E, 0x75, 0x6C, 0x6C];
                append_all(buf, n.as_slice());
            },
        }
    }
}

impl<T: Serialize + ?Sized> Serialize for Box<T> {
    open spec fn json_bytes(&self) -> Seq<u8> {
        (**self).json_bytes()
    }

    fn serialize(&self, buf: &mut Vec<u8>) {
        (**self).serialize(buf);
    }
}

impl<'a> Serialize for std::borrow::Cow<'a, str> {
    open spec fn json_bytes(&self) -> Seq<u8> {
        json_string(encode_utf8(self@))
    }

    fn serialize(&self, buf: &mut Vec<u8>) {
        match self {
            std::borrow::Cow::Borrowed(s) => write_str_escape(buf, s.as_bytes()),
            std::borrow::Cow::Owned(o) => write_str_escape(buf, o.as_str().as_bytes()),
        }
    }
}

/// Appends the JSON text of `val` to `buf`.
pub fn write_value<T: Serialize + ?Sized>(val: &T, buf: &mut Vec<u8>)
    ensures
        final(buf)@ == old(buf)@ + val.json_bytes(),
{
    val.serialize(buf);
}

} // verus!
