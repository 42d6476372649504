//! Writing JSON text in place into a byte buffer that the caller has sized:
//! the [`SerializeRaw`] trait and its impls for the standard types.

use vstd::prelude::*;
use vstd::string::*;
use crate::bytes::{lemma_splice_splice, put_bytes, splice};
use super::{
    bool_text, escape_body, escape_byte, escape_code_of, hex_digit, int_text,
    int_to_text, json_array, json_items, json_string, null_text, Serialize,
};

verus! {

/// The escaped body of a prefix is no longer than the body of the whole.
proof fn lemma_escape_body_prefix_len(s: Seq<u8>, i: int)
    requires
        0 <= i <= s.len(),
    ensures
        escape_body(s.take(i)).len() <= escape_body(s).len(),
    decreases s.len() - i,
{
    if i < s.len() {
        lemma_escape_body_prefix_len(s, i + 1);
        assert(s.take(i + 1).drop_last() =~= s.take(i));
    } else {
        assert(s.take(i) =~= s);
    }
}

fn hex_digit_at(n: u8) -> (d: u8)
    requires
        n < 16,
    ensures
        d == hex_digit(n),
{
    if n < 10 {
        0x30 + n
    } else {
        0x61 + n - 10
    }
}

/// Writes how byte `b` appears inside a JSON string literal.
fn put_escape_byte(out: &mut [u8], at: usize, b: u8) -> (end: usize)
    requires
        at + escape_byte(b).len() <= old(out)@.len(),
    ensures
        end == at + escape_byte(b).len(),
        final(out)@ == splice(old(out)@, at as int, escape_byte(b)),
{
    let esc = escape_code_of(b);
    if esc == 0 {
        let e: [u8; 1] = [b];
        proof {
            assert(e@ =~= escape_byte(b));
        }
        put_bytes(out, at, e.as_slice())
    } else if esc == 0x75 {
        let hi = (b >> 4u8) & 0xFu8;
        let lo = b & 0xFu8;
        assert((b >> 4u8) & 0xFu8 < 16) by (bit_vector);
        assert(b & 0xFu8 < 16) by (bit_vector);
        assert((b >> 4u8) & 0xFu8 == b >> 4u8) by (bit_vector);
        let e: [u8; 6] = [0x5C, 0x75, 0x30, 0x30, hex_digit_at(hi), hex_digit_at(lo)];
        proof {
            assert(e@ =~= escape_byte(b));
        }
        put_bytes(out, at, e.as_slice())
    } else {
        let e: [u8; 2] = [0x5C, esc];
        proof {
            assert(e@ =~= escape_byte(b));
        }
        put_bytes(out, at, e.as_slice())
    }
}

/// Writes `bytes` as a JSON string literal into `out` from offset `at` on,
/// which must leave room for it; returns the offset after it. The literal
/// is a quote, the bytes with `"`, `\` and the control characters escaped,
/// and a quote.
pub fn write_str_escape_raw(out: &mut [u8], at: usize, bytes: &[u8]) -> (end: usize)
    requires
        at + json_string(bytes@).len() <= old(out)@.len(),
    ensures
        end == at + json_string(bytes@).len(),
        final(out)@ == splice(old(out)@, at as int, json_string(bytes@)),
{
    let ghost o = out@;
    let q: [u8; 1] = [0x22];
    proof {
        assert(q@ =~= seq![0x22u8]);
        lemma_escape_body_prefix_len(bytes@, 0);
    }
    let mut cur = put_bytes(out, at, q.as_slice());
    let mut i: usize = 0;
    proof {
        assert(bytes@.take(0) =~= Seq::<u8>::empty());
        assert(seq![0x22u8] + escape_body(bytes@.take(0)) =~= seq![0x22u8]);
    }
    while i < bytes.len()
        invariant
            i <= bytes@.len(),
            at + json_string(bytes@).len() <= o.len(),
            cur == at + 1 + escape_body(bytes@.take(i as int)).len(),
            out@ == splice(o, at as int, seq![0x22u8] + escape_body(bytes@.take(i as int))),
        decreases bytes@.len() - i,
    {
        let b = bytes[i];
        let ghost done = seq![0x22u8] + escape_body(bytes@.take(i as int));
        proof {
            assert(bytes@.take(i + 1).drop_last() =~= bytes@.take(i as int));
            assert(bytes@.take(i + 1).last() == b);
            lemma_escape_body_prefix_len(bytes@, i + 1);
            lemma_splice_splice(o, at as int, done, escape_byte(b));
        }
        cur = put_escape_byte(out, cur, b);
        proof {
            assert(done + escape_byte(b) =~= seq![0x22u8] + escape_body(bytes@.take(i + 1)));
        }
        i = i + 1;
    }
    proof {
        assert(bytes@.take(bytes@.len() as int) =~= bytes@);
        lemma_splice_splice(o, at as int, seq![0x22u8] + escape_body(bytes@), seq![0x22u8]);
        assert(seq![0x22u8] + escape_body(bytes@) + seq![0x22u8] =~= json_string(bytes@));
    }
    put_bytes(out, cur, q.as_slice())
}

/// Types that can write their JSON text in place into a buffer that the
/// caller has sized. The bytes written are those that
/// [`Serialize::serialize`] appends.
pub trait SerializeRaw: Serialize {
    /// Writes the JSON text of this value into `out` from offset `at` on,
    /// which must leave room for it; returns the offset after it.
    fn serialize_raw(&self, out: &mut [u8], at: usize) -> (end: usize)
        requires
            at + self.json_bytes().len() <= old(out)@.len(),
        ensures
            end == at + self.json_bytes().len(),
            final(out)@ == splice(old(out)@, at as int, self.json_bytes()),
    ;
}

impl SerializeRaw for String {
    fn serialize_raw(&self, out: &mut [u8], at: usize) -> (end: usize) {
        write_str_escape_raw(out, at, self.as_str().as_bytes())
    }
}

impl SerializeRaw for str {
    fn serialize_raw(&self, out: &mut [u8], at: usize) -> (end: usize) {
        write_str_escape_raw(out, at, self.as_bytes())
    }
}

impl SerializeRaw for bool {
    fn serialize_raw(&self, out: &mut [u8], at: usize) -> (end: usize) {
        if *self {
            let t: [u8; 4] = [0x74, 0x72, 0x75, 0x65];
            proof {
                assert(t@ =~= bool_text(true));
            }
            put_bytes(out, at, t.as_slice())
        } else {
            let f: [u8; 5] = [0x66, 0x61, 0x6C, 0x73, 0x65];
            proof {
                assert(f@ =~= bool_text(false));
            }
            put_bytes(out, at, f.as_slice())
        }
    }
}

/// Writes the decimal text of `v`.
fn put_int(out: &mut [u8], at: usize, v: i128) -> (end: usize)
    requires
        at + int_text(v as int).len() <= old(out)@.len(),
    ensures
        end == at + int_text(v as int).len(),
        final(out)@ == splice(old(out)@, at as int, int_text(v as int)),
{
    let text = int_to_text(v);
    put_bytes(out, at, text.as_slice())
}

impl SerializeRaw for i8 {
    fn serialize_raw(&self, out: &mut [u8], at: usize) -> (end: usize) {
        put_int(out, at, *self as i128)
    }
}

impl SerializeRaw for i16 {
    fn serialize_raw(&self, out: &mut [u8], at: usize) -> (end: usize) {
        put_int(out, at, *self as i128)
    }
}

impl SerializeRaw for i32 {
    fn serialize_raw(&self, out: &mut [u8], at: usize) -> (end: usize) {
        put_int(out, at, *self as i128)
    }
}

impl SerializeRaw for i64 {
    fn serialize_raw(&self, out: &mut [u8], at: usize) -> (end: usize) {
        put_int(out, at, *self as i128)
    }
}

impl SerializeRaw for isize {
    fn serialize_raw(&self, out: &mut [u8], at: usize) -> (end: usize) {
        put_int(out, at, *self as i128)
    }
}

impl SerializeRaw for u8 {
    fn serialize_raw(&self, out: &mut [u8], at: usize) -> (end: usize) {
        put_int(out, at, *self as i128)
    }
}

impl SerializeRaw for u16 {
    fn serialize_raw(&self, out: &mut [u8], at: usize) -> (end: usize) {
        put_int(out, at, *self as i128)
    }
}

impl SerializeRaw for u32 {
    fn serialize_raw(&self, out: &mut [u8], at: usize) -> (end: usize) {
        put_int(out, at, *self as i128)
    }
}

impl SerializeRaw for u64 {
    fn serialize_raw(&self, out: &mut [u8], at: usize) -> (end: usize) {
        put_int(out, at, *self as i128)
    }
}

impl SerializeRaw for usize {
    fn serialize_raw(&self, out: &mut [u8], at: usize) -> (end: usize) {
        put_int(out, at, *self as i128)
    }
}

/// The items' text of a prefix is no longer than that of the whole.
proof fn lemma_json_items_prefix_len<T: Serialize>(s: Seq<T>, i: int)
    requires
        0 <= i <= s.len(),
    ensures
        json_items(s.take(i)).len() <= json_items(s).len(),
    decreases s.len() - i,
{
    if i < s.len() {
        lemma_json_items_prefix_len(s, i + 1);
        assert(s.take(i + 1).drop_last() =~= s.take(i));
        if i == 0 {
            assert(s.take(0) =~= Seq::<T>::empty());
        }
    } else {
        assert(s.take(i) =~= s);
    }
}

/// Writes the elements of `items` as a JSON array.
fn put_slice<T: SerializeRaw>(items: &[T], out: &mut [u8], at: usize) -> (end: usize)
    requires
        at + json_array(items@).len() <= old(out)@.len(),
    ensures
        end == at + json_array(items@).len(),
        final(out)@ == splice(old(out)@, at as int, json_array(items@)),
{
    let ghost o = out@;
    let open: [u8; 1] = [0x5B];
    let sep: [u8; 1] = [0x2C];
    let close: [u8; 1] = [0x5D];
    proof {
        assert(open@ =~= seq![0x5Bu8]);
        assert(sep@ =~= seq![0x2Cu8]);
        assert(close@ =~= seq![0x5Du8]);
    }
    let mut cur = put_bytes(out, at, open.as_slice());
    let mut i: usize = 0;
    proof {
        assert(items@.take(0) =~= Seq::<T>::empty());
        assert(seq![0x5Bu8] + json_items(items@.take(0)) =~= seq![0x5Bu8]);
    }
    while i < items.len()
        invariant
            i <= items@.len(),
            at + json_array(items@).len() <= o.len(),
            cur == at + 1 + json_items(items@.take(i as int)).len(),
            out@ == splice(o, at as int, seq![0x5Bu8] + json_items(items@.take(i as int))),
            sep@ == seq![0x2Cu8],
        decreases items@.len() - i,
    {
        let ghost done = seq![0x5Bu8] + json_items(items@.take(i as int));
        let ghost t = items@.take(i + 1);
        proof {
            assert(t.drop_last() =~= items@.take(i as int));
            assert(t.last() == items@[i as int]);
            lemma_json_items_prefix_len(items@, i + 1);
        }
        if i > 0 {
            proof {
                lemma_splice_splice(o, at as int, done, seq![0x2Cu8]);
            }
            cur = put_bytes(out, cur, sep.as_slice());
            proof {
                lemma_splice_splice(o, at as int, done + seq![0x2Cu8], items@[i as int].json_bytes());
            }
            cur = items[i].serialize_raw(out, cur);
            proof {
                assert(done + seq![0x2Cu8] + items@[i as int].json_bytes() =~= seq![0x5Bu8]
                    + json_items(t));
            }
        } else {
            proof {
                lemma_splice_splice(o, at as int, done, items@[i as int].json_bytes());
            }
            cur = items[i].serialize_raw(out, cur);
            proof {
                assert(items@.take(0) =~= Seq::<T>::empty());
                assert(done + items@[i as int].json_bytes() =~= seq![0x5Bu8] + json_items(t));
            }
        }
        i = i + 1;
    }
    proof {
        assert(items@.take(items@.len() as int) =~= items@);
        lemma_splice_splice(o, at as int, seq![0x5Bu8] + json_items(items@), seq![0x5Du8]);
        assert(seq![0x5Bu8] + json_items(items@) + seq![0x5Du8] =~= json_array(items@));
    }
    put_bytes(out, cur, close.as_slice())
}

impl<T: SerializeRaw> SerializeRaw for Vec<T> {
    fn serialize_raw(&self, out: &mut [u8], at: usize) -> (end: usize) {
        put_slice(self.as_slice(), out, at)
    }
}

impl<T: SerializeRaw> SerializeRaw for [T] {
    fn serialize_raw(&self, out: &mut [u8], at: usize) -> (end: usize) {
        put_slice(self, out, at)
    }
}

impl<T: SerializeRaw + ?Sized> SerializeRaw for &T {
    fn serialize_raw(&self, out: &mut [u8], at: usize) -> (end: usize) {
        (**self).serialize_raw(out, at)
    }
}

impl<T: SerializeRaw> SerializeRaw for Option<T> {
    fn serialize_raw(&self, out: &mut [u8], at: usize) -> (end: usize) {
        match self {
            Some(v) => v.serialize_raw(out, at),
            None => {
                let n: [u8; 4] = [0x6E, 0x75, 0x6C, 0x6C];
                proof {
                    assert(n@ =~= null_text());
                }
                put_bytes(out, at, n.as_slice())
            },
        }
    }
}

impl<T: SerializeRaw + ?Sized> SerializeRaw for Box<T> {
    fn serialize_raw(&self, out: &mut [u8], at: usize) -> (end: usize) {
        (**self).serialize_raw(out, at)
    }
}

impl<'a> SerializeRaw for std::borrow::Cow<'a, str> {
    fn serialize_raw(&self, out: &mut [u8], at: usize) -> (end: usize) {
        match self {
            std::borrow::Cow::Borrowed(s) => write_str_escape_raw(out, at, s.as_bytes()),
            std::borrow::Cow::Owned(o) => write_str_escape_raw(out, at, o.as_str().as_bytes()),
        }
    }
}

/// Writes the JSON text of `val` into `out` from offset `at` on, which must
/// leave room for it; returns the offset after it.
pub fn write_value_raw<T: SerializeRaw + ?Sized>(val: &T, out: &mut [u8], at: usize) -> (end: usize)
    requires
        at + val.json_bytes().len() <= old(out)@.len(),
    ensures
        end == at + val.json_bytes().len(),
        final(out)@ == splice(old(out)@, at as int, val.json_bytes()),
{
    val.serialize_raw(out, at)
}

} // verus!
