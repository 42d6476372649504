//! Schema helpers for binding record types to JSON: field-name hashing, the
//! key prefixes written before each field, and the pieces of text that a
//! record, a unit struct or a unit variant is written as.

use vstd::prelude::*;
use vstd::string::*;
use vstd::utf8::encode_utf8;
use crate::bytes::{append_all, bytes_eq};
use crate::serialize::Serialize;

verus! {

/// The multiplier of the field-name hash (the FxHash constant).
pub const FIELD_HASH_MULTIPLIER: u64 = 0x517c_c1b7_2722_0a95;

/// One step of the field-name hash: mix in byte `b`, then multiply,
/// wrapping at 2^64.
pub open spec fn hash_step(h: u64, b: u8) -> u64 {
    (((h ^ (b as u64)) as nat * FIELD_HASH_MULTIPLIER as nat) % 0x1_0000_0000_0000_0000nat) as u64
}

/// The field-name hash of the bytes `s`, from 0, one byte at a time.
pub open spec fn name_hash(s: Seq<u8>) -> u64
    decreases s.len(),
{
    if s.len() == 0 {
        0
    } else {
        hash_step(name_hash(s.drop_last()), s.last())
    }
}

/// The FxHash-style hash of a field name's bytes.
pub fn field_name_hash(s: &str) -> (h: u64)
    ensures
        h == name_hash(s.spec_bytes()),
{
    let bytes = s.as_bytes();
    let mut hash: u64 = 0;
    let mut i: usize = 0;
    proof {
        assert(bytes@.take(0) =~= Seq::<u8>::empty());
    }
    while i < bytes.len()
        invariant
            i <= bytes@.len(),
            hash == name_hash(bytes@.take(i as int)),
        decreases bytes@.len() - i,
    {
        proof {
            assert(bytes@.take(i + 1).drop_last() =~= bytes@.take(i as int));
        }
        hash = (hash ^ (bytes[i] as u64)).wrapping_mul(FIELD_HASH_MULTIPLIER);
        i = i + 1;
    }
    proof {
        assert(bytes@.take(bytes@.len() as int) =~= bytes@);
    }
    hash
}

/// The same hash, under the name the field dispatcher uses.
pub fn compute_hash(s: &str) -> (h: u64)
    ensures
        h == name_hash(s.spec_bytes()),
{
    field_name_hash(s)
}

/// The bytes written before a field's value: `{"key":` for the first field,
/// `,"key":` for the others. The key is written as it is.
pub open spec fn prefix_bytes(key: Seq<u8>, first: bool) -> Seq<u8> {
    seq![if first { 0x7Bu8 } else { 0x2Cu8 }, 0x22u8] + key + seq![0x22u8, 0x3Au8]
}

/// The bytes written before a field's value (see [`prefix_bytes`]).
pub fn field_prefix(key: &str, first: bool) -> (r: Vec<u8>)
    ensures
        r@ == prefix_bytes(key.spec_bytes(), first),
{
    let mut out: Vec<u8> = Vec::new();
    out.push(if first { 0x7B } else { 0x2C });
    out.push(0x22);
    append_all(&mut out, key.as_bytes());
    out.push(0x22);
    out.push(0x3A);
    proof {
        assert(out@ =~= prefix_bytes(key.spec_bytes(), first));
    }
    out
}

/// How one field of a record is bound to JSON: its name, the key it is
/// written under instead (if renamed), and whether it is left out.
pub struct FieldSpec {
    pub name: String,
    pub rename: Option<String>,
    pub skip: bool,
}

/// The key a field is written under: its new name if renamed, else its name.
pub open spec fn key_of(f: FieldSpec) -> Seq<char> {
    match f.rename {
        Some(r) => r@,
        None => f.name@,
    }
}

/// The key prefixes of the fields that are written, in order: the first
/// opens the object.
pub open spec fn visible_prefixes(fs: Seq<FieldSpec>) -> Seq<Seq<u8>>
    decreases fs.len(),
{
    if fs.len() == 0 {
        Seq::empty()
    } else {
        let pre = visible_prefixes(fs.drop_last());
        let f = fs.last();
        if f.skip {
            pre
        } else {
            pre.push(prefix_bytes(encode_utf8(key_of(f)), pre.len() == 0))
        }
    }
}

/// The total length of `ps`.
pub open spec fn total_len(ps: Seq<Seq<u8>>) -> int
    decreases ps.len(),
{
    if ps.len() == 0 {
        0
    } else {
        total_len(ps.drop_last()) + ps.last().len()
    }
}

/// The key of a field.
pub fn field_key(f: &FieldSpec) -> (k: &str)
    ensures
        k@ == key_of(*f),
{
    match &f.rename {
        Some(r) => r.as_str(),
        None => f.name.as_str(),
    }
}

/// The key prefixes of the fields that are written, in order (see
/// [`visible_prefixes`]).
pub fn field_prefixes(fields: &[FieldSpec]) -> (r: Vec<Vec<u8>>)
    ensures
        r@.len() == visible_prefixes(fields@).len(),
        forall|i: int| 0 <= i < r@.len() ==> #[trigger] r@[i]@ == visible_prefixes(fields@)[i],
{
    let mut out: Vec<Vec<u8>> = Vec::new();
    let mut i: usize = 0;
    proof {
        assert(fields@.take(0) =~= Seq::<FieldSpec>::empty());
    }
    while i < fields.len()
        invariant
            i <= fields@.len(),
            out@.len() == visible_prefixes(fields@.take(i as int)).len(),
            forall|j: int| 0 <= j < out@.len() ==> #[trigger] out@[j]@ == visible_prefixes(fields@.take(i as int))[j],
        decreases fields@.len() - i,
    {
        proof {
            assert(fields@.take(i + 1).drop_last() =~= fields@.take(i as int));
            assert(fields@.take(i + 1).last() == fields@[i as int]);
        }
        if !fields[i].skip {
            let first = out.len() == 0;
            let p = field_prefix(field_key(&fields[i]), first);
            let ghost before = out@;
            out.push(p);
            proof {
                assert forall|j: int| 0 <= j < out@.len() implies #[trigger] out@[j]@ == visible_prefixes(
                    fields@.take(i + 1),
                )[j] by {
                    if j < before.len() {
                        assert(out@[j] == before[j]);
                    }
                }
            }
        }
        i = i + 1;
    }
    proof {
        assert(fields@.take(fields@.len() as int) =~= fields@);
    }
    out
}

/// The bytes a record's text needs besides its values: its braces and the
/// key prefixes of the fields that are written.
pub fn static_capacity(fields: &[FieldSpec]) -> (n: usize)
    requires
        2 + total_len(visible_prefixes(fields@)) <= usize::MAX,
    ensures
        n == 2 + total_len(visible_prefixes(fields@)),
{
    let prefixes = field_prefixes(fields);
    let ghost ps = visible_prefixes(fields@);
    proof {
        assert(prefixes@.len() == ps.len());
    }
    let mut total: usize = 2;
    let mut i: usize = 0;
    proof {
        assert(ps.take(0) =~= Seq::<Seq<u8>>::empty());
    }
    while i < prefixes.len()
        invariant
            i <= prefixes@.len(),
            prefixes@.len() == ps.len(),
            forall|j: int| 0 <= j < prefixes@.len() ==> #[trigger] prefixes@[j]@ == ps[j],
            total == 2 + total_len(ps.take(i as int)),
            2 + total_len(ps) <= usize::MAX,
        decreases prefixes@.len() - i,
    {
        proof {
            assert(ps.take(i + 1).drop_last() =~= ps.take(i as int));
            lemma_total_len_prefix(ps, i + 1);
        }
        total = total + prefixes[i].len();
        i = i + 1;
    }
    proof {
        assert(ps.take(ps.len() as int) =~= ps);
    }
    total
}

/// The total length of a prefix of `ps` is at most that of `ps`.
proof fn lemma_total_len_prefix(ps: Seq<Seq<u8>>, j: int)
    requires
        0 <= j <= ps.len(),
    ensures
        total_len(ps.take(j)) <= total_len(ps),
    decreases ps.len() - j,
{
    if j < ps.len() {
        lemma_total_len_prefix(ps, j + 1);
        assert(ps.take(j + 1).drop_last() =~= ps.take(j));
    } else {
        assert(ps.take(j) =~= ps);
    }
}

/// The text of a unit struct: `null`.
pub open spec fn unit_text() -> Seq<u8> {
    seq![0x6Eu8, 0x75u8, 0x6Cu8, 0x6Cu8]
}

/// Appends the text of a unit struct, `null`.
pub fn write_unit(buf: &mut Vec<u8>)
    ensures
        final(buf)@ == old(buf)@ + unit_text(),
{
    buf.push(0x6E);
    buf.push(0x75);
    buf.push(0x6C);
    buf.push(0x6C);
    proof {
        assert(buf@ =~= old(buf)@ + unit_text());
    }
}

/// The text of a unit variant: its name in quotes, written as it is.
pub open spec fn unit_variant_text(name: Seq<u8>) -> Seq<u8> {
    seq![0x22u8] + name + seq![0x22u8]
}

/// Appends the text of the unit variant `name` (see [`unit_variant_text`]).
pub fn write_unit_variant(buf: &mut Vec<u8>, name: &str)
    ensures
        final(buf)@ == old(buf)@ + unit_variant_text(name.spec_bytes()),
{
    buf.push(0x22);
    append_all(buf, name.as_bytes());
    buf.push(0x22);
    proof {
        assert(buf@ =~= old(buf)@ + unit_variant_text(name.spec_bytes()));
    }
}

/// Appends one field of a record: its key prefix (see [`prefix_bytes`]),
/// then the text of its value.
pub fn write_field<T: Serialize + ?Sized>(buf: &mut Vec<u8>, key: &str, first: bool, value: &T)
    ensures
        final(buf)@ == old(buf)@ + prefix_bytes(key.spec_bytes(), first) + value.json_bytes(),
{
    let prefix = field_prefix(key, first);
    append_all(buf, prefix.as_slice());
    value.serialize(buf);
}

/// The end of a record's text: `}` after its fields, or `{}` for a record
/// with no field to write.
pub open spec fn record_end(no_fields: bool) -> Seq<u8> {
    if no_fields {
        seq![0x7Bu8, 0x7Du8]
    } else {
        seq![0x7Du8]
    }
}

/// Appends the end of a record's text (see [`record_end`]).
pub fn close_record(buf: &mut Vec<u8>, no_fields: bool)
    ensures
        final(buf)@ == old(buf)@ + record_end(no_fields),
{
    if no_fields {
        buf.push(0x7B);
    }
    buf.push(0x7D);
    proof {
        assert(buf@ =~= old(buf)@ + record_end(no_fields));
    }
}

/// Appends one field of a record unless `skip` holds (the record's own test
/// on the value, such as a `skip_serializing_if` predicate): its key prefix
/// and its value's text, or nothing.
pub fn write_field_unless<T: Serialize + ?Sized>(buf: &mut Vec<u8>, key: &str, first: bool, skip: bool, value: &T)
    ensures
        final(buf)@ == old(buf)@ + if skip {
            Seq::<u8>::empty()
        } else {
            prefix_bytes(key.spec_bytes(), first) + value.json_bytes()
        },
{
    if !skip {
        write_field(buf, key, first, value);
    } else {
        proof {
            assert(buf@ =~= old(buf)@ + Seq::<u8>::empty());
        }
    }
}

// ---------------------------------------------------------------------------
// Enum variants, externally tagged
// ---------------------------------------------------------------------------

/// What a variant with data opens with: `{"Name":`.
pub open spec fn variant_open(name: Seq<u8>) -> Seq<u8> {
    seq![0x7Bu8, 0x22u8] + name + seq![0x22u8, 0x3Au8]
}

/// Appends the start of a variant with data, `{"Name":` (see
/// [`variant_open`]); its data and [`end_variant`] follow.
pub fn begin_variant(buf: &mut Vec<u8>, name: &str)
    ensures
        final(buf)@ == old(buf)@ + variant_open(name.spec_bytes()),
{
    buf.push(0x7B);
    buf.push(0x22);
    append_all(buf, name.as_bytes());
    buf.push(0x22);
    buf.push(0x3A);
    proof {
        assert(buf@ =~= old(buf)@ + variant_open(name.spec_bytes()));
    }
}

/// Appends the end of a variant with data: `}`.
pub fn end_variant(buf: &mut Vec<u8>)
    ensures
        final(buf)@ == old(buf)@ + seq![0x7Du8],
{
    buf.push(0x7D);
}

/// Appends a newtype variant: `{"Name":`, the value's text, `}`.
pub fn write_newtype_variant<T: Serialize + ?Sized>(buf: &mut Vec<u8>, name: &str, value: &T)
    ensures
        final(buf)@ == old(buf)@ + variant_open(name.spec_bytes()) + value.json_bytes() + seq![0x7Du8],
{
    begin_variant(buf, name);
    value.serialize(buf);
    end_variant(buf);
}

/// Appends the start of a tuple variant: `{"Name":[`.
pub fn begin_tuple_variant(buf: &mut Vec<u8>, name: &str)
    ensures
        final(buf)@ == old(buf)@ + variant_open(name.spec_bytes()) + seq![0x5Bu8],
{
    begin_variant(buf, name);
    buf.push(0x5B);
}

/// What comes before an item of a tuple variant: a comma unless it is the
/// first.
pub open spec fn item_sep(first: bool) -> Seq<u8> {
    if first {
        Seq::empty()
    } else {
        seq![0x2Cu8]
    }
}

/// Appends what comes before an item of a tuple variant (see [`item_sep`]).
pub fn begin_tuple_item(buf: &mut Vec<u8>, first: bool)
    ensures
        final(buf)@ == old(buf)@ + item_sep(first),
{
    if !first {
        buf.push(0x2C);
    }
    proof {
        assert(buf@ =~= old(buf)@ + item_sep(first));
    }
}

/// Appends one item of a tuple variant: a comma unless it is the first,
/// then the item's text.
pub fn write_tuple_item<T: Serialize + ?Sized>(buf: &mut Vec<u8>, first: bool, value: &T)
    ensures
        final(buf)@ == old(buf)@ + item_sep(first) + value.json_bytes(),
{
    begin_tuple_item(buf, first);
    value.serialize(buf);
}

/// Appends the end of a tuple variant: `]}`.
pub fn end_tuple_variant(buf: &mut Vec<u8>)
    ensures
        final(buf)@ == old(buf)@ + seq![0x5Du8, 0x7Du8],
{
    buf.push(0x5D);
    buf.push(0x7D);
    proof {
        assert(buf@ =~= old(buf)@ + seq![0x5Du8, 0x7Du8]);
    }
}

/// Appends the start of a struct variant: `{"Name":`. Its fields follow as
/// a record's do (see [`write_field`]; the first opens the inner object).
pub fn begin_struct_variant(buf: &mut Vec<u8>, name: &str)
    ensures
        final(buf)@ == old(buf)@ + variant_open(name.spec_bytes()),
{
    begin_variant(buf, name);
}

/// Appends the end of a struct variant: the inner record's end (see
/// [`record_end`]), then `}`.
pub fn end_struct_variant(buf: &mut Vec<u8>, no_fields: bool)
    ensures
        final(buf)@ == old(buf)@ + record_end(no_fields) + seq![0x7Du8],
{
    close_record(buf, no_fields);
    end_variant(buf);
}

// ---------------------------------------------------------------------------
// Reading records
// ---------------------------------------------------------------------------

/// The first field from `i` on that is written and whose key is `key`.
pub open spec fn field_index_from(fields: Seq<FieldSpec>, key: Seq<char>, i: int) -> Option<int>
    decreases fields.len() - i,
{
    if i < 0 || i >= fields.len() {
        None
    } else if !fields[i].skip && key_of(fields[i]) == key {
        Some(i)
    } else {
        field_index_from(fields, key, i + 1)
    }
}

/// The field that a member with key `key` is read into: the first field
/// that is written and whose key (its new name if renamed) is `key`.
pub open spec fn field_index(fields: Seq<FieldSpec>, key: Seq<char>) -> Option<int> {
    field_index_from(fields, key, 0)
}

/// The field that a member with key `key` is read into (see
/// [`field_index`]); `None` for a key that no field is read from.
pub fn match_field(fields: &[FieldSpec], key: &str) -> (r: Option<usize>)
    ensures
        match r {
            Some(i) => field_index(fields@, key@) == Some(i as int),
            None => field_index(fields@, key@) is None,
        },
{
    let mut i: usize = 0;
    while i < fields.len()
        invariant
            i <= fields@.len(),
            field_index(fields@, key@) == field_index_from(fields@, key@, i as int),
        decreases fields@.len() - i,
    {
        let f = &fields[i];
        if !f.skip {
            let k = field_key(f);
            if bytes_eq(k.as_bytes(), key.as_bytes()) {
                proof {
                    vstd::utf8::encode_utf8_decode_utf8(k@);
                    vstd::utf8::encode_utf8_decode_utf8(key@);
                }
                return Some(i);
            }
            proof {
                if k@ == key@ {
                    assert(k.spec_bytes() == key.spec_bytes());
                }
            }
        }
        i = i + 1;
    }
    None
}

} // verus!
