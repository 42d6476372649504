//! Lazily decoded JSON string bodies.

use std::borrow::Cow;
use vstd::prelude::*;
use vstd::string::StringSliceAdditionalSpecFns;
use vstd::utf8::valid_utf8;
use vstd::utf8::decode_utf8;
use crate::bytes::append_range;
use crate::utf8::bytes_as_str;

verus! {

/// The UTF-8 encoding of the character whose code point is the byte `b`.
pub open spec fn byte_char_utf8(b: u8) -> Seq<u8> {
    if b < 0x80 {
        seq![b]
    } else {
        seq![(0xC0u8 | (b >> 6u8)) as u8, (0x80u8 | (b & 0x3Fu8)) as u8]
    }
}

/// The byte that the escape `\c` stands for, for the single-byte escapes
/// `\" \\ \/ \b \f \n \r \t`.
pub open spec fn simple_escape(c: u8) -> Option<u8> {
    if c == 0x22 {
        Some(0x22u8)
    } else if c == 0x5C {
        Some(0x5Cu8)
    } else if c == 0x2F {
        Some(0x2Fu8)
    } else if c == 0x62 {
        Some(0x08u8)
    } else if c == 0x66 {
        Some(0x0Cu8)
    } else if c == 0x6E {
        Some(0x0Au8)
    } else if c == 0x72 {
        Some(0x0Du8)
    } else if c == 0x74 {
        Some(0x09u8)
    } else {
        None
    }
}

/// Decodes the escape sequences of a raw JSON string body. The single-byte
/// escapes give their byte; a `\uXXXX` escape is dropped whole (six bytes,
/// or all that is left if fewer); an unknown escape `\c` is kept as a
/// backslash followed by the character whose code point is `c`; a trailing
/// lone backslash is dropped.
pub open spec fn decode_escapes(s: Seq<u8>) -> Seq<u8>
    decreases s.len(),
{
    if s.len() == 0 {
        Seq::empty()
    } else if s[0] != 0x5C {
        seq![s[0]] + decode_escapes(s.skip(1))
    } else if s.len() == 1 {
        Seq::empty()
    } else if s[1] == 0x75 {
        if s.len() >= 6 {
            decode_escapes(s.skip(6))
        } else {
            Seq::empty()
        }
    } else {
        match simple_escape(s[1]) {
            Some(e) => seq![e] + decode_escapes(s.skip(2)),
            None => seq![0x5Cu8] + byte_char_utf8(s[1]) + decode_escapes(s.skip(2)),
        }
    }
}

/// A lazy string wrapper that stores a slice and an `escaped` flag. Decoding
/// only happens on access.
#[derive(Debug, Clone, Copy, PartialEq, Eq)]
pub struct KString<'a> {
    raw: &'a [u8],
    has_escapes: bool,
}

impl<'a> KString<'a> {
    /// The raw bytes.
    pub closed spec fn raw_spec(&self) -> Seq<u8> {
        self.raw@
    }

    /// The escape flag.
    pub closed spec fn escapes_spec(&self) -> bool {
        self.has_escapes
    }

    /// The bytes that [`KString::decode`] produces: the raw bytes as they are
    /// when the escape flag is off, else with their escapes decoded.
    pub open spec fn decoded_bytes(&self) -> Seq<u8> {
        if self.escapes_spec() {
            decode_escapes(self.raw_spec())
        } else {
            self.raw_spec()
        }
    }

    /// A string over `raw` whose escapes are decoded iff `has_escapes`.
    pub fn new(raw: &'a [u8], has_escapes: bool) -> (s: Self)
        ensures
            s.raw_spec() == raw@,
            s.escapes_spec() == has_escapes,
    {
        Self { raw, has_escapes }
    }

    /// The raw bytes of the string body.
    pub fn as_raw(&self) -> (r: &'a [u8])
        ensures
            r@ == self.raw_spec(),
    {
        self.raw
    }

    /// Whether the string body is to be decoded for escapes.
    pub fn has_escapes(&self) -> (r: bool)
        ensures
            r == self.escapes_spec(),
    {
        self.has_escapes
    }

    /// The bytes that [`KString::decode`] produces, as a vector.
    pub fn decoded_vec(&self) -> (r: Vec<u8>)
        ensures
            r@ == self.decoded_bytes(),
    {
        if !self.has_escapes {
            vstd::slice::slice_to_vec(self.raw)
        } else {
            decode_escapes_exec(self.raw)
        }
    }

    /// Returns the decoded string. Without escapes it borrows the raw bytes,
    /// with no copy; with escapes it builds an owned string, copying the
    /// clean runs between backslashes in bulk.
    ///
    /// The decoded bytes must be UTF-8, since a string holds nothing else.
    /// Raw UTF-8 can decode to bytes that are not: the six bytes that a `\u`
    /// escape is skipped by, or the one byte kept after an unknown escape,
    /// can cut a multi-byte character. Such input is refused here, not given
    /// a meaning; [`KString::decoded_vec`] gives the bytes of any input.
    pub fn decode(&self) -> (r: Cow<'a, str>)
        requires
            valid_utf8(self.decoded_bytes()),
        ensures
            r@ == decode_utf8(self.decoded_bytes()),
            (r is Borrowed) <==> !self.escapes_spec(),
            r matches Cow::Borrowed(s) ==> s.spec_bytes() == self.raw_spec(),
    {
        if !self.has_escapes {
            let s = bytes_as_str(self.raw);
            Cow::Borrowed(s)
        } else {
            let bytes = decode_escapes_exec(self.raw);
            let s = bytes_as_str(bytes.as_slice()).to_owned();
            Cow::Owned(s)
        }
    }
}

/// Appends the UTF-8 encoding of the character whose code point is `b`.
fn push_byte_char(out: &mut Vec<u8>, b: u8)
    ensures
        final(out)@ == old(out)@ + byte_char_utf8(b),
{
    if b < 0x80 {
        out.push(b);
        proof {
            assert(old(out)@ + byte_char_utf8(b) =~= old(out)@.push(b));
        }
    } else {
        let b1 = 0xC0u8 | (b >> 6u8);
        let b2 = 0x80u8 | (b & 0x3Fu8);
        out.push(b1);
        out.push(b2);
        proof {
            assert(old(out)@ + byte_char_utf8(b) =~= old(out)@.push(b1).push(b2));
        }
    }
}

/// A run without backslashes decodes to itself.
proof fn lemma_decode_clean_run(s: Seq<u8>, i: int, j: int)
    requires
        0 <= i <= j <= s.len(),
        forall|k: int| i <= k < j ==> #[trigger] s[k] != 0x5C,
    ensures
        decode_escapes(s.skip(i)) == s.subrange(i, j) + decode_escapes(s.skip(j)),
    decreases j - i,
{
    if i < j {
        lemma_decode_clean_run(s, i + 1, j);
        assert(s.skip(i).skip(1) =~= s.skip(i + 1));
        assert(s.skip(i)[0] == s[i]);
        assert(s.subrange(i, j) =~= seq![s[i]] + s.subrange(i + 1, j));
    } else {
        assert(s.subrange(i, j) =~= Seq::<u8>::empty());
    }
}

/// Decodes the escapes of `raw`, copying the runs between backslashes in bulk.
fn decode_escapes_exec(raw: &[u8]) -> (out: Vec<u8>)
    ensures
        out@ == decode_escapes(raw@),
{
    let len = raw.len();
    let mut out: Vec<u8> = Vec::with_capacity(len);
    let mut i: usize = 0;
    proof {
        assert(raw@.skip(0) =~= raw@);
    }
    while i < len
        invariant
            i <= len,
            len == raw@.len(),
            out@ + decode_escapes(raw@.skip(i as int)) == decode_escapes(raw@),
        decreases len - i,
    {
        let mut pos = i;
        while pos < len && raw[pos] != 0x5C
            invariant
                i <= pos <= len,
                len == raw@.len(),
                forall|k: int| i <= k < pos ==> #[trigger] raw@[k] != 0x5C,
            decreases len - pos,
        {
            pos = pos + 1;
        }
        proof {
            lemma_decode_clean_run(raw@, i as int, pos as int);
        }
        let ghost before = out@;
        append_range(&mut out, raw, i, pos);
        proof {
            assert(out@ + decode_escapes(raw@.skip(pos as int)) =~= before + (raw@.subrange(
                i as int,
                pos as int,
            ) + decode_escapes(raw@.skip(pos as int))));
        }
        if pos == len {
            i = len;
        } else {
            let ghost s = raw@.skip(pos as int);
            assert(s[0] == 0x5C);
            if pos + 1 < len {
                let c = raw[pos + 1];
                assert(s[1] == c);
                let ghost before = out@;
                if c == 0x75 {
                    if len - pos >= 6 {
                        i = pos + 6;
                        proof {
                            assert(s.skip(6) =~= raw@.skip(i as int));
                        }
                    } else {
                        i = len;
                        proof {
                            assert(raw@.skip(len as int) =~= Seq::<u8>::empty());
                        }
                    }
                } else {
                    match c {
                        0x22 => out.push(0x22),
                        0x5C => out.push(0x5C),
                        0x2F => out.push(0x2F),
                        0x62 => out.push(0x08),
                        0x66 => out.push(0x0C),
                        0x6E => out.push(0x0A),
                        0x72 => out.push(0x0D),
                        0x74 => out.push(0x09),
                        _ => {
                            out.push(0x5C);
                            push_byte_char(&mut out, c);
                        },
                    }
                    i = pos + 2;
                    proof {
                        assert(s.skip(2) =~= raw@.skip(i as int));
                        match simple_escape(c) {
                            Some(e) => {
                                assert(out@ =~= before + seq![e]);
                            },
                            None => {
                                assert(out@ =~= before + (seq![0x5Cu8] + byte_char_utf8(c)));
                            },
                        }
                    }
                }
            } else {
                i = len;
                proof {
                    assert(s.len() == 1);
                    assert(raw@.skip(len as int) =~= Seq::<u8>::empty());
                }
            }
        }
    }
    proof {
        assert(raw@.skip(len as int) =~= Seq::<u8>::empty());
    }
    out
}

} // verus!
