//! UTF-8 checks at the boundary between bytes and text.

use vstd::prelude::*;
use vstd::string::*;
use vstd::utf8::*;

verus! {

#[verifier::external_type_specification]
#[verifier::external_body]
pub struct ExUtf8Error(std::str::Utf8Error);

/// Every byte is below 0x80.
pub open spec fn is_ascii_bytes(b: Seq<u8>) -> bool {
    forall|i: int| 0 <= i < b.len() ==> #[trigger] b[i] < 0x80
}

/// The characters whose code points are the bytes of `b`.
pub open spec fn ascii_chars(b: Seq<u8>) -> Seq<char> {
    Seq::new(b.len(), |i: int| b[i] as char)
}

/// ASCII bytes are valid UTF-8 and decode to the characters of the same codes.
pub proof fn lemma_ascii_utf8(b: Seq<u8>)
    requires
        is_ascii_bytes(b),
    ensures
        valid_utf8(b),
        decode_utf8(b) == ascii_chars(b),
    decreases b.len(),
{
    if b.len() > 0 {
        let b0 = b[0];
        assert(b0 & 0x7Fu8 == b0) by (bit_vector)
            requires
                b0 < 0x80u8,
        ;
        let rest = b.subrange(1, b.len() as int);
        assert(pop_first_scalar(b) == rest);
        assert(is_ascii_bytes(rest)) by {
            assert forall|i: int| 0 <= i < rest.len() implies #[trigger] rest[i] < 0x80 by {
                assert(rest[i] == b[i + 1]);
            }
        }
        lemma_ascii_utf8(rest);
        assert(decode_utf8(b) =~= ascii_chars(b));
    }
}

/// Calls `std::str::from_utf8`. Its documentation states that it returns the
/// bytes as a `&str` exactly when they are valid UTF-8, and an error
/// otherwise; the contract states that, with the `&str` holding the same
/// bytes. What the error value holds is not stated.
#[verifier::external_body]
pub(crate) fn str_from_utf8(b: &[u8]) -> (r: Result<&str, std::str::Utf8Error>)
    ensures
        r is Ok <==> valid_utf8(b@),
        r matches Ok(s) ==> s.spec_bytes() == b@,
{
    std::str::from_utf8(b)
}

/// The `Display` text of the error that `std::str::from_utf8` returns on
/// `b`; a function of the bytes alone.
pub uninterp spec fn utf8_error_display(b: Seq<u8>) -> Seq<char>;

/// Renders the error of `std::str::from_utf8(b)` with its `Display` impl
/// (`to_string`), for bytes that are not valid UTF-8. The text, which says
/// where the invalid sequence starts, is named, not spelled out.
#[verifier::external_body]
pub(crate) fn utf8_error_text(b: &[u8]) -> (r: String)
    requires
        !valid_utf8(b@),
    ensures
        r@ == utf8_error_display(b@),
{
    match std::str::from_utf8(b) {
        Err(e) => e.to_string(),
        Ok(s) => s.to_owned(),
    }
}

/// The `Debug` text of a string (quoted, with `{:?}` escapes); a function
/// of the characters alone.
pub uninterp spec fn str_debug_text(s: Seq<char>) -> Seq<char>;

/// Renders `s` with `format!("{:?}", s)`: the string's `Debug` text. The
/// text is named, not spelled out.
#[verifier::external_body]
pub(crate) fn debug_str(s: &str) -> (r: String)
    ensures
        r@ == str_debug_text(s@),
{
    format!("{:?}", s)
}

/// The `Debug` text of the `Result` that `std::str::from_utf8` returns on
/// `b` (`Ok(..)` around the string's `Debug` text, or `Err(..)` around the
/// error's); a function of the bytes alone.
pub uninterp spec fn utf8_result_debug(b: Seq<u8>) -> Seq<char>;

/// Renders `format!("{:?}", std::str::from_utf8(b))`. The text is named, not
/// spelled out.
#[verifier::external_body]
pub(crate) fn debug_utf8_result(b: &[u8]) -> (r: String)
    ensures
        r@ == utf8_result_debug(b@),
{
    format!("{:?}", std::str::from_utf8(b))
}

/// The text whose UTF-8 encoding is `b`, which must be valid UTF-8.
pub fn bytes_as_str(b: &[u8]) -> (s: &str)
    requires
        valid_utf8(b@),
    ensures
        s@ == decode_utf8(b@),
        s.spec_bytes() == b@,
{
    match str_from_utf8(b) {
        Ok(s) => {
            proof {
                encode_utf8_decode_utf8(s@);
            }
            s
        },
        Err(_) => {
            proof {
                assert(false);
            }
            ""
        },
    }
}

} // verus!
