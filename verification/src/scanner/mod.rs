//! Structural scanning: finds the byte offsets of the structural characters
//! (`{ } [ ] : ,` and the quotes that open and close strings) of a JSON
//! document, outside of string bodies, and writes them to a tape.

pub mod generic;

use vstd::prelude::*;

verus! {

/// Tag of a tape entry for a `"` that opens or closes a string.
pub const TOKEN_QUOTE: u32 = 0x1000_0000;
/// Tag of a tape entry for `{`.
pub const TOKEN_LBRACE: u32 = 0x2000_0000;
/// Tag of a tape entry for `}`.
pub const TOKEN_RBRACE: u32 = 0x3000_0000;
/// Tag of a tape entry for `[`.
pub const TOKEN_LBRACKET: u32 = 0x4000_0000;
/// Tag of a tape entry for `]`.
pub const TOKEN_RBRACKET: u32 = 0x5000_0000;
/// Tag of a tape entry for `:`.
pub const TOKEN_COLON: u32 = 0x6000_0000;
/// Tag of a tape entry for `,`.
pub const TOKEN_COMMA: u32 = 0x7000_0000;
/// Mask of the byte-offset part of a tagged tape entry.
pub const OFFSET_MASK: u32 = 0x0FFF_FFFF;

/// True for the structural bytes other than the quote.
pub open spec fn is_structural_byte(b: u8) -> bool {
    b == 0x7B || b == 0x7D || b == 0x5B || b == 0x5D || b == 0x3A || b == 0x2C
}

/// The tag that a tape entry for byte `b` carries (0 for a byte that is never
/// recorded).
pub open spec fn token_of(b: u8) -> u32 {
    if b == 0x22 {
        TOKEN_QUOTE
    } else if b == 0x7B {
        TOKEN_LBRACE
    } else if b == 0x7D {
        TOKEN_RBRACE
    } else if b == 0x5B {
        TOKEN_LBRACKET
    } else if b == 0x5D {
        TOKEN_RBRACKET
    } else if b == 0x3A {
        TOKEN_COLON
    } else if b == 0x2C {
        TOKEN_COMMA
    } else {
        0
    }
}

/// One step of the scanner's state machine. The state is
/// `(inside a string, the previous byte was an unconsumed backslash)`.
pub open spec fn scan_step(st: (bool, bool), b: u8) -> (bool, bool) {
    if st.0 {
        if st.1 {
            (true, false)
        } else if b == 0x5C {
            (true, true)
        } else if b == 0x22 {
            (false, false)
        } else {
            (true, false)
        }
    } else if b == 0x22 {
        (true, false)
    } else {
        (false, false)
    }
}

/// The scanner's state after reading the first `n` bytes of `input`.
pub open spec fn scan_state(input: Seq<u8>, n: int) -> (bool, bool)
    decreases n,
{
    if n <= 0 {
        (false, false)
    } else {
        scan_step(scan_state(input, n - 1), input[n - 1])
    }
}

/// Whether byte `b`, read in state `st`, is recorded on the tape: a quote
/// that opens or closes a string, or a structural byte outside strings.
pub open spec fn records(st: (bool, bool), b: u8) -> bool {
    if st.0 {
        !st.1 && b == 0x22
    } else {
        b == 0x22 || is_structural_byte(b)
    }
}

/// The offsets, in increasing order, of the bytes among the first `n` of
/// `input` that the scanner records.
pub open spec fn positions_upto(input: Seq<u8>, n: int) -> Seq<int>
    decreases n,
{
    if n <= 0 {
        Seq::empty()
    } else {
        let prev = positions_upto(input, n - 1);
        if records(scan_state(input, n - 1), input[n - 1]) {
            prev.push(n - 1)
        } else {
            prev
        }
    }
}

/// The offsets of all structural bytes of `input`, in increasing order.
pub open spec fn structural_positions(input: Seq<u8>) -> Seq<int> {
    positions_upto(input, input.len() as int)
}

/// Every recorded position lies inside the input and the positions increase.
pub proof fn lemma_positions_bounds(input: Seq<u8>, n: int)
    requires
        0 <= n <= input.len(),
    ensures
        positions_upto(input, n).len() <= n,
        forall|k: int|
            0 <= k < positions_upto(input, n).len() ==> 0 <= #[trigger] positions_upto(input, n)[k]
                < n,
        forall|k1: int, k2: int|
            0 <= k1 < k2 < positions_upto(input, n).len() ==> #[trigger] positions_upto(input, n)[k1]
                < #[trigger] positions_upto(input, n)[k2],
    decreases n,
{
    if n > 0 {
        lemma_positions_bounds(input, n - 1);
    }
}

/// Bytes that neither change the state nor get recorded leave both the
/// state and the recorded positions as they were.
pub proof fn lemma_quiet_run(input: Seq<u8>, i: int, k: int, st: (bool, bool))
    requires
        0 <= i <= k <= input.len(),
        scan_state(input, i) == st,
        forall|j: int| i <= j < k ==> scan_step(st, #[trigger] input[j]) == st && !records(st, input[j]),
    ensures
        scan_state(input, k) == st,
        positions_upto(input, k) == positions_upto(input, i),
    decreases k - i,
{
    if k > i {
        lemma_quiet_run(input, i, k - 1, st);
    }
}

/// The tag part of a tape entry.
pub open spec fn entry_tag(t: u32) -> u32 {
    t & 0xF000_0000u32
}

/// The byte-offset part of a tape entry.
pub open spec fn entry_offset(t: u32) -> u32 {
    t & 0x0FFF_FFFFu32
}

/// The tagged tape entry for byte `b` at offset `pos`.
pub open spec fn tagged_entry(b: u8, pos: int) -> u32 {
    token_of(b) | (pos as u32)
}

/// Splitting a tagged entry gives back its tag and its offset.
pub proof fn lemma_tagged_entry(b: u8, pos: u32)
    requires
        pos <= OFFSET_MASK,
    ensures
        entry_tag(token_of(b) | pos) == token_of(b),
        entry_offset(token_of(b) | pos) == pos,
{
    let tok = token_of(b);
    assert(tok == 0 || tok == 0x1000_0000u32 || tok == 0x2000_0000u32 || tok == 0x3000_0000u32
        || tok == 0x4000_0000u32 || tok == 0x5000_0000u32 || tok == 0x6000_0000u32 || tok
        == 0x7000_0000u32);
    assert((tok == 0 || tok == 0x1000_0000u32 || tok == 0x2000_0000u32 || tok == 0x3000_0000u32
        || tok == 0x4000_0000u32 || tok == 0x5000_0000u32 || tok == 0x6000_0000u32 || tok
        == 0x7000_0000u32) && pos <= 0x0FFF_FFFFu32 ==> (tok | pos) & 0xF000_0000u32 == tok && (tok
        | pos) & 0x0FFF_FFFFu32 == pos) by (bit_vector);
}

/// The tag for byte `b` (see [`token_of`]).
pub fn token_for(b: u8) -> (t: u32)
    ensures
        t == token_of(b),
{
    match b {
        0x22 => TOKEN_QUOTE,
        0x7B => TOKEN_LBRACE,
        0x7D => TOKEN_RBRACE,
        0x5B => TOKEN_LBRACKET,
        0x5D => TOKEN_RBRACKET,
        0x3A => TOKEN_COLON,
        0x2C => TOKEN_COMMA,
        _ => 0,
    }
}

/// The tagged tape entry for byte `b` at offset `pos`: the byte's tag in the
/// high four bits, the offset in the low 28.
pub fn tag_byte(b: u8, pos: usize) -> (t: u32)
    requires
        pos <= OFFSET_MASK,
    ensures
        t == tagged_entry(b, pos as int),
        entry_tag(t) == token_of(b),
        entry_offset(t) == pos,
{
    proof {
        lemma_tagged_entry(b, pos as u32);
    }
    token_for(b) | (pos as u32)
}

/// Scanner front end over a byte input.
pub struct Scanner<'a> {
    input: &'a [u8],
}

impl<'a> Scanner<'a> {
    /// A scanner over `input`.
    pub fn new(input: &'a [u8]) -> (s: Self)
        ensures
            s.input() == input,
    {
        Self { input }
    }

    /// The bytes this scanner reads.
    pub closed spec fn input(&self) -> &'a [u8] {
        self.input
    }

    /// Scans the whole input and writes the offsets of its structural bytes
    /// to `tape`, as many as fit, each as a `u32` (so an offset of 2^32 or
    /// more wraps). Returns the number of entries written.
    pub fn scan(&self, tape: &mut [u32]) -> (count: usize)
        ensures
            count as int == if structural_positions(self.input()@).len() < old(tape)@.len() {
                structural_positions(self.input()@).len() as int
            } else {
                old(tape)@.len() as int
            },
            final(tape)@.len() == old(tape)@.len(),
            forall|k: int|
                0 <= k < count ==> final(tape)@[k] == #[trigger] structural_positions(
                    self.input()@,
                )[k] as u32,
            forall|k: int| count <= k < old(tape)@.len() ==> #[trigger] final(tape)@[k] == old(tape)@[k],
    {
        let scanner = generic::Scanner::new(self.input);
        scanner.scan(tape)
    }
}

} // verus!
