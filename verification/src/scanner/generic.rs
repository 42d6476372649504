//! Portable scanner: 32-byte blocks are summarised by per-character bitmasks
//! so that blocks without any interesting byte are skipped at once; blocks
//! that hold one are read byte by byte.

use vstd::prelude::*;
use super::{
    lemma_quiet_run, positions_upto, records, scan_state, scan_step,
    structural_positions,
};

verus! {

/// The byte that mask number `k` of [`compute_masks_scalar`] looks for:
/// quote, backslash, `{`, `}`, `[`, `]`, `:`, `,`.
pub open spec fn mask_target(k: int) -> u8 {
    if k == 0 {
        0x22
    } else if k == 1 {
        0x5C
    } else if k == 2 {
        0x7B
    } else if k == 3 {
        0x7D
    } else if k == 4 {
        0x5B
    } else if k == 5 {
        0x5D
    } else if k == 6 {
        0x3A
    } else {
        0x2C
    }
}

/// Bit `j` of `m`.
pub open spec fn bit_set(m: u32, j: u32) -> bool {
    (m >> j) & 1u32 == 1u32
}

proof fn lemma_set_bit(m: u32, j: u32, k: u32)
    by (bit_vector)
    requires
        j < 32,
        k < 32,
    ensures
        ((m | (1u32 << j)) >> k) & 1u32 == 1u32 <==> (k == j || (m >> k) & 1u32 == 1u32),
        (m | (1u32 << j)) != 0,
{
}

proof fn lemma_zero_bits(k: u32)
    by (bit_vector)
    requires
        k < 32,
    ensures
        (0u32 >> k) & 1u32 != 1u32,
{
}

fn mask_index(b: u8) -> (r: Option<usize>)
    ensures
        match r {
            Some(t) => t < 8 && mask_target(t as int) == b,
            None => forall|t: int| 0 <= t < 8 ==> mask_target(t) != b,
        },
{
    match b {
        0x22 => Some(0),
        0x5C => Some(1),
        0x7B => Some(2),
        0x7D => Some(3),
        0x5B => Some(4),
        0x5D => Some(5),
        0x3A => Some(6),
        0x2C => Some(7),
        _ => None,
    }
}

/// Computes 8 bitmasks for the 32 bytes at `bytes[offset..]`: bit `j` of
/// mask `k` is set iff `bytes[offset + j]` is [`mask_target`]`(k)`.
pub fn compute_masks_scalar(bytes: &[u8], offset: usize) -> (masks: [u32; 8])
    requires
        offset + 32 <= bytes@.len(),
    ensures
        forall|k: int, j: u32|
            0 <= k < 8 && j < 32 ==> (#[trigger] bit_set(masks@[k], j) <==> bytes@[offset + j]
                == mask_target(k)),
        forall|k: int|
            0 <= k < 8 ==> (#[trigger] masks@[k] == 0 <==> forall|j: int|
                offset <= j < offset + 32 ==> bytes@[j] != mask_target(k)),
{
    let mut masks = [0u32; 8];
    proof {
        assert forall|k: int, j: u32| 0 <= k < 8 && 32 > j implies !bit_set(masks@[k], j) by {
            lemma_zero_bits(j);
        }
    }
    let mut j: usize = 0;
    while j < 32
        invariant
            j <= 32,
            offset + 32 <= bytes.len(),
            bytes.len() == bytes@.len(),
            forall|k: int, jj: u32|
                0 <= k < 8 && jj < j ==> (#[trigger] bit_set(masks@[k], jj) <==> bytes@[offset
                    + jj] == mask_target(k)),
            forall|k: int, jj: u32|
                0 <= k < 8 && j <= jj < 32 ==> !#[trigger] bit_set(masks@[k], jj),
            forall|k: int|
                0 <= k < 8 ==> (#[trigger] masks@[k] == 0 <==> forall|jj: int|
                    offset <= jj < offset + j ==> bytes@[jj] != mask_target(k)),
        decreases 32 - j,
    {
        let b = bytes[offset + j];
        let ghost old_masks = masks@;
        match mask_index(b) {
            Some(t) => {
                let m = masks[t];
                let nm = m | (1u32 << (j as u32));
                masks[t] = nm;
                proof {
                    assert(masks@ =~= old_masks.update(t as int, nm));
                    assert forall|k: int, jj: u32| 0 <= k < 8 && jj < 32 implies (#[trigger] bit_set(
                        masks@[k],
                        jj,
                    ) <==> (if k == t as int {
                        jj == j as u32 || bit_set(old_masks[k], jj)
                    } else {
                        bit_set(old_masks[k], jj)
                    })) by {
                        if k == t as int {
                            lemma_set_bit(m, j as u32, jj);
                        }
                    }
                    lemma_set_bit(m, j as u32, 0);
                    assert forall|k: int, jj: u32|
                        0 <= k < 8 && jj < j + 1 implies (#[trigger] bit_set(masks@[k], jj)
                        <==> bytes@[offset + jj] == mask_target(k)) by {
                        if jj == j as u32 {
                            assert(bytes@[offset + jj] == b);
                            if k != t as int {
                                assert(!bit_set(old_masks[k], jj));
                                assert(mask_target(k) != mask_target(t as int));
                            }
                        } else {
                            assert(bit_set(old_masks[k], jj) <==> bytes@[offset + jj] == mask_target(k));
                        }
                    }
                    assert forall|k: int, jj: u32|
                        0 <= k < 8 && j + 1 <= jj < 32 implies !#[trigger] bit_set(masks@[k], jj) by {
                        assert(!bit_set(old_masks[k], jj));
                    }
                }
            },
            None => {
                assert forall|k: int, jj: u32|
                    0 <= k < 8 && jj < j + 1 implies (#[trigger] bit_set(masks@[k], jj)
                    <==> bytes@[offset + jj] == mask_target(k)) by {
                    if jj == j as u32 {
                        assert(!bit_set(old_masks[k], jj));
                    } else {
                        assert(bit_set(old_masks[k], jj) <==> bytes@[offset + jj] == mask_target(k));
                    }
                }
            },
        }
        j = j + 1;
    }
    masks
}

/// Portable scanner over a byte input.
pub struct Scanner<'a> {
    input: &'a [u8],
}

impl<'a> Scanner<'a> {
    /// A scanner over `input`.
    pub fn new(input: &'a [u8]) -> (s: Self)
        ensures
            s.input() == input,
    {
        Self { input }
    }

    /// The bytes this scanner reads.
    pub closed spec fn input(&self) -> &'a [u8] {
        self.input
    }

    /// Scans the whole input and writes the offsets of its structural bytes
    /// to `tape`, as many as fit, each as a `u32` (so an offset of 2^32 or
    /// more wraps). Returns the number of entries written.
    pub fn scan(&self, tape: &mut [u32]) -> (count: usize)
        ensures
            count as int == if structural_positions(self.input()@).len() < old(tape)@.len() {
                structural_positions(self.input()@).len() as int
            } else {
                old(tape)@.len() as int
            },
            final(tape)@.len() == old(tape)@.len(),
            forall|k: int|
                0 <= k < count ==> final(tape)@[k] == #[trigger] structural_positions(
                    self.input()@,
                )[k] as u32,
            forall|k: int| count <= k < old(tape)@.len() ==> #[trigger] final(tape)@[k] == old(tape)@[k],
    {
        let bytes = self.input;
        let len = bytes.len();
        let ghost input = bytes@;
        let ghost tape0 = tape@;
        let mut tape_idx: usize = 0;
        let mut in_string = false;
        let mut escape = false;
        let mut i: usize = 0;

        while len - i >= 32
            invariant
                i <= len,
                len == input.len(),
                input == bytes@,
                (in_string, escape) == scan_state(input, i as int),
                Self::tape_inv(input, tape0, tape@, i as int, tape_idx as int),
            decreases len - i,
        {
            let masks = compute_masks_scalar(bytes, i);
            if in_string {
                if masks[0] == 0 && masks[1] == 0 && !escape {
                    proof {
                        assert forall|j: int| i <= j < i + 32 implies scan_step(
                            (true, false),
                            #[trigger] input[j],
                        ) == (true, false) && !records((true, false), input[j]) by {
                            assert(input[j] != 0x22);
                            assert(input[j] != 0x5C);
                        }
                        lemma_quiet_run(input, i as int, i + 32, (true, false));
                    }
                    i = i + 32;
                    continue;
                }
            } else {
                let structurals = masks[0] | masks[2] | masks[3] | masks[4] | masks[5] | masks[6]
                    | masks[7];
                if structurals == 0 {
                    proof {
                        Self::lemma_or_zero(masks[0], masks[2], masks[3], masks[4], masks[5], masks[6], masks[7]);
                        assert forall|j: int| i <= j < i + 32 implies scan_step(
                            (false, false),
                            #[trigger] input[j],
                        ) == (false, false) && !records((false, false), input[j]) by {
                            assert(input[j] != 0x22);
                            assert(input[j] != 0x7B);
                            assert(input[j] != 0x7D);
                            assert(input[j] != 0x5B);
                            assert(input[j] != 0x5D);
                            assert(input[j] != 0x3A);
                            assert(input[j] != 0x2C);
                        }
                        lemma_quiet_run(input, i as int, i + 32, (false, false));
                    }
                    i = i + 32;
                    continue;
                }
            }
            // The block holds a byte of interest: read it byte by byte, and
            // return to block mode as soon as the string state flips.
            let end = i + 32;
            let ghost i0 = i;
            let mut flipped = false;
            while i < end && !flipped
                invariant
                    i0 <= i <= end,
                    end == i0 + 32,
                    flipped ==> i > i0,
                    end <= len,
                    len == input.len(),
                    input == bytes@,
                        (in_string, escape) == scan_state(input, i as int),
                    Self::tape_inv(input, tape0, tape@, i as int, tape_idx as int),
                decreases end - i,
            {
                let b = bytes[i];
                let was_in = in_string;
                Self::step(b, i, &mut in_string, &mut escape, tape, &mut tape_idx, Ghost(input), Ghost(tape0));
                i = i + 1;
                if was_in != in_string {
                    flipped = true;
                }
            }
        }

        while i < len
            invariant
                i <= len,
                len == input.len(),
                input == bytes@,
                (in_string, escape) == scan_state(input, i as int),
                Self::tape_inv(input, tape0, tape@, i as int, tape_idx as int),
            decreases len - i,
        {
            let b = bytes[i];
            Self::step(b, i, &mut in_string, &mut escape, tape, &mut tape_idx, Ghost(input), Ghost(tape0));
            i = i + 1;
        }
        tape_idx
    }

    /// The tape holds the first `tape_idx` positions recorded among the first
    /// `n` bytes, as many as fit, and is untouched after them.
    spec fn tape_inv(input: Seq<u8>, tape0: Seq<u32>, tape: Seq<u32>, n: int, tape_idx: int) -> bool {
        let ps = positions_upto(input, n);
        &&& tape.len() == tape0.len()
        &&& tape_idx == if ps.len() < tape0.len() { ps.len() as int } else { tape0.len() as int }
        &&& forall|k: int| 0 <= k < tape_idx ==> tape[k] == #[trigger] ps[k] as u32
        &&& forall|k: int| tape_idx <= k < tape0.len() ==> #[trigger] tape[k] == tape0[k]
    }

    proof fn lemma_or_zero(a: u32, b: u32, c: u32, d: u32, e: u32, f: u32, g: u32)
        by (bit_vector)
        requires
            a | b | c | d | e | f | g == 0,
        ensures
            a == 0 && b == 0 && c == 0 && d == 0 && e == 0 && f == 0 && g == 0,
    {
    }

    /// Reads byte `b` at offset `i`: updates the state and records `i` on the
    /// tape when the byte is structural.
    fn step(
        b: u8,
        i: usize,
        in_string: &mut bool,
        escape: &mut bool,
        tape: &mut [u32],
        tape_idx: &mut usize,
        Ghost(input): Ghost<Seq<u8>>,
        Ghost(tape0): Ghost<Seq<u32>>,
    )
        requires
            i < input.len(),
            input[i as int] == b,
            (*old(in_string), *old(escape)) == scan_state(input, i as int),
            Self::tape_inv(input, tape0, old(tape)@, i as int, *old(tape_idx) as int),
        ensures
            (*final(in_string), *final(escape)) == scan_state(input, i + 1),
            Self::tape_inv(input, tape0, final(tape)@, i + 1, *final(tape_idx) as int),
    {
        let rec = if *in_string {
            if *escape {
                *escape = false;
                false
            } else if b == 0x5C {
                *escape = true;
                false
            } else if b == 0x22 {
                *in_string = false;
                true
            } else {
                false
            }
        } else {
            match b {
                0x22 => {
                    *in_string = true;
                    true
                },
                0x7B | 0x7D | 0x5B | 0x5D | 0x3A | 0x2C => true,
                _ => false,
            }
        };
        if rec && *tape_idx < tape.len() {
            tape[*tape_idx] = i as u32;
            *tape_idx = *tape_idx + 1;
        }
    }
}

} // verus!
