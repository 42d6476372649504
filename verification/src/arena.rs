//! A reusable buffer for tape entries.

use vstd::prelude::*;

verus! {

/// A reusable buffer for storing tape entries without allocating in the hot
/// path.
pub struct Scratchpad {
    tape_buffer: Vec<u32>,
}

impl View for Scratchpad {
    type V = Seq<u32>;

    /// The buffer's entries.
    closed spec fn view(&self) -> Seq<u32> {
        self.tape_buffer@
    }
}

impl Scratchpad {
    /// A buffer of `capacity` zero entries.
    pub fn new(capacity: usize) -> (s: Self)
        ensures
            s@ == Seq::new(capacity as nat, |i: int| 0u32),
    {
        let mut tape_buffer: Vec<u32> = Vec::with_capacity(capacity);
        let mut k: usize = 0;
        while k < capacity
            invariant
                k <= capacity,
                tape_buffer@ == Seq::new(k as nat, |i: int| 0u32),
            decreases capacity - k,
        {
            tape_buffer.push(0);
            k = k + 1;
            proof {
                assert(tape_buffer@ =~= Seq::new(k as nat, |i: int| 0u32));
            }
        }
        Scratchpad { tape_buffer }
    }

    /// The whole buffer, for reading and writing in place.
    pub fn get_mut_tape(&mut self) -> (r: &mut [u32])
        ensures
            r@ == old(self)@,
            final(self)@ == final(r)@,
    {
        self.tape_buffer.as_mut_slice()
    }
}

} // verus!
