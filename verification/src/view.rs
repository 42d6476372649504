//! A borrowed view of a document and its structural tape.

use vstd::prelude::*;
use crate::string::KString;

verus! {

/// A structural representation of JSON data using offsets.
#[derive(Debug)]
pub enum KNode<'a> {
    Null,
    Bool(bool),
    /// A number, left unparsed.
    Number(&'a [u8]),
    String(KString<'a>),
    Array { start_idx: usize, len: usize },
    Object { start_idx: usize, len: usize },
}

/// A document and its structural tape, for jumping directly to offsets
/// without full deserialization.
pub struct KView<'a> {
    pub source: &'a [u8],
    /// The tape: one tagged entry per structural byte.
    pub tape: &'a [u32],
}

impl<'a> KView<'a> {
    /// A view of `source` with the tape `tape`.
    pub fn new(source: &'a [u8], tape: &'a [u32]) -> (v: Self)
        ensures
            v.source == source,
            v.tape == tape,
    {
        KView { source, tape }
    }
}

} // verus!
