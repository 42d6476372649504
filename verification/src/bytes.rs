//! Small byte-buffer helpers shared by the parser and the serializer.

use vstd::prelude::*;

verus! {

/// Appends `src[from..to]` to `out`.
pub fn append_range(out: &mut Vec<u8>, src: &[u8], from: usize, to: usize)
    requires
        from <= to <= src@.len(),
    ensures
        final(out)@ == old(out)@ + src@.subrange(from as int, to as int),
{
    let mut k = from;
    while k < to
        invariant
            from <= k <= to,
            to <= src@.len(),
            out@ == old(out)@ + src@.subrange(from as int, k as int),
        decreases to - k,
    {
        out.push(src[k]);
        proof {
            assert(src@.subrange(from as int, k + 1) =~= src@.subrange(from as int, k as int).push(src@[k as int]));
        }
        k = k + 1;
    }
}

/// Appends all of `src` to `out`.
pub fn append_all(out: &mut Vec<u8>, src: &[u8])
    ensures
        final(out)@ == old(out)@ + src@,
{
    append_range(out, src, 0, src.len());
    proof {
        assert(src@.subrange(0, src@.len() as int) =~= src@);
    }
}

/// `old` with `data` written over it from offset `at` on.
pub open spec fn splice(old: Seq<u8>, at: int, data: Seq<u8>) -> Seq<u8> {
    old.subrange(0, at) + data + old.subrange(at + data.len(), old.len() as int)
}

/// Writing `d1` at `at` and then `d2` right after it is writing `d1 + d2`.
pub proof fn lemma_splice_splice(old: Seq<u8>, at: int, d1: Seq<u8>, d2: Seq<u8>)
    requires
        0 <= at,
        at + d1.len() + d2.len() <= old.len(),
    ensures
        splice(splice(old, at, d1), at + d1.len(), d2) == splice(old, at, d1 + d2),
{
    let s1 = splice(old, at, d1);
    assert(s1.len() == old.len());
    assert(s1.subrange(0, at + d1.len()) =~= old.subrange(0, at) + d1);
    assert(s1.subrange(at + d1.len() + d2.len(), s1.len() as int) =~= old.subrange(
        at + d1.len() + d2.len(),
        old.len() as int,
    ));
    assert(splice(s1, at + d1.len(), d2) =~= splice(old, at, d1 + d2));
}

/// Writing nothing changes nothing.
pub proof fn lemma_splice_empty(old: Seq<u8>, at: int)
    requires
        0 <= at <= old.len(),
    ensures
        splice(old, at, Seq::empty()) == old,
{
    assert(splice(old, at, Seq::empty()) =~= old);
}

/// Writes `data` into `out` from offset `at` on; returns the offset after it.
pub fn put_bytes(out: &mut [u8], at: usize, data: &[u8]) -> (end: usize)
    requires
        at + data@.len() <= old(out)@.len(),
    ensures
        end == at + data@.len(),
        final(out)@ == splice(old(out)@, at as int, data@),
{
    let n = out.len();
    let mut k: usize = 0;
    proof {
        lemma_splice_empty(out@, at as int);
        assert(data@.take(0) =~= Seq::<u8>::empty());
    }
    while k < data.len()
        invariant
            k <= data@.len(),
            n == out@.len(),
            n == old(out)@.len(),
            at + data@.len() <= n,
            out@ == splice(old(out)@, at as int, data@.take(k as int)),
        decreases data@.len() - k,
    {
        let ghost before = out@;
        out[at + k] = data[k];
        proof {
            let o = old(out)@;
            let t1 = data@.take(k + 1);
            assert(out@ == before.update(at + k, data@[k as int]));
            assert forall|j: int| 0 <= j < n implies #[trigger] out@[j] == splice(o, at as int, t1)[j] by {
                if j < at {
                } else if j < at + k {
                    assert(t1[j - at] == data@[j - at]);
                } else if j == at + k {
                } else {
                }
            }
            assert(out@ =~= splice(o, at as int, t1));
        }
        k = k + 1;
    }
    proof {
        assert(data@.take(data@.len() as int) =~= data@);
    }
    at + data.len()
}

/// Whether `a` and `b` hold the same bytes.
pub fn bytes_eq(a: &[u8], b: &[u8]) -> (r: bool)
    ensures
        r == (a@ == b@),
{
    if a.len() != b.len() {
        return false;
    }
    let mut i: usize = 0;
    while i < a.len()
        invariant
            a@.len() == b@.len(),
            i <= a@.len(),
            forall|j: int| 0 <= j < i ==> a@[j] == b@[j],
        decreases a@.len() - i,
    {
        if a[i] != b[i] {
            return false;
        }
        i = i + 1;
    }
    proof {
        assert(a@ =~= b@);
    }
    true
}

} // verus!
