//! Byte-buffer helpers shared by the cache and interval logic.

use vstd::prelude::*;

verus! {

/// Appends all of `src` to `dst`.
pub fn extend_bytes(dst: &mut Vec<u8>, src: &[u8])
    requires
        old(dst).len() + src.len() <= usize::MAX,
    ensures
        final(dst)@ == old(dst)@ + src@,
{
    let mut i: usize = 0;
    while i < src.len()
        invariant
            i <= src.len(),
            old(dst).len() + src.len() <= usize::MAX,
            dst@ == old(dst)@ + src@.subrange(0, i as int),
        decreases src.len() - i,
    {
        dst.push(src[i]);
        i = i + 1;
        proof {
            assert(dst@ =~= old(dst)@ + src@.subrange(0, i as int));
        }
    }
    proof {
        assert(src@.subrange(0, src@.len() as int) =~= src@);
    }
}

/// Copies `src[from..from + amount]` into a fresh vector.
pub fn copy_range(src: &[u8], from: usize, amount: usize) -> (r: Vec<u8>)
    requires
        from + amount <= src.len(),
    ensures
        r@ == src@.subrange(from as int, from + amount),
{
    let mut r: Vec<u8> = Vec::new();
    let mut i: usize = 0;
    while i < amount
        invariant
            i <= amount,
            from + amount <= src.len(),
            r@ == src@.subrange(from as int, from + i),
        decreases amount - i,
    {
        r.push(src[from + i]);
        i = i + 1;
        proof {
            assert(r@ =~= src@.subrange(from as int, from + i));
        }
    }
    r
}

} // verus!
