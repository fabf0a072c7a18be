use vstd::prelude::*;

verus! {

/// Copies the byte range [a, b) of text into a fresh vector.
pub fn sub_bytes(text: &[u8], a: usize, b: usize) -> (r: Vec<u8>)
    requires
        a <= b <= text@.len(),
    ensures
        r@ == text@.subrange(a as int, b as int),
{
    let mut r: Vec<u8> = Vec::new();
    let mut i = a;
    while i < b
        invariant
            a <= i <= b <= text@.len(),
            r@ == text@.subrange(a as int, i as int),
        decreases b - i,
    {
        r.push(text[i]);
        i = i + 1;
        assert(r@ =~= text@.subrange(a as int, i as int));
    }
    r
}

/// Appends every byte of src to dst.
pub fn push_all(dst: &mut Vec<u8>, src: &[u8])
    ensures
        final(dst)@ == old(dst)@ + src@,
{
    let mut i: usize = 0;
    while i < src.len()
        invariant
            i <= src@.len(),
            dst@ == old(dst)@ + src@.subrange(0, i as int),
        decreases src@.len() - i,
    {
        dst.push(src[i]);
        i = i + 1;
        assert(dst@ =~= old(dst)@ + src@.subrange(0, i as int));
    }
    assert(dst@ =~= old(dst)@ + src@);
}

} // verus!
