//! Small helpers on slices.
use vstd::prelude::*;

verus! {

/// Drops the first `i` elements of `slice`.
pub fn advance_slice<'a, T>(slice: &mut &'a [T], i: usize)
    requires
        i <= old(slice)@.len(),
    ensures
        final(slice)@ == old(slice)@.skip(i as int),
{
    let s: &'a [T] = *slice;
    let (_, res) = s.split_at(i);
    *slice = res;
}

/// Drops the first `i` elements of the mutable `slice`.
pub fn advance_slice_mut<'a, T>(slice: &mut &'a mut [T], i: usize)
    requires
        i <= old(slice)@.len(),
    ensures
        final(slice)@ == old(slice)@.skip(i as int),
        final(*old(slice))@ == old(slice)@.take(i as int) + final(*final(slice))@,
{
    let mut tmp: &'a mut [T] = &mut [];
    std::mem::swap(&mut tmp, slice);
    let (_, res) = tmp.split_at_mut(i);
    *slice = res;
}

/// Copies `count` elements one by one, in increasing order, from index `src`
/// to index `dst` of the same slice. Where the two ranges overlap, an element
/// is read after it has been written, so the first `dst - src` elements from
/// `src` repeat through the destination.
pub fn copy_forward_within_slice<T: Copy>(slice: &mut [T], src: usize, dst: usize, count: usize)
    requires
        src < dst,
        dst + count <= old(slice)@.len(),
    ensures
        final(slice)@.len() == old(slice)@.len(),
        forall|k: int|
            0 <= k < old(slice)@.len() && !(dst <= k < dst + count) ==> #[trigger] final(slice)@[k]
                == old(slice)@[k],
        forall|k: int|
            0 <= k < count ==> #[trigger] final(slice)@[dst + k] == old(slice)@[src + k % (dst
                - src)],
{
    let ghost orig = slice@;
    let ghost d: int = dst - src;
    assert(slice@.len() == slice.len());
    for i in 0..count
        invariant
            src < dst,
            d == dst - src,
            dst + count <= orig.len(),
            dst + count <= usize::MAX,
            slice@.len() == orig.len(),
            forall|k: int|
                0 <= k < orig.len() && !(dst <= k < dst + i) ==> #[trigger] slice@[k] == orig[k],
            forall|k: int| 0 <= k < i ==> #[trigger] slice@[dst + k] == orig[src + k % d],
    {
        let v = slice[src + i];
        proof {
            if src + i < dst {
                assert((i as int) % d == i as int) by (nonlinear_arith)
                    requires
                        0 <= i < d,
                ;
            } else {
                let k = i - d;
                assert(slice@[dst + k] == orig[src + k % d]);
                assert(k % d == (i as int) % d) by (nonlinear_arith)
                    requires
                        k == i - d,
                        d > 0,
                        k >= 0,
                ;
            }
        }
        slice[dst + i] = v;
    }
}

} // verus!
