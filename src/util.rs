//! Byte windows.
use vstd::prelude::*;

verus! {

/// The `length` bytes of `focus` that start at `offset`.
pub fn slice_with_length(focus: &[u8], offset: usize, length: usize) -> (r: &[u8])
    requires
        offset + length <= focus@.len(),
    ensures
        r@ == focus@.subrange(offset as int, offset + length),
{
    // a slice's length fits in `usize`, and so does `offset + length`
    let _len = focus.len();
    vstd::slice::slice_subrange(focus, offset, offset + length)
}

} // verus!
