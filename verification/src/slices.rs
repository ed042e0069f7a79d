//! Copying contiguous windows out of vectors.
use vstd::prelude::*;

verus! {

/// The elements `data[start..end]`, copied.
pub fn copy_range<T: Copy>(data: &Vec<T>, start: usize, end: usize) -> (r: Vec<T>)
    requires
        start <= end <= data.len(),
    ensures
        r@ == data@.subrange(start as int, end as int),
{
    let mut r: Vec<T> = Vec::new();
    for i in start..end
        invariant
            start <= end <= data.len(),
            r@ == data@.subrange(start as int, i as int),
    {
        r.push(data[i]);
    }
    r
}

} // verus!
