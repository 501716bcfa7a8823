use vstd::prelude::*;

verus! {

/// The smaller of two sizes.
pub fn min(a: usize, b: usize) -> (r: usize)
    ensures
        r == if a < b { a } else { b },
{
    if a < b {
        a
    } else {
        b
    }
}

} // verus!
