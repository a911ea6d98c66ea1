pub mod addr;
pub mod err;
pub mod serialize;
pub mod id;
pub mod signature;
pub mod util;
pub mod token;
pub mod packet;
pub mod pass;
pub mod station;
pub mod laws;
pub mod event;

use vstd::prelude::*;

verus! {

/// The sum of two sizes.
pub fn add(left: usize, right: usize) -> (r: usize)
    requires
        left + right <= usize::MAX,
    ensures
        r == left + right,
{
    left + right
}

} // verus!
