use vstd::prelude::*;

pub mod buddy;
pub mod buddy_math;
pub mod gfx;
pub mod math;
pub mod mem;
pub mod scene;

verus! {

} // verus!
