use vstd::prelude::*;

pub mod color;
pub mod color_palette;
pub mod glass;
pub mod glass_system;
pub mod step;

verus! {

/// Number of liquid units a glass can hold.
pub const GLASS_CAPACITY: usize = 4;

} // verus!
