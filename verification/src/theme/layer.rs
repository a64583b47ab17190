//! Well-known indices of the Xschem colour palette.
use vstd::prelude::*;

verus! {

pub const BACKGROUND: usize = 0;
pub const WIRE: usize = 1;
pub const GRID: usize = 2;
pub const TEXT: usize = 3;
pub const PIN: usize = 4;
pub const LABEL: usize = 5;
pub const COMPONENT: usize = 6;

} // verus!
