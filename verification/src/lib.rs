use vstd::prelude::*;

pub mod circular_buffer;
pub mod clock;
pub mod layout;
pub mod memory;
pub mod queue;
pub mod sem;

verus! {
} // verus!
