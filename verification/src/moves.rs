//! A toy direction command with a step count, for front ends that
//! exercise serializers on a small tagged type.

use vstd::prelude::*;

verus! {

/// One step in a cardinal direction.
#[derive(Debug, Clone, Copy, PartialEq, Eq, Structural)]
pub enum Move {
    Up(u8),
    Right(u8),
    Down(u8),
    Left(u8),
}

} // verus!
