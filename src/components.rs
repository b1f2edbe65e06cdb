use vstd::prelude::*;

verus! {

/// A point on the integer plane; the usual first component of a world.
#[derive(Clone, Copy, Debug, PartialEq, Eq)]
pub struct Position {
    pub x: i64,
    pub y: i64,
}

} // verus!
