use vstd::prelude::*;

verus! {

/// A graph node: a stable identifier plus a 2D position.
///
/// Coordinates are integers in fixed-point world units; the host picks the
/// scale (for example 1024 units per pixel). No velocity is stored: the
/// integrator is position-only.
#[derive(Clone, Copy, PartialEq, Eq, Structural, Debug)]
pub struct GpugNode {
    pub id: u64,
    pub x: i64,
    pub y: i64,
}

impl GpugNode {
    pub fn new(id: u64, x: i64, y: i64) -> (n: GpugNode)
        ensures
            n.id == id,
            n.x == x,
            n.y == y,
    {
        Self { id, x, y }
    }
}

} // verus!
