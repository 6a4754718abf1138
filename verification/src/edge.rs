use vstd::prelude::*;

verus! {

/// An undirected edge between two node indices.
///
/// Edges produced by the generator satisfy `source < target`, so each
/// unordered pair has exactly one representation in an edge list.
#[derive(Clone, Copy, PartialEq, Eq, Structural, Debug)]
pub struct GpugEdge {
    pub source: usize,
    pub target: usize,
}

impl GpugEdge {
    pub fn new(source: usize, target: usize) -> (e: GpugEdge)
        ensures
            e.source == source,
            e.target == target,
    {
        Self { source, target }
    }
}

} // verus!
