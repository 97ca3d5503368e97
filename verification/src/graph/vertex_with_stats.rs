use vstd::prelude::*;

use crate::vertex::Vertex;

verus! {

/// A vertex together with the per-run state the analysis passes fill in:
/// who points at it, whether the depth labeler has reached it, and its
/// distance from the root (`usize::MAX` until the labeler assigns one).
#[derive(Debug)]
pub struct VertexWithStats {
    pub vertex: Vertex,
    pub visited: bool,
    pub inbounds: Vec<usize>,
    pub root_depth: usize,
}

impl VertexWithStats {
    /// Wraps a vertex with untouched analysis state.
    pub fn from(vertex: Vertex) -> (r: Self)
        ensures
            r.vertex == vertex,
            !r.visited,
            r.inbounds@ == Seq::<usize>::empty(),
            r.root_depth == usize::MAX,
    {
        VertexWithStats { vertex, visited: false, inbounds: Vec::new(), root_depth: usize::MAX }
    }
}

impl Default for VertexWithStats {
    /// Untouched analysis state around the synthetic root record.
    fn default() -> (r: Self)
        ensures
            r.vertex == (Vertex { left: None, right: None, timestamp: 0 }),
            !r.visited,
            r.inbounds@ == Seq::<usize>::empty(),
            r.root_depth == usize::MAX,
    {
        VertexWithStats::from(Vertex::default())
    }
}

} // verus!
