//! The diagram model: vertices with a role and two coordinates, and an
//! undirected simple edge list.  Vertices are identified by their index in
//! the vertex list; that index is also the deterministic processing order
//! within a time row.

use vstd::prelude::*;
use crate::coord::{Coord, coord_is_nan, coord_key};

verus! {

/// The role of a diagram vertex.
#[derive(Clone, Copy, PartialEq, Eq, Structural, Debug)]
pub enum Role {
    /// Marks an external input/output leg; never contributes instructions.
    Boundary,
    /// A Z-spider.
    ZSpider,
    /// An X-spider.
    XSpider,
}

/// One diagram vertex: its role, its space coordinate (`qubit`) and its
/// time coordinate (`row`).
#[derive(Clone, Copy, PartialEq, Eq, Structural, Debug)]
pub struct VertexData {
    pub role: Role,
    pub qubit: Coord,
    pub row: Coord,
}

/// A bipartite, phase-free diagram: a vertex list and an edge list.
/// An edge is an unordered pair of vertex indices.
#[derive(Clone, Debug)]
pub struct Diagram {
    pub vertices: Vec<VertexData>,
    pub edges: Vec<(usize, usize)>,
}

/// The mathematical view of a diagram.
pub struct DiagramV {
    pub verts: Seq<VertexData>,
    pub edges: Seq<(usize, usize)>,
}

impl View for Diagram {
    type V = DiagramV;

    open spec fn view(&self) -> DiagramV {
        DiagramV { verts: self.vertices@, edges: self.edges@ }
    }
}

/// Two edges name the same unordered vertex pair.
pub open spec fn same_pair(e1: (usize, usize), e2: (usize, usize)) -> bool {
    (e1.0 == e2.0 && e1.1 == e2.1) || (e1.0 == e2.1 && e1.1 == e2.0)
}

impl DiagramV {
    /// A well-formed diagram: every edge joins two distinct existing
    /// vertices, and no unordered pair occurs twice (simple adjacency).
    pub open spec fn wf(self) -> bool {
        &&& forall|i: int| 0 <= i < self.edges.len() ==> {
            &&& (#[trigger] self.edges[i]).0 < self.verts.len()
            &&& self.edges[i].1 < self.verts.len()
            &&& self.edges[i].0 != self.edges[i].1
        }
        &&& forall|i: int, j: int|
            0 <= i < j < self.edges.len() ==> !same_pair(
                #[trigger] self.edges[i],
                #[trigger] self.edges[j],
            )
    }
}

/// Some vertex carries an unorderable (NaN) coordinate; the one input the
/// translation rejects.
pub open spec fn has_invalid_coord(d: DiagramV) -> bool {
    exists|v: int|
        0 <= v < d.verts.len() && (coord_is_nan((#[trigger] d.verts[v]).qubit) || coord_is_nan(
            d.verts[v].row,
        ))
}

/// The neighbors of vertex `v` contributed by the first `k` edges, in edge
/// list order.
pub open spec fn nbrs_upto(d: DiagramV, v: usize, k: int) -> Seq<usize>
    decreases k,
{
    if k <= 0 {
        Seq::empty()
    } else {
        let prev = nbrs_upto(d, v, k - 1);
        let e = d.edges[k - 1];
        if e.0 == v {
            prev.push(e.1)
        } else if e.1 == v {
            prev.push(e.0)
        } else {
            prev
        }
    }
}

/// The neighbors of vertex `v`, in edge list order.
pub open spec fn nbrs(d: DiagramV, v: usize) -> Seq<usize> {
    nbrs_upto(d, v, d.edges.len() as int)
}

/// The degree of vertex `v`: its number of incident edges.
pub open spec fn degree(d: DiagramV, v: usize) -> nat {
    nbrs(d, v).len()
}

/// In a well-formed diagram every listed neighbor is an existing vertex.
pub proof fn lemma_nbrs_in_range(d: DiagramV, v: usize, k: int)
    requires
        d.wf(),
        k <= d.edges.len(),
    ensures
        forall|j: int| 0 <= j < nbrs_upto(d, v, k).len() ==> #[trigger] nbrs_upto(d, v, k)[j] < d.verts.len(),
    decreases k,
{
    if k > 0 {
        lemma_nbrs_in_range(d, v, k - 1);
        let e = d.edges[k - 1];
        assert(e.0 < d.verts.len() && e.1 < d.verts.len());
        let prev = nbrs_upto(d, v, k - 1);
        assert forall|j: int| 0 <= j < nbrs_upto(d, v, k).len() implies #[trigger] nbrs_upto(
            d,
            v,
            k,
        )[j] < d.verts.len() by {
            if j < prev.len() {
                assert(nbrs_upto(d, v, k)[j] == prev[j]);
            }
        }
    }
}

/// The sequence of qubit-coordinate keys of all vertices, by vertex index.
pub open spec fn qkeys(d: DiagramV) -> Seq<u64> {
    Seq::new(d.verts.len(), |i: int| coord_key(d.verts[i].qubit))
}

/// The sequence of row-coordinate keys of all vertices, by vertex index.
pub open spec fn rkeys(d: DiagramV) -> Seq<u64> {
    Seq::new(d.verts.len(), |i: int| coord_key(d.verts[i].row))
}

/// Lists the neighbors of `v` in edge list order.
pub fn neighbors_of(d: &Diagram, v: usize) -> (r: Vec<usize>)
    ensures
        r@ == nbrs(d@, v),
{
    let mut r: Vec<usize> = Vec::new();
    let mut k: usize = 0;
    while k < d.edges.len()
        invariant
            k <= d@.edges.len(),
            r@ == nbrs_upto(d@, v, k as int),
        decreases d@.edges.len() - k,
    {
        let e = d.edges[k];
        if e.0 == v {
            r.push(e.1);
        } else if e.1 == v {
            r.push(e.0);
        }
        k = k + 1;
    }
    r
}

} // verus!
