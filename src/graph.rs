//! A read-only view of a graph in CSR form.
//!
//! The view borrows the two arrays, typically memory-mapped from the
//! `vertex.csr` and `edge.csr` files, so graphs larger than memory can be
//! traversed.

use vstd::prelude::*;
use vstd::slice::slice_subrange;

use crate::csr::{out_edges_of, wf_csr};
use crate::error::GraphError;
use crate::reading::{vertex_ids, GraphFiles};
use crate::util::ValidGraphType;

verus! {

/// A graph in Compressed Sparse Row form: the out-edges of vertex `i` are
/// `edges[nodes[i] .. nodes[i + 1]]`.
pub struct Graph<'a, N> {
    nodes: &'a [usize],
    edges: &'a [N],
}

impl<'a, N: ValidGraphType> Graph<'a, N> {
    /// The offset array.
    pub closed spec fn offsets(&self) -> Seq<usize> {
        self.nodes@
    }

    /// The target array.
    pub closed spec fn edge_view(&self) -> Seq<N> {
        self.edges@
    }

    /// The ids of the target array.
    pub open spec fn targets(&self) -> Seq<nat> {
        vertex_ids(self.edge_view())
    }

    pub open spec fn wf(&self) -> bool {
        wf_csr(self.offsets(), self.targets())
    }

    /// Number of vertices.
    pub open spec fn spec_n_nodes(&self) -> nat {
        (self.offsets().len() - 1) as nat
    }

    /// A view of the two arrays, after checking that they form a valid CSR:
    /// the offsets start at 0, never decrease and end at the number of
    /// edges, and every target is a vertex. Fails with `LoadError` otherwise.
    pub fn new(nodes: &'a [usize], edges: &'a [N]) -> (r: Result<Graph<'a, N>, GraphError>)
        ensures
            r is Ok <==> wf_csr(nodes@, vertex_ids(edges@)),
            r matches Ok(g) ==> g.offsets() == nodes@ && g.edge_view() == edges@,
            r matches Err(e) ==> e == GraphError::LoadError,
    {
        if nodes.len() == 0 || nodes[0] != 0 || nodes[nodes.len() - 1] != edges.len() {
            return Err(GraphError::LoadError);
        }
        let mut k: usize = 1;
        while k < nodes.len()
            invariant
                1 <= k <= nodes@.len(),
                forall|i: int, j: int| 0 <= i <= j < k ==> #[trigger] nodes@[i] <= #[trigger] nodes@[j],
            decreases nodes@.len() - k,
        {
            if nodes[k] < nodes[k - 1] {
                return Err(GraphError::LoadError);
            }
            assert forall|i: int, j: int| 0 <= i <= j < k + 1 implies #[trigger] nodes@[i]
                <= #[trigger] nodes@[j] by {
                if j == k && i < k {
                    assert(nodes@[i] <= nodes@[k - 1]);
                }
            }
            k = k + 1;
        }
        let n = nodes.len() - 1;
        let ghost ids = vertex_ids(edges@);
        let mut j: usize = 0;
        while j < edges.len()
            invariant
                0 <= j <= edges@.len(),
                n == nodes@.len() - 1,
                ids == vertex_ids(edges@),
                nodes@.len() >= 1,
                nodes@[0] == 0,
                nodes@.last() == edges@.len(),
                forall|i: int, k: int| 0 <= i <= k < nodes@.len() ==> #[trigger] nodes@[i] <= #[trigger] nodes@[k],
                forall|m: int| 0 <= m < j ==> #[trigger] ids[m] < n,
            decreases edges@.len() - j,
        {
            assert(ids[j as int] == edges@[j as int].id());
            match edges[j].to_index() {
                Some(x) => {
                    if x >= n {
                        return Err(GraphError::LoadError);
                    }
                },
                None => {
                    return Err(GraphError::LoadError);
                },
            }
            j = j + 1;
        }
        Ok(Graph { nodes, edges })
    }

    /// A view of arrays built in memory.
    pub fn from_files(files: &'a GraphFiles<N>) -> (r: Graph<'a, N>)
        requires
            wf_csr(files.vertex_view(), vertex_ids(files.edge_view())),
        ensures
            r.wf(),
            r.offsets() == files.vertex_view(),
            r.edge_view() == files.edge_view(),
    {
        Graph { nodes: files.vertex(), edges: files.edge() }
    }

    /// Iterates over the out-edge list of each vertex, in order of id.
    pub fn iter(&self) -> (r: GraphIterator<'a, N>)
        requires
            self.wf(),
        ensures
            r.wf(),
            r.offsets() == self.offsets(),
            r.edge_view() == self.edge_view(),
            r.position() == 0,
    {
        GraphIterator { nodes: self.nodes, edges: self.edges, current_node: 0 }
    }

    /// The offset array.
    pub fn iterate_nodes(&self) -> (r: &'a [usize])
        ensures
            r@ == self.offsets(),
    {
        self.nodes
    }

    /// The target array.
    pub fn iterate_edges(&self) -> (r: &'a [N])
        ensures
            r@ == self.edge_view(),
    {
        self.edges
    }

    /// Number of vertices.
    pub fn n_nodes(&self) -> (r: usize)
        requires
            self.wf(),
        ensures
            r == self.spec_n_nodes(),
    {
        self.nodes.len() - 1
    }

    /// Number of edges.
    pub fn n_edges(&self) -> (r: usize)
        ensures
            r == self.edge_view().len(),
    {
        self.edges.len()
    }

    /// The out-edges of vertex `i`.
    pub fn out_edges(&self, i: usize) -> (r: &'a [N])
        requires
            self.wf(),
            i < self.spec_n_nodes(),
        ensures
            r@ == self.edge_view().subrange(
                self.offsets()[i as int] as int,
                self.offsets()[i + 1] as int,
            ),
            vertex_ids(r@) == out_edges_of(self.offsets(), self.targets(), i as int),
    {
        let r = slice_subrange(self.edges, self.nodes[i], self.nodes[i + 1]);
        assert(vertex_ids(r@) =~= out_edges_of(self.offsets(), self.targets(), i as int));
        r
    }
}

/// Yields the out-edge list of each vertex of a [`Graph`], in order of id.
pub struct GraphIterator<'a, N> {
    nodes: &'a [usize],
    edges: &'a [N],
    current_node: usize,
}

impl<'a, N: ValidGraphType> GraphIterator<'a, N> {
    pub closed spec fn offsets(&self) -> Seq<usize> {
        self.nodes@
    }

    pub closed spec fn edge_view(&self) -> Seq<N> {
        self.edges@
    }

    /// The id of the vertex whose out-edges come next.
    pub closed spec fn position(&self) -> nat {
        self.current_node as nat
    }

    pub open spec fn wf(&self) -> bool {
        &&& wf_csr(self.offsets(), vertex_ids(self.edge_view()))
        &&& self.position() <= self.offsets().len() - 1
    }

    /// The out-edges of the next vertex, or `None` after the last one.
    pub fn next(&mut self) -> (r: Option<&'a [N]>)
        requires
            old(self).wf(),
        ensures
            final(self).wf(),
            final(self).offsets() == old(self).offsets(),
            final(self).edge_view() == old(self).edge_view(),
            old(self).position() < old(self).offsets().len() - 1 ==> {
                &&& final(self).position() == old(self).position() + 1
                &&& r matches Some(s) && s@ == old(self).edge_view().subrange(
                    old(self).offsets()[old(self).position() as int] as int,
                    old(self).offsets()[old(self).position() + 1int] as int,
                )
            },
            old(self).position() >= old(self).offsets().len() - 1 ==> {
                &&& r is None
                &&& final(self).position() == old(self).position()
            },
    {
        if self.current_node >= self.nodes.len() - 1 {
            return None;
        }
        let start = self.nodes[self.current_node];
        let end = self.nodes[self.current_node + 1];
        self.current_node = self.current_node + 1;
        Some(slice_subrange(self.edges, start, end))
    }
}

} // verus!
