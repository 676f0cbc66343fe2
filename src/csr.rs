//! The mathematical model of a graph in Compressed Sparse Row form.
//!
//! An edge list is a sequence of `(source, destination)` ids. Its CSR form is
//! an offset array `vertex` of length `N + 1` and a target array `edge`, where
//! the out-edges of vertex `i` are `edge[vertex[i] .. vertex[i + 1]]`.

use vstd::prelude::*;

verus! {

/// The edges are in non-decreasing order of source.
pub open spec fn sorted_by_src(e: Seq<(nat, nat)>) -> bool {
    forall|i: int, j: int| 0 <= i <= j < e.len() ==> #[trigger] e[i].0 <= #[trigger] e[j].0
}

pub open spec fn max_nat(a: nat, b: nat) -> nat {
    if a >= b { a } else { b }
}

/// The largest id named by any edge, as source or destination (0 when there is none).
pub open spec fn max_vertex_id(e: Seq<(nat, nat)>) -> nat
    decreases e.len(),
{
    if e.len() == 0 {
        0
    } else {
        max_nat(max_vertex_id(e.drop_last()), max_nat(e.last().0, e.last().1))
    }
}

/// Number of vertices of the graph that `e` describes: the largest id plus
/// one, or zero for no edges.
pub open spec fn vertex_count(e: Seq<(nat, nat)>) -> nat {
    if e.len() == 0 {
        0
    } else {
        max_vertex_id(e) + 1
    }
}

/// `o` is where the out-edges of vertex `i` start: the edges before it have
/// smaller sources, the edges from it on do not.
pub open spec fn is_offset_of(e: Seq<(nat, nat)>, i: nat, o: nat) -> bool {
    &&& o <= e.len()
    &&& forall|j: int| 0 <= j < o ==> #[trigger] e[j].0 < i
    &&& forall|j: int| o <= j < e.len() ==> #[trigger] e[j].0 >= i
}

/// The destinations of `e`, in order.
pub open spec fn targets_of(e: Seq<(nat, nat)>) -> Seq<nat> {
    e.map_values(|p: (nat, nat)| p.1)
}

/// `(vertex, edge)` is the CSR form of the edge list `e`.
pub open spec fn is_csr_of(e: Seq<(nat, nat)>, vertex: Seq<usize>, edge: Seq<nat>) -> bool {
    &&& vertex.len() == vertex_count(e) + 1
    &&& forall|i: int| 0 <= i < vertex.len() ==> is_offset_of(e, i as nat, #[trigger] vertex[i] as nat)
    &&& edge == targets_of(e)
}

/// The offset array is a valid prefix-sum index into `edge`, and every
/// target names a vertex.
pub open spec fn wf_csr(vertex: Seq<usize>, edge: Seq<nat>) -> bool {
    &&& vertex.len() >= 1
    &&& vertex[0] == 0
    &&& forall|i: int, k: int| 0 <= i <= k < vertex.len() ==> #[trigger] vertex[i] <= #[trigger] vertex[k]
    &&& vertex.last() == edge.len()
    &&& forall|j: int| 0 <= j < edge.len() ==> #[trigger] edge[j] < vertex.len() - 1
}

/// The out-edges of vertex `i`.
pub open spec fn out_edges_of(vertex: Seq<usize>, edge: Seq<nat>, i: int) -> Seq<nat> {
    edge.subrange(vertex[i] as int, vertex[i + 1] as int)
}

/// The edges met when enumerating vertices `0 .. k` and, for each, its
/// out-edges in order.
pub open spec fn enumerate(vertex: Seq<usize>, edge: Seq<nat>, k: nat) -> Seq<(nat, nat)>
    decreases k,
{
    if k == 0 {
        Seq::empty()
    } else {
        let i = (k - 1) as nat;
        enumerate(vertex, edge, i) + out_edges_of(vertex, edge, i as int).map_values(
            |d: nat| (i, d),
        )
    }
}

pub proof fn lemma_max_vertex_id_bounds(e: Seq<(nat, nat)>)
    ensures
        forall|j: int|
            0 <= j < e.len() ==> #[trigger] e[j].0 <= max_vertex_id(e) && e[j].1 <= max_vertex_id(
                e,
            ),
    decreases e.len(),
{
    if e.len() > 0 {
        lemma_max_vertex_id_bounds(e.drop_last());
        assert forall|j: int| 0 <= j < e.len() implies #[trigger] e[j].0 <= max_vertex_id(e)
            && e[j].1 <= max_vertex_id(e) by {
            if j < e.len() - 1 {
                assert(e[j] == e.drop_last()[j]);
            }
        }
    }
}

/// The CSR form of a sorted edge list is a well-formed CSR: offsets start at
/// zero, never decrease, end at the edge count, and every target is a vertex.
pub proof fn lemma_csr_is_wf(e: Seq<(nat, nat)>, vertex: Seq<usize>, edge: Seq<nat>)
    requires
        sorted_by_src(e),
        is_csr_of(e, vertex, edge),
    ensures
        wf_csr(vertex, edge),
{
    let n = vertex_count(e);
    lemma_max_vertex_id_bounds(e);
    assert(is_offset_of(e, 0, vertex[0] as nat));
    if vertex[0] > 0 {
        assert(e[0].0 < 0);
    }
    assert forall|i: int, k: int| 0 <= i <= k < vertex.len() implies #[trigger] vertex[i]
        <= #[trigger] vertex[k] by {
        assert(is_offset_of(e, i as nat, vertex[i] as nat));
        assert(is_offset_of(e, k as nat, vertex[k] as nat));
        if vertex[k] < vertex[i] {
            let j = vertex[k] as int;
            assert(e[j].0 < i);
            assert(e[j].0 >= k);
        }
    }
    assert(is_offset_of(e, n, vertex[n as int] as nat));
    if vertex[n as int] < e.len() {
        let j = vertex[n as int] as int;
        assert(e[j].0 >= n);
    }
    assert forall|j: int| 0 <= j < edge.len() implies #[trigger] edge[j] < vertex.len() - 1 by {
        assert(edge[j] == e[j].1);
        assert(e[j].0 <= max_vertex_id(e));
    }
}

/// Enumerating the first `k` vertices of the CSR form of `e` yields the
/// edges of `e` with a source below `k`, in their input order.
pub proof fn lemma_enumerate_prefix(
    e: Seq<(nat, nat)>,
    vertex: Seq<usize>,
    edge: Seq<nat>,
    k: nat,
)
    requires
        sorted_by_src(e),
        is_csr_of(e, vertex, edge),
        k < vertex.len(),
    ensures
        enumerate(vertex, edge, k) == e.take(vertex[k as int] as int),
    decreases k,
{
    lemma_csr_is_wf(e, vertex, edge);
    if k == 0 {
        assert(e.take(0) =~= Seq::<(nat, nat)>::empty());
    } else {
        let i = (k - 1) as nat;
        lemma_enumerate_prefix(e, vertex, edge, i);
        let lo = vertex[i as int] as int;
        let hi = vertex[k as int] as int;
        assert(is_offset_of(e, i, lo as nat));
        assert(is_offset_of(e, k, hi as nat));
        let part = out_edges_of(vertex, edge, i as int).map_values(|d: nat| (i, d));
        assert(part =~= e.subrange(lo, hi)) by {
            assert forall|j: int| 0 <= j < hi - lo implies part[j] == e.subrange(lo, hi)[j] by {
                assert(e[lo + j].0 >= i);
                assert(e[lo + j].0 < k);
                assert(edge[lo + j] == e[lo + j].1);
            }
        }
        assert(e.take(lo) + e.subrange(lo, hi) =~= e.take(hi));
    }
}

/// Enumerating every vertex of the CSR form of a sorted edge list yields
/// exactly the input edges: the same multiset, and for each source the same
/// order.
pub proof fn lemma_enumeration_is_input(e: Seq<(nat, nat)>, vertex: Seq<usize>, edge: Seq<nat>)
    requires
        sorted_by_src(e),
        is_csr_of(e, vertex, edge),
    ensures
        enumerate(vertex, edge, vertex_count(e)) == e,
        enumerate(vertex, edge, vertex_count(e)).to_multiset() == e.to_multiset(),
{
    let n = vertex_count(e);
    lemma_csr_is_wf(e, vertex, edge);
    lemma_enumerate_prefix(e, vertex, edge, n);
    assert(e.take(e.len() as int) =~= e);
}

/// The edges of `e` whose source is `src`, in input order.
pub open spec fn edges_from(e: Seq<(nat, nat)>, src: nat) -> Seq<(nat, nat)> {
    e.filter(|p: (nat, nat)| p.0 == src)
}

proof fn lemma_filter_keeps_all(x: Seq<(nat, nat)>, src: nat)
    requires
        forall|j: int| 0 <= j < x.len() ==> (#[trigger] x[j]).0 == src,
    ensures
        edges_from(x, src) == x,
    decreases x.len(),
{
    reveal(Seq::filter);
    if x.len() > 0 {
        lemma_filter_keeps_all(x.drop_last(), src);
        assert(x.drop_last().push(x.last()) =~= x);
    }
}

proof fn lemma_filter_keeps_none(x: Seq<(nat, nat)>, src: nat)
    requires
        forall|j: int| 0 <= j < x.len() ==> (#[trigger] x[j]).0 != src,
    ensures
        edges_from(x, src) == Seq::<(nat, nat)>::empty(),
    decreases x.len(),
{
    reveal(Seq::filter);
    if x.len() > 0 {
        lemma_filter_keeps_none(x.drop_last(), src);
    }
}

/// In the CSR form of a sorted edge list, the out-edges of vertex `src` are
/// the destinations of the input edges with source `src`, in input order;
/// those edges are exactly the block `vertex[src] .. vertex[src + 1int]` of the
/// input. A vertex without out-edges gets an empty slice.
pub proof fn lemma_out_edges_are_source_edges(
    e: Seq<(nat, nat)>,
    vertex: Seq<usize>,
    edge: Seq<nat>,
    src: nat,
)
    requires
        sorted_by_src(e),
        is_csr_of(e, vertex, edge),
        src < vertex_count(e),
    ensures
        out_edges_of(vertex, edge, src as int) == targets_of(edges_from(e, src)),
        forall|j: int|
            0 <= j < e.len() ==> ((#[trigger] e[j]).0 == src <==> vertex[src as int] <= j
                < vertex[src + 1int]),
{
    lemma_csr_is_wf(e, vertex, edge);
    let lo = vertex[src as int] as int;
    let hi = vertex[src + 1int] as int;
    assert(is_offset_of(e, src, lo as nat));
    assert(is_offset_of(e, src + 1, hi as nat));
    let a = e.take(lo);
    let b = e.subrange(lo, hi);
    let c = e.skip(hi);
    assert(e =~= a + b + c);
    assert forall|j: int| 0 <= j < a.len() implies (#[trigger] a[j]).0 != src by {
        assert(a[j] == e[j]);
    }
    assert forall|j: int| 0 <= j < b.len() implies (#[trigger] b[j]).0 == src by {
        assert(b[j] == e[lo + j]);
    }
    assert forall|j: int| 0 <= j < c.len() implies (#[trigger] c[j]).0 != src by {
        assert(c[j] == e[hi + j]);
    }
    lemma_filter_keeps_none(a, src);
    lemma_filter_keeps_all(b, src);
    lemma_filter_keeps_none(c, src);
    let pred = |p: (nat, nat)| p.0 == src;
    Seq::filter_distributes_over_add(a + b, c, pred);
    Seq::filter_distributes_over_add(a, b, pred);
    assert(edges_from(e, src) =~= b);
    assert(out_edges_of(vertex, edge, src as int) =~= targets_of(b));
}

} // verus!
