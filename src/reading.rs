//! Building the CSR form of a sorted edge stream.
//!
//! [`CsrBuilder`] consumes the edges one at a time and says, for each, which
//! offsets to append to the vertex array; it keeps three numbers of state, so
//! a driver can stream arbitrarily large inputs straight to disk.
//! [`from_adjacency_list`] drives it over an edge list held in memory.

use std::marker::PhantomData;

use vstd::prelude::*;
use vstd::slice::slice_subrange;

use crate::csr::{
    is_csr_of, lemma_csr_is_wf, max_nat, max_vertex_id, sorted_by_src, targets_of, vertex_count,
    wf_csr,
};
use crate::error::GraphError;
use crate::util::ValidGraphType;

verus! {

/// The ids of an edge list.
pub open spec fn edge_ids<N: ValidGraphType>(s: Seq<(N, N)>) -> Seq<(nat, nat)> {
    s.map_values(|p: (N, N)| (p.0.id(), p.1.id()))
}

/// The ids of a list of vertices.
pub open spec fn vertex_ids<N: ValidGraphType>(s: Seq<N>) -> Seq<nat> {
    s.map_values(|x: N| x.id())
}

/// `count` copies of `value`.
pub open spec fn repeat(value: usize, count: nat) -> Seq<usize> {
    Seq::new(count, |_i: int| value)
}

/// An instruction to append `count` copies of `value` to the vertex array.
#[derive(Debug, Clone, Copy, PartialEq, Eq, Structural)]
pub struct Offsets {
    pub count: usize,
    pub value: usize,
}

/// State of a single streaming pass that turns a sorted edge list into CSR.
///
/// The vertex array starts as the single offset `0`; after each accepted
/// edge the driver appends the edge's destination to the edge array and the
/// offsets that [`push_edge`](Self::push_edge) returns to the vertex array;
/// at the end it appends those that [`finish`](Self::finish) returns.
pub struct CsrBuilder {
    prev_src: usize,
    edges_count: usize,
    max_dst: usize,
    edges: Ghost<Seq<(nat, nat)>>,
    emitted: Ghost<Seq<usize>>,
}

impl CsrBuilder {
    /// The edges accepted so far.
    pub closed spec fn edges(&self) -> Seq<(nat, nat)> {
        self.edges@
    }

    /// The offsets the driver has been told to write so far.
    pub closed spec fn emitted(&self) -> Seq<usize> {
        self.emitted@
    }

    /// Source of the last accepted edge, or 0 before the first.
    pub open spec fn last_src(&self) -> nat {
        if self.edges().len() == 0 {
            0
        } else {
            self.edges().last().0
        }
    }

    /// Whether `(src, dst)` can follow the edges accepted so far.
    pub open spec fn accepts(&self, src: nat, dst: nat) -> bool {
        &&& src >= self.last_src()
        &&& src < usize::MAX
        &&& dst < usize::MAX
        &&& self.edges().len() < usize::MAX
    }

    pub closed spec fn wf(&self) -> bool {
        let e = self.edges@;
        &&& sorted_by_src(e)
        &&& self.edges_count == e.len()
        &&& self.prev_src == self.last_src()
        &&& forall|j: int| 0 <= j < e.len() ==> #[trigger] e[j].0 < usize::MAX && e[j].1 < usize::MAX
        &&& e.len() > 0 ==> max_nat(self.prev_src as nat, self.max_dst as nat) == max_vertex_id(e)
        &&& e.len() == 0 ==> self.max_dst == 0
        &&& self.max_dst < usize::MAX
        &&& self.emitted@.len() == self.prev_src + 1
        &&& forall|i: int|
            0 <= i < self.emitted@.len() ==> crate::csr::is_offset_of(
                e,
                i as nat,
                #[trigger] self.emitted@[i] as nat,
            )
    }

    /// A builder that has seen no edge; the vertex array holds the offset `0`.
    pub fn new() -> (r: CsrBuilder)
        ensures
            r.wf(),
            r.edges() == Seq::<(nat, nat)>::empty(),
            r.emitted() == seq![0usize],
    {
        CsrBuilder {
            prev_src: 0,
            edges_count: 0,
            max_dst: 0,
            edges: Ghost(Seq::empty()),
            emitted: Ghost(Seq::empty().push(0usize)),
        }
    }

    /// Takes the next edge of the stream. On success the driver appends
    /// `dst` to the edge array, then the returned offsets to the vertex
    /// array: one for each vertex after the previous source up to `src`.
    /// An edge whose source is smaller than the previous one, or whose ids
    /// do not fit the platform's index type, is refused and changes nothing.
    pub fn push_edge<N: ValidGraphType>(&mut self, src: N, dst: N) -> (r: Result<
        Offsets,
        GraphError,
    >)
        requires
            old(self).wf(),
        ensures
            final(self).wf(),
            r is Ok <==> old(self).accepts(src.id(), dst.id()),
            r matches Ok(o) ==> {
                &&& o.value == old(self).edges().len()
                &&& o.count == src.id() - old(self).last_src()
                &&& final(self).edges() == old(self).edges().push((src.id(), dst.id()))
                &&& final(self).emitted() == old(self).emitted() + repeat(o.value, o.count as nat)
            },
            r matches Err(err) ==> err == GraphError::ParseError && *final(self) == *old(self),
    {
        let s = match src.to_index() {
            Some(s) => s,
            None => {
                return Err(GraphError::ParseError);
            },
        };
        let d = match dst.to_index() {
            Some(d) => d,
            None => {
                return Err(GraphError::ParseError);
            },
        };
        if s == usize::MAX || d == usize::MAX || s < self.prev_src || self.edges_count
            == usize::MAX {
            return Err(GraphError::ParseError);
        }
        let ghost e = self.edges@;
        let ghost new_e = e.push((s as nat, d as nat));
        let o = Offsets { count: s - self.prev_src, value: self.edges_count };
        proof {
            assert forall|i: int, j: int| 0 <= i <= j < new_e.len() implies #[trigger] new_e[i].0
                <= #[trigger] new_e[j].0 by {
                if j == e.len() {
                    if i < e.len() {
                        assert(e[i].0 <= e[e.len() - 1].0);
                    }
                } else {
                    assert(new_e[i] == e[i] && new_e[j] == e[j]);
                }
            }
            assert(new_e.drop_last() == e);
            assert(max_vertex_id(new_e) == max_nat(max_vertex_id(e), max_nat(s as nat, d as nat)));
            if e.len() == 0 {
                assert(max_vertex_id(e) == 0);
            }
            let new_emitted = self.emitted@ + repeat(o.value, o.count as nat);
            assert forall|i: int| 0 <= i < new_emitted.len() implies crate::csr::is_offset_of(
                new_e,
                i as nat,
                #[trigger] new_emitted[i] as nat,
            ) by {
                if i < self.emitted@.len() {
                    assert(new_emitted[i] == self.emitted@[i]);
                    assert(crate::csr::is_offset_of(e, i as nat, self.emitted@[i] as nat));
                    assert forall|j: int| 0 <= j < self.emitted@[i] implies #[trigger] new_e[j].0
                        < i by {
                        assert(new_e[j] == e[j]);
                    }
                    assert forall|j: int| self.emitted@[i] <= j < new_e.len() implies #[trigger] new_e[j].0
                        >= i by {
                        if j < e.len() {
                            assert(new_e[j] == e[j]);
                        }
                    }
                } else {
                    assert(new_emitted[i] == o.value);
                    assert forall|j: int| 0 <= j < o.value implies #[trigger] new_e[j].0 < i by {
                        assert(new_e[j] == e[j]);
                        if e.len() > 0 {
                            assert(e[j].0 <= e[e.len() - 1].0);
                        }
                    }
                }
            }
        }
        self.prev_src = s;
        if self.max_dst < d {
            self.max_dst = d;
        }
        self.edges_count = self.edges_count + 1;
        self.edges = Ghost(new_e);
        self.emitted = Ghost(self.emitted@ + repeat(o.value, o.count as nat));
        Ok(o)
    }

    /// Ends the stream: the offsets that close the vertex array, one for
    /// each vertex after the last source up to the largest id, and the final
    /// sentinel. With them the two arrays are the CSR form of the edges.
    pub fn finish(&self) -> (r: Offsets)
        requires
            self.wf(),
        ensures
            r.value == self.edges().len(),
            sorted_by_src(self.edges()),
            is_csr_of(
                self.edges(),
                self.emitted() + repeat(r.value, r.count as nat),
                targets_of(self.edges()),
            ),
    {
        let ghost e = self.edges@;
        let count = if self.edges_count == 0 {
            0
        } else if self.prev_src < self.max_dst {
            self.max_dst + 1 - self.prev_src
        } else {
            1
        };
        let r = Offsets { count, value: self.edges_count };
        proof {
            let all = self.emitted@ + repeat(r.value, r.count as nat);
            crate::csr::lemma_max_vertex_id_bounds(e);
            assert forall|i: int| 0 <= i < all.len() implies crate::csr::is_offset_of(
                e,
                i as nat,
                #[trigger] all[i] as nat,
            ) by {
                if i < self.emitted@.len() {
                    assert(all[i] == self.emitted@[i]);
                } else {
                    assert(all[i] == e.len());
                    assert forall|j: int| 0 <= j < e.len() implies #[trigger] e[j].0 < i by {
                        assert(e[j].0 <= e[e.len() - 1].0);
                    }
                }
            }
        }
        r
    }
}

/// The contents of the two CSR files: the offset array and the target array.
pub struct GraphFiles<N> {
    vertex: Vec<usize>,
    edge: Vec<N>,
}

impl<N: ValidGraphType> GraphFiles<N> {
    /// The offset array.
    pub closed spec fn vertex_view(&self) -> Seq<usize> {
        self.vertex@
    }

    /// The target array.
    pub closed spec fn edge_view(&self) -> Seq<N> {
        self.edge@
    }

    /// The offsets, as stored in `vertex.csr`.
    pub fn vertex(&self) -> (r: &[usize])
        ensures
            r@ == self.vertex_view(),
    {
        self.vertex.as_slice()
    }

    /// The targets, as stored in `edge.csr`.
    pub fn edge(&self) -> (r: &[N])
        ensures
            r@ == self.edge_view(),
    {
        self.edge.as_slice()
    }

    /// Number of vertices.
    pub fn n_nodes(&self) -> (r: usize)
        requires
            wf_csr(self.vertex_view(), vertex_ids(self.edge_view())),
        ensures
            r == self.vertex_view().len() - 1,
    {
        self.vertex.len() - 1
    }
}

/// Builds the CSR form of `stream`, whose edges must be in non-decreasing
/// order of source. Fails with `ParseError` when they are not, or when an id
/// does not fit the platform's index type.
pub fn from_adjacency_list<N: ValidGraphType>(stream: &Vec<(N, N)>) -> (r: Result<
    GraphFiles<N>,
    GraphError,
>)
    ensures
        r is Ok <==> {
            &&& sorted_by_src(edge_ids(stream@))
            &&& forall|j: int|
                0 <= j < stream@.len() ==> (#[trigger] stream@[j]).0.id() < usize::MAX
                    && stream@[j].1.id() < usize::MAX
        },
        r matches Ok(files) ==> {
            &&& is_csr_of(
                edge_ids(stream@),
                files.vertex_view(),
                vertex_ids(files.edge_view()),
            )
            &&& wf_csr(files.vertex_view(), vertex_ids(files.edge_view()))
            &&& files.edge_view() == stream@.map_values(|p: (N, N)| p.1)
        },
        r matches Err(err) ==> err == GraphError::ParseError,
{
    let ghost ids = edge_ids(stream@);
    let mut builder = CsrBuilder::new();
    let mut vertex: Vec<usize> = Vec::new();
    vertex.push(0);
    let mut edge: Vec<N> = Vec::new();
    let mut k: usize = 0;
    while k < stream.len()
        invariant
            0 <= k <= stream@.len(),
            ids == edge_ids(stream@),
            builder.wf(),
            builder.edges() == ids.take(k as int),
            builder.emitted() == vertex@,
            edge@ == stream@.take(k as int).map_values(|p: (N, N)| p.1),
            forall|j: int|
                0 <= j < k ==> (#[trigger] stream@[j]).0.id() < usize::MAX && stream@[j].1.id()
                    < usize::MAX,
        decreases stream@.len() - k,
    {
        let (src, dst) = stream[k];
        let ghost before = builder;
        match builder.push_edge(src, dst) {
            Ok(o) => {
                let mut c: usize = 0;
                while c < o.count
                    invariant
                        0 <= c <= o.count,
                        vertex@ == before.emitted() + repeat(o.value, c as nat),
                    decreases o.count - c,
                {
                    vertex.push(o.value);
                    c = c + 1;
                    assert(vertex@ =~= before.emitted() + repeat(o.value, c as nat));
                }
                edge.push(dst);
            },
            Err(err) => {
                proof {
                    if sorted_by_src(ids) {
                        if k > 0 {
                            assert(ids[k - 1] == ids.take(k as int)[k - 1]);
                            assert(ids[k - 1].0 <= ids[k as int].0);
                        }
                    }
                }
                return Err(err);
            },
        }
        proof {
            assert(ids.take(k + 1) =~= ids.take(k as int).push(ids[k as int]));
            assert(stream@.take(k + 1).map_values(|p: (N, N)| p.1) =~= stream@.take(
                k as int,
            ).map_values(|p: (N, N)| p.1).push(dst));
        }
        k = k + 1;
    }
    let o = builder.finish();
    let ghost before = vertex@;
    let mut c: usize = 0;
    while c < o.count
        invariant
            0 <= c <= o.count,
            vertex@ == before + repeat(o.value, c as nat),
        decreases o.count - c,
    {
        vertex.push(o.value);
        c = c + 1;
        assert(vertex@ =~= before + repeat(o.value, c as nat));
    }
    proof {
        assert(ids.take(stream@.len() as int) =~= ids);
        assert(stream@.take(stream@.len() as int) =~= stream@);
        assert(vertex_ids(edge@) =~= targets_of(ids));
        lemma_csr_is_wf(ids, vertex@, vertex_ids(edge@));
    }
    Ok(GraphFiles { vertex, edge })
}

/// Decodes a binary edge list: consecutive `(src, dst)` records, each id in
/// the host-endian fixed-width byte form of `T`. A trailing partial record
/// is ignored.
pub struct ReaderIterator<T> {
    buffer: Vec<u8>,
    pos: usize,
    _phantom: PhantomData<T>,
}

/// Decodes one `(src, dst)` record from its first `2 * size` bytes, each id
/// in host-endian order.
pub fn decode_pair<T: ValidGraphType>(record: &[u8]) -> (r: (T, T))
    requires
        record@.len() >= 2 * T::byte_len(),
    ensures
        T::is_bytes_of(r.0, record@.subrange(0, T::byte_len() as int)),
        T::is_bytes_of(r.1, record@.subrange(T::byte_len() as int, 2 * T::byte_len() as int)),
{
    let k = T::size();
    proof {
        T::lemma_widths();
    }
    let first = slice_subrange(record, 0, k);
    let second = slice_subrange(record, k, 2 * k);
    let a = T::from_bytes(first);
    let b = T::from_bytes(second);
    assert(first@.take(k as int) =~= record@.subrange(0, k as int));
    assert(second@.take(k as int) =~= record@.subrange(k as int, 2 * k as int));
    (a, b)
}

/// A decoder over the bytes of a binary edge list.
pub fn reader_to_iter<T: ValidGraphType>(reader: Vec<u8>) -> (r: ReaderIterator<T>)
    ensures
        r.bytes() == reader@,
        r.position() == 0,
{
    ReaderIterator { buffer: reader, pos: 0, _phantom: PhantomData }
}

impl<T: ValidGraphType> ReaderIterator<T> {
    /// The whole input.
    pub closed spec fn bytes(&self) -> Seq<u8> {
        self.buffer@
    }

    /// Where the next record starts.
    pub closed spec fn position(&self) -> nat {
        self.pos as nat
    }

    /// The next record, or `None` when fewer than `2 * size` bytes remain.
    pub fn next(&mut self) -> (r: Option<(T, T)>)
        ensures
            final(self).bytes() == old(self).bytes(),
            ({
                let p = old(self).position() as int;
                let k = T::byte_len() as int;
                if p + 2 * k <= old(self).bytes().len() {
                    &&& final(self).position() == p + 2 * k
                    &&& r matches Some((a, b)) && T::is_bytes_of(
                        a,
                        old(self).bytes().subrange(p, p + k),
                    ) && T::is_bytes_of(b, old(self).bytes().subrange(p + k, p + 2 * k))
                } else {
                    &&& r is None
                    &&& final(self).position() == p
                }
            }),
    {
        let k = T::size();
        proof {
            T::lemma_widths();
        }
        if self.pos > self.buffer.len() || self.buffer.len() - self.pos < 2 * k {
            return None;
        }
        let all = self.buffer.as_slice();
        let record = slice_subrange(all, self.pos, self.pos + 2 * k);
        let r = decode_pair::<T>(record);
        assert(record@.subrange(0, k as int) =~= old(self).bytes().subrange(
            self.pos as int,
            self.pos + k,
        ));
        assert(record@.subrange(k as int, 2 * k as int) =~= old(self).bytes().subrange(
            self.pos + k,
            self.pos + 2 * k,
        ));
        self.pos = self.pos + 2 * k;
        Some(r)
    }
}

} // verus!
