//! The double-buffered vertex-centric compute engine.
//!
//! Each vertex has an activity flag and a data value, each kept twice: the
//! `old` buffers hold the last completed iteration and are only read during
//! a sweep, the `new` buffers collect the next one. [`ComputeGraph::push`]
//! relaxes the out-edges of every active vertex into the `new` buffers and
//! [`ComputeGraph::step`] installs them as the next `old` state.

use vstd::prelude::*;

use rayon::iter::{
    IndexedParallelIterator, IntoParallelRefIterator, IntoParallelRefMutIterator,
    ParallelIterator,
};

use crate::csr::wf_csr;
use crate::graph::Graph;
use crate::util::{GraphData, ValidGraphType};

verus! {

/// The four per-vertex buffers of the engine.
pub struct EngineState<D> {
    pub old_active: Seq<bool>,
    pub new_active: Seq<bool>,
    pub old_data: Seq<D>,
    pub new_data: Seq<D>,
}

/// Number of `true` entries.
pub open spec fn count_true(s: Seq<bool>) -> nat
    decreases s.len(),
{
    if s.len() == 0 {
        0
    } else {
        count_true(s.drop_last()) + if s.last() {
            1nat
        } else {
            0nat
        }
    }
}

/// `n` copies of `x`.
pub open spec fn filled<A>(n: nat, x: A) -> Seq<A> {
    Seq::new(n, |_i: int| x)
}

/// The state after the iteration barrier: the `new` buffers become the
/// `old` ones, the `new` flags are cleared and the `new` data restarts from
/// the installed values.
pub open spec fn spec_step<D>(s: EngineState<D>) -> EngineState<D> {
    EngineState {
        old_active: s.new_active,
        new_active: filled(s.new_active.len(), false),
        old_data: s.new_data,
        new_data: s.new_data,
    }
}

/// `f` accepts every pair of values.
pub open spec fn accepts_all<D, F: Fn(D, D) -> (D, bool)>(f: F) -> bool {
    forall|a: D, b: D| #[trigger] f.requires((a, b))
}

/// `rel` says what `f` returns: on `(a, b)` it gives the new value of the
/// destination and whether to activate it.
pub open spec fn describes<D, F: Fn(D, D) -> (D, bool)>(
    f: F,
    rel: spec_fn(D, D) -> (D, bool),
) -> bool {
    forall|a: D, b: D, r: (D, bool)| #[trigger] f.ensures((a, b), r) ==> r == rel(a, b)
}

/// `f` never raises the destination's value.
pub open spec fn is_monotone<D: GraphData, F: Fn(D, D) -> (D, bool)>(f: F) -> bool {
    forall|a: D, b: D, r: (D, bool)| #[trigger] f.ensures((a, b), r) ==> r.0.le(b)
}

/// Each value of `a` is at most the value of `b` at the same index.
pub open spec fn data_le<D: GraphData>(a: Seq<D>, b: Seq<D>) -> bool {
    &&& a.len() == b.len()
    &&& forall|d: int| 0 <= d < a.len() ==> #[trigger] a[d].le(b[d])
}

/// Vertex `d` is the target of an edge numbered below `bound` whose source
/// is active.
pub open spec fn is_target_below(
    offsets: Seq<usize>,
    targets: Seq<nat>,
    active: Seq<bool>,
    bound: int,
    d: int,
) -> bool {
    exists|i: int, j: int|
        #![trigger active[i], targets[j]]
        0 <= i < offsets.len() - 1 && active[i] && offsets[i] <= j < offsets[i + 1] && j < bound
            && targets[j] == d
}

/// Vertex `d` is the target of an out-edge of an active vertex.
pub open spec fn is_active_target(
    offsets: Seq<usize>,
    targets: Seq<nat>,
    active: Seq<bool>,
    d: int,
) -> bool {
    exists|i: int, j: int|
        #![trigger active[i], targets[j]]
        0 <= i < offsets.len() - 1 && active[i] && offsets[i] <= j < offsets[i + 1]
            && targets[j] == d
}

/// Outside the targets of active edges numbered below `bound`, the `new`
/// buffers still hold what they held in `s`.
#[verifier::opaque]
pub open spec fn unchanged_off_targets<D>(
    data: Seq<D>,
    act: Seq<bool>,
    s: EngineState<D>,
    offsets: Seq<usize>,
    targets: Seq<nat>,
    bound: int,
) -> bool {
    forall|d: int|
        #![trigger data[d]]
        #![trigger act[d]]
        0 <= d < s.new_data.len() && !is_target_below(offsets, targets, s.old_active, bound, d)
            ==> data[d] == s.new_data[d] && act[d] == s.new_active[d]
}

proof fn lemma_unchanged_at<D>(
    data: Seq<D>,
    act: Seq<bool>,
    s: EngineState<D>,
    offsets: Seq<usize>,
    targets: Seq<nat>,
    bound: int,
    d: int,
)
    requires
        unchanged_off_targets(data, act, s, offsets, targets, bound),
        0 <= d < s.new_data.len(),
        !is_target_below(offsets, targets, s.old_active, bound, d),
    ensures
        data[d] == s.new_data[d],
        act[d] == s.new_active[d],
{
    reveal(unchanged_off_targets);
}

/// Relaxing, with source value `v`, the edges `lo .. hi` of the target
/// array onto the `new` data and flags, one edge after the other.
pub open spec fn relax_edges<D>(
    rel: spec_fn(D, D) -> (D, bool),
    targets: Seq<nat>,
    v: D,
    data: Seq<D>,
    active: Seq<bool>,
    lo: int,
    hi: int,
) -> (Seq<D>, Seq<bool>)
    decreases hi - lo,
{
    if hi <= lo {
        (data, active)
    } else {
        let prev = relax_edges(rel, targets, v, data, active, lo, hi - 1);
        let t = targets[hi - 1] as int;
        let r = rel(v, prev.0[t]);
        (prev.0.update(t, r.0), if r.1 {
            prev.1.update(t, true)
        } else {
            prev.1
        })
    }
}

/// The `new` data and flags after the active vertices among `0 .. k` have
/// relaxed their out-edges, in order of id.
pub open spec fn push_upto<D>(
    rel: spec_fn(D, D) -> (D, bool),
    offsets: Seq<usize>,
    targets: Seq<nat>,
    s: EngineState<D>,
    k: nat,
) -> (Seq<D>, Seq<bool>)
    decreases k,
{
    if k == 0 {
        (s.new_data, s.new_active)
    } else {
        let i = k - 1;
        let prev = push_upto(rel, offsets, targets, s, i as nat);
        if s.old_active[i] {
            relax_edges(
                rel,
                targets,
                s.old_data[i],
                prev.0,
                prev.1,
                offsets[i] as int,
                offsets[i + 1] as int,
            )
        } else {
            prev
        }
    }
}

/// The state after one relaxation sweep over the graph `(offsets, targets)`.
pub open spec fn spec_push<D>(
    rel: spec_fn(D, D) -> (D, bool),
    offsets: Seq<usize>,
    targets: Seq<nat>,
    s: EngineState<D>,
) -> EngineState<D> {
    let r = push_upto(rel, offsets, targets, s, (offsets.len() - 1) as nat);
    EngineState {
        old_active: s.old_active,
        new_active: r.1,
        old_data: s.old_data,
        new_data: r.0,
    }
}

/// Relies on rayon's parallel `filter` and `count`: the number of `true`
/// entries of `v`.
#[verifier::external_body]
fn par_count_true(v: &Vec<bool>) -> (r: usize)
    ensures
        r == count_true(v@),
{
    v.par_iter().filter(|x| **x).count()
}

/// Stores `x` in `*a`.
fn assign<A: Copy>(a: &mut A, x: A)
    ensures
        *final(a) == x,
{
    *a = x;
}

/// Relies on rayon's parallel `for_each` over `par_iter_mut`: every entry
/// of `v` is set to `x`.
#[verifier::external_body]
fn par_fill<A: Copy + Send + Sync>(v: &mut Vec<A>, x: A)
    ensures
        final(v)@ == filled(old(v)@.len(), x),
{
    v.par_iter_mut().for_each(|a| assign(a, x));
}

/// Relies on rayon's parallel `zip` and `for_each`: every entry of `src` is
/// copied into the entry of `dst` at the same index.
#[verifier::external_body]
fn par_copy<A: Copy + Send + Sync>(dst: &mut Vec<A>, src: &Vec<A>)
    requires
        old(dst)@.len() == src@.len(),
    ensures
        final(dst)@ == src@,
{
    dst.par_iter_mut().zip(src.par_iter()).for_each(|(x, y)| assign(x, *y));
}

/// A vector of `n` copies of `x`.
fn vec_of<A: Copy>(n: usize, x: A) -> (r: Vec<A>)
    ensures
        r@ == filled(n as nat, x),
{
    let mut r: Vec<A> = Vec::new();
    let mut i: usize = 0;
    while i < n
        invariant
            0 <= i <= n,
            r@ == filled(i as nat, x),
        decreases n - i,
    {
        r.push(x);
        i = i + 1;
        assert(r@ =~= filled(i as nat, x));
    }
    r
}

/// The minimum update of `cur` by the candidate `v`: `v` replaces `cur`
/// when it is strictly smaller, and the change is reported.
pub open spec fn min_update<D: GraphData>(v: D, cur: D) -> (D, bool) {
    if v.le(cur) && v != cur {
        (v, true)
    } else {
        (cur, false)
    }
}

/// The canonical monotone relaxation: lowers `dst_val` to
/// `value(src_val)` when that is smaller. Returns the destination's new
/// value and whether it changed.
pub fn atomic_min<D: GraphData, F: Fn(D) -> D>(src_val: D, dst_val: D, value: F) -> (r: (D, bool))
    requires
        value.requires((src_val,)),
    ensures
        exists|v: D| #[trigger] value.ensures((src_val,), v) && r == min_update(v, dst_val),
        r.0.le(dst_val),
{
    let v = value(src_val);
    proof {
        D::lemma_reflexive(dst_val);
    }
    if v.less_than(&dst_val) {
        (v, true)
    } else {
        (dst_val, false)
    }
}

/// `b` is the concatenated byte forms of the values of `data`, in order.
pub open spec fn is_data_dump<D: GraphData>(data: Seq<D>, b: Seq<u8>) -> bool
    decreases data.len(),
{
    if data.len() == 0 {
        b.len() == 0
    } else {
        let k = D::byte_len();
        &&& b.len() >= k
        &&& is_data_dump(data.drop_last(), b.take(b.len() - k))
        &&& D::is_bytes_of(data.last(), b.skip(b.len() - k))
    }
}

/// The compute abstraction over a graph: per-vertex data of type
/// `DataType` and activity flags, each double-buffered.
pub struct ComputeGraph<'a, T, DataType> {
    graph: &'a Graph<'a, T>,
    old_active: Vec<bool>,
    new_active: Vec<bool>,
    old_data: Vec<DataType>,
    new_data: Vec<DataType>,
}

impl<'a, T: ValidGraphType, DataType: GraphData + Send + Sync> ComputeGraph<'a, T, DataType> {
    /// The four buffers.
    pub closed spec fn state(&self) -> EngineState<DataType> {
        EngineState {
            old_active: self.old_active@,
            new_active: self.new_active@,
            old_data: self.old_data@,
            new_data: self.new_data@,
        }
    }

    /// The graph the engine runs on.
    pub closed spec fn graph(&self) -> Graph<'a, T> {
        *self.graph
    }

    /// Number of vertices.
    pub open spec fn n(&self) -> nat {
        self.graph().spec_n_nodes()
    }

    pub open spec fn wf(&self) -> bool {
        &&& self.graph().wf()
        &&& self.state().old_active.len() == self.n()
        &&& self.state().new_active.len() == self.n()
        &&& self.state().old_data.len() == self.n()
        &&& self.state().new_data.len() == self.n()
    }

    /// An engine over `graph` with every flag `false` and every value the
    /// default one.
    pub fn new(graph: &'a Graph<'a, T>) -> (r: Self)
        requires
            graph.wf(),
        ensures
            r.wf(),
            r.graph() == *graph,
            r.state().old_active == filled(graph.spec_n_nodes(), false),
            r.state().new_active == filled(graph.spec_n_nodes(), false),
            r.state().old_data == filled(graph.spec_n_nodes(), DataType::spec_default()),
            r.state().new_data == filled(graph.spec_n_nodes(), DataType::spec_default()),
    {
        let n = graph.n_nodes();
        ComputeGraph {
            graph,
            old_active: vec_of(n, false),
            new_active: vec_of(n, false),
            old_data: vec_of(n, DataType::default_value()),
            new_data: vec_of(n, DataType::default_value()),
        }
    }

    /// Sets whether vertex `idx` is active in the next iteration.
    pub fn set_active(&mut self, idx: usize, status: bool)
        requires
            old(self).wf(),
            idx < old(self).n(),
        ensures
            final(self).wf(),
            final(self).graph() == old(self).graph(),
            final(self).state() == (EngineState {
                new_active: old(self).state().new_active.update(idx as int, status),
                ..old(self).state()
            }),
    {
        self.new_active.set(idx, status);
    }

    /// Sets the data of vertex `idx` for the next iteration.
    pub fn set_data(&mut self, idx: usize, data: DataType)
        requires
            old(self).wf(),
            idx < old(self).n(),
        ensures
            final(self).wf(),
            final(self).graph() == old(self).graph(),
            final(self).state() == (EngineState {
                new_data: old(self).state().new_data.update(idx as int, data),
                ..old(self).state()
            }),
    {
        self.new_data.set(idx, data);
    }

    /// Sets whether every vertex is active in the next iteration.
    pub fn fill_active(&mut self, status: bool)
        requires
            old(self).wf(),
        ensures
            final(self).wf(),
            final(self).graph() == old(self).graph(),
            final(self).state() == (EngineState {
                new_active: filled(old(self).n(), status),
                ..old(self).state()
            }),
    {
        par_fill(&mut self.new_active, status);
    }

    /// Sets the data of every vertex for the next iteration.
    pub fn fill_data(&mut self, data: DataType)
        requires
            old(self).wf(),
        ensures
            final(self).wf(),
            final(self).graph() == old(self).graph(),
            final(self).state() == (EngineState {
                new_data: filled(old(self).n(), data),
                ..old(self).state()
            }),
    {
        par_fill(&mut self.new_data, data);
    }

    /// The global iteration barrier: installs the `new` buffers as the
    /// `old` ones, clears the `new` flags and restarts the `new` data from
    /// the installed values.
    pub fn step(&mut self)
        requires
            old(self).wf(),
        ensures
            final(self).wf(),
            final(self).graph() == old(self).graph(),
            final(self).state() == spec_step(old(self).state()),
    {
        std::mem::swap(&mut self.old_active, &mut self.new_active);
        std::mem::swap(&mut self.old_data, &mut self.new_data);
        par_fill(&mut self.new_active, false);
        par_copy(&mut self.new_data, &self.old_data);
    }

    /// Number of vertices active in the last iteration.
    pub fn n_active(&self) -> (r: usize)
        requires
            self.wf(),
        ensures
            r == count_true(self.state().old_active),
    {
        par_count_true(&self.old_active)
    }

    /// One relaxation sweep: for every vertex `i` active in the last
    /// iteration, in order of id, and every out-edge `i -> d` in order,
    /// `func(old_data[i], new_data[d])` gives the new value of `new_data[d]`
    /// and whether to mark `d` active in the next iteration. The `old`
    /// buffers are only read.
    pub fn push<F>(&mut self, func: F)
        where
            F: Fn(DataType, DataType) -> (DataType, bool),
        requires
            old(self).wf(),
            accepts_all(func),
        ensures
            final(self).wf(),
            final(self).graph() == old(self).graph(),
            final(self).state().old_active == old(self).state().old_active,
            final(self).state().old_data == old(self).state().old_data,
            forall|rel: spec_fn(DataType, DataType) -> (DataType, bool)|
                #[trigger] describes(func, rel) ==> final(self).state() == spec_push(
                    rel,
                    old(self).graph().offsets(),
                    old(self).graph().targets(),
                    old(self).state(),
                ),
            is_monotone(func) && data_le(old(self).state().new_data, old(self).state().old_data)
                ==> data_le(final(self).state().new_data, final(self).state().old_data),
            forall|d: int|
                0 <= d < old(self).n() && #[trigger] old(self).state().new_active[d]
                    ==> final(self).state().new_active[d],
            forall|d: int|
                #![trigger final(self).state().new_data[d]]
                #![trigger final(self).state().new_active[d]]
                0 <= d < old(self).n() && !is_active_target(
                    old(self).graph().offsets(),
                    old(self).graph().targets(),
                    old(self).state().old_active,
                    d,
                ) ==> final(self).state().new_data[d] == old(self).state().new_data[d]
                    && final(self).state().new_active[d] == old(self).state().new_active[d],
            count_true(old(self).state().old_active) == 0 ==> final(self).state() == old(
                self,
            ).state(),
    {
        let g: &'a Graph<'a, T> = self.graph;
        let nodes = g.iterate_nodes();
        let edges = g.iterate_edges();
        let n = g.n_nodes();
        let ghost s0 = self.state();
        let ghost offsets = g.offsets();
        let ghost targets = g.targets();
        let mut i: usize = 0;
        proof {
            reveal(unchanged_off_targets);
        }
        while i < n
            invariant
                g.wf(),
                nodes@ == offsets,
                edges@ == g.edge_view(),
                offsets == g.offsets(),
                targets == g.targets(),
                n == g.spec_n_nodes(),
                accepts_all(func),
                self.graph == g,
                0 <= i <= n,
                self.old_active@ == s0.old_active,
                self.old_data@ == s0.old_data,
                s0.old_active.len() == n,
                s0.old_data.len() == n,
                s0.new_active.len() == n,
                s0.new_data.len() == n,
                self.new_data@.len() == n,
                self.new_active@.len() == n,
                forall|rel: spec_fn(DataType, DataType) -> (DataType, bool)|
                    #[trigger] describes(func, rel) ==> (self.new_data@, self.new_active@)
                        == push_upto(rel, offsets, targets, s0, i as nat),
                is_monotone(func) && data_le(s0.new_data, s0.old_data) ==> data_le(
                    self.new_data@,
                    s0.old_data,
                ),
                forall|d: int|
                    0 <= d < n && #[trigger] s0.new_active[d] ==> self.new_active@[d],
                unchanged_off_targets(
                    self.new_data@,
                    self.new_active@,
                    s0,
                    offsets,
                    targets,
                    offsets[i as int] as int,
                ),
            decreases n - i,
        {
            if self.old_active[i] {
                let v = self.old_data[i];
                let lo = nodes[i];
                let hi = nodes[i + 1];
                let ghost base = self.new_data@;
                let ghost base_active = self.new_active@;
                assert(lo <= hi);
                let mut j: usize = lo;
                while j < hi
                    invariant
                        g.wf(),
                        nodes@ == offsets,
                        edges@ == g.edge_view(),
                        offsets == g.offsets(),
                        targets == g.targets(),
                        n == g.spec_n_nodes(),
                        accepts_all(func),
                        self.graph == g,
                        0 <= i < n,
                        lo == offsets[i as int],
                        hi == offsets[i + 1],
                        hi <= edges@.len(),
                        lo <= j <= hi,
                        self.old_active@ == s0.old_active,
                        self.old_data@ == s0.old_data,
                        v == s0.old_data[i as int],
                        s0.old_active.len() == n,
                        s0.new_active.len() == n,
                        s0.new_data.len() == n,
                        self.new_data@.len() == n,
                        self.new_active@.len() == n,
                        forall|rel: spec_fn(DataType, DataType) -> (DataType, bool)|
                            #[trigger] describes(func, rel) ==> (base, base_active) == push_upto(
                                rel,
                                offsets,
                                targets,
                                s0,
                                i as nat,
                            ),
                        forall|rel: spec_fn(DataType, DataType) -> (DataType, bool)|
                            #[trigger] describes(func, rel) ==> (self.new_data@, self.new_active@)
                                == relax_edges(rel, targets, v, base, base_active, lo as int, j as int),
                        is_monotone(func) && data_le(s0.new_data, s0.old_data) ==> data_le(
                            self.new_data@,
                            s0.old_data,
                        ),
                        s0.old_active[i as int],
                        forall|d: int|
                            0 <= d < n && #[trigger] s0.new_active[d] ==> self.new_active@[d],
                        unchanged_off_targets(
                            self.new_data@,
                            self.new_active@,
                            s0,
                            offsets,
                            targets,
                            j as int,
                        ),
                    decreases hi - j,
                {
                    assert(targets[j as int] == edges@[j as int].id());
                    assert(targets[j as int] < n);
                    let t = edges[j].as_index();
                    let cur = self.new_data[t];
                    let (nv, b) = func(v, cur);
                    proof {
                        if is_monotone(func) && data_le(s0.new_data, s0.old_data) {
                            assert(nv.le(cur));
                            assert(cur.le(s0.old_data[t as int]));
                            DataType::lemma_transitive(nv, cur, s0.old_data[t as int]);
                        }
                    }
                    let ghost pre_data = self.new_data@;
                    let ghost pre_active = self.new_active@;
                    self.new_data.set(t, nv);
                    if b {
                        self.new_active.set(t, true);
                    }
                    proof {
                        assert(unchanged_off_targets(pre_data, pre_active, s0, offsets, targets, j as int));
                        reveal(unchanged_off_targets);
                        assert(s0.old_active[i as int] && targets[j as int] == t);
                        assert(is_target_below(offsets, targets, s0.old_active, j + 1, t as int));
                        assert forall|d: int|
                            0 <= d < n && !is_target_below(
                                offsets,
                                targets,
                                s0.old_active,
                                j + 1,
                                d,
                            ) implies #[trigger] self.new_data@[d] == s0.new_data[d]
                            && self.new_active@[d] == s0.new_active[d] by {
                            if is_target_below(offsets, targets, s0.old_active, j as int, d) {
                                let (i2, j2) = choose|i2: int, j2: int|
                                    #![trigger s0.old_active[i2], targets[j2]]
                                    0 <= i2 < offsets.len() - 1 && s0.old_active[i2]
                                        && offsets[i2] <= j2 < offsets[i2 + 1] && j2 < j
                                        && targets[j2] == d;
                                assert(s0.old_active[i2] && targets[j2] == d);
                            }
                            assert(d != t);
                            lemma_unchanged_at(pre_data, pre_active, s0, offsets, targets, j as int, d);
                            assert(pre_data[d] == s0.new_data[d] && pre_active[d] == s0.new_active[d]);
                        }
                    }
                    j = j + 1;
                }
            }
            proof {
                reveal(unchanged_off_targets);
                assert(offsets[i as int] <= offsets[i + 1]);
                assert forall|d: int|
                    0 <= d < n && !is_target_below(
                        offsets,
                        targets,
                        s0.old_active,
                        offsets[i + 1] as int,
                        d,
                    ) implies #[trigger] self.new_data@[d] == s0.new_data[d]
                    && self.new_active@[d] == s0.new_active[d] by {
                    if !s0.old_active[i as int] && is_target_below(
                        offsets,
                        targets,
                        s0.old_active,
                        offsets[i as int] as int,
                        d,
                    ) {
                        let (i2, j2) = choose|i2: int, j2: int|
                            #![trigger s0.old_active[i2], targets[j2]]
                            0 <= i2 < offsets.len() - 1 && s0.old_active[i2] && offsets[i2]
                                <= j2 < offsets[i2 + 1] && j2 < offsets[i as int]
                                && targets[j2] == d;
                        assert(s0.old_active[i2] && targets[j2] == d);
                    }
                }
            }
            i = i + 1;
        }
        proof {
            assert forall|rel: spec_fn(DataType, DataType) -> (DataType, bool)|
                #[trigger] describes(func, rel) implies self.state() == spec_push(
                rel,
                offsets,
                targets,
                s0,
            ) by {
                assert(self.state() =~= spec_push(rel, offsets, targets, s0));
            }
            reveal(unchanged_off_targets);
            assert forall|d: int|
                0 <= d < n && !is_active_target(offsets, targets, s0.old_active, d)
                implies #[trigger] self.new_data@[d] == s0.new_data[d] && self.new_active@[d]
                == s0.new_active[d] by {
                if is_target_below(offsets, targets, s0.old_active, offsets[n as int] as int, d) {
                    let (i2, j2) = choose|i2: int, j2: int|
                        #![trigger s0.old_active[i2], targets[j2]]
                        0 <= i2 < offsets.len() - 1 && s0.old_active[i2] && offsets[i2] <= j2
                            < offsets[i2 + 1] && j2 < offsets[n as int] && targets[j2] == d;
                    assert(s0.old_active[i2] && targets[j2] == d);
                }
            }
            if count_true(s0.old_active) == 0 {
                lemma_count_true_zero(s0.old_active);
                assert forall|d: int| 0 <= d < n implies !is_active_target(
                    offsets,
                    targets,
                    s0.old_active,
                    d,
                ) by {
                    if is_active_target(offsets, targets, s0.old_active, d) {
                        let (i2, j2) = choose|i2: int, j2: int|
                            #![trigger s0.old_active[i2], targets[j2]]
                            0 <= i2 < offsets.len() - 1 && s0.old_active[i2] && offsets[i2]
                                <= j2 < offsets[i2 + 1] && targets[j2] == d;
                        assert(s0.old_active[i2]);
                    }
                }
                assert forall|d: int| 0 <= d < n implies self.new_active@[d] == s0.new_active[d] by {
                    assert(self.new_data@[d] == s0.new_data[d]);
                }
                assert(self.new_data@ =~= s0.new_data);
                assert(self.new_active@ =~= s0.new_active);
            }
        }
    }

    /// The data of the last iteration as host-endian bytes, one fixed-width
    /// value per vertex in order of id: the contents of a saved data file.
    pub fn data_to_bytes(&self) -> (r: Vec<u8>)
        requires
            self.wf(),
        ensures
            is_data_dump(self.state().old_data, r@),
            r@.len() == self.n() * DataType::byte_len(),
    {
        let mut out: Vec<u8> = Vec::new();
        let mut i: usize = 0;
        let ghost data = self.old_data@;
        proof {
            DataType::lemma_byte_len();
        }
        while i < self.old_data.len()
            invariant
                0 <= i <= data.len(),
                data == self.old_data@,
                is_data_dump(data.take(i as int), out@),
                out@.len() == i * DataType::byte_len(),
                DataType::byte_len() == 4 || DataType::byte_len() == 8,
            decreases data.len() - i,
        {
            let ghost before = out@;
            self.old_data[i].write_self(&mut out);
            proof {
                let k = DataType::byte_len();
                assert(data.take(i + 1).drop_last() =~= data.take(i as int));
                assert(data.take(i + 1).last() == data[i as int]);
                assert(out@.take(out@.len() - k) =~= before);
                assert(out@.len() == (i + 1) * k) by (nonlinear_arith)
                    requires
                        out@.len() == before.len() + k,
                        before.len() == i * k,
                ;
            }
            i = i + 1;
        }
        assert(data.take(data.len() as int) =~= data);
        out
    }

    /// The data of the last iteration.
    pub fn get_data_as_slice(&self) -> (r: &[DataType])
        ensures
            r@ == self.state().old_data,
    {
        self.old_data.as_slice()
    }
}

/// No entry is `true` exactly when none is counted.
pub proof fn lemma_count_true_zero(s: Seq<bool>)
    ensures
        count_true(s) == 0 <==> forall|i: int| 0 <= i < s.len() ==> !#[trigger] s[i],
    decreases s.len(),
{
    if s.len() > 0 {
        lemma_count_true_zero(s.drop_last());
        if count_true(s) == 0 {
            assert forall|i: int| 0 <= i < s.len() implies !#[trigger] s[i] by {
                if i < s.len() - 1 {
                    assert(s[i] == s.drop_last()[i]);
                }
            }
        }
        if forall|i: int| 0 <= i < s.len() ==> !#[trigger] s[i] {
            assert forall|i: int| 0 <= i < s.drop_last().len() implies !#[trigger] s.drop_last()[i] by {
                assert(s[i] == s.drop_last()[i]);
            }
        }
    }
}

/// After any step the next iteration starts clean: the `new` data mirrors
/// the installed `old` data and no vertex is active in the `new` flags.
pub proof fn lemma_step_resets<D>(s: EngineState<D>)
    ensures
        spec_step(s).new_data == spec_step(s).old_data,
        forall|i: int| 0 <= i < spec_step(s).new_active.len() ==> !#[trigger] spec_step(s).new_active[i],
        count_true(spec_step(s).new_active) == 0,
{
    lemma_count_true_zero(spec_step(s).new_active);
}

proof fn lemma_idle_push_upto<D>(
    rel: spec_fn(D, D) -> (D, bool),
    offsets: Seq<usize>,
    targets: Seq<nat>,
    s: EngineState<D>,
    k: nat,
)
    requires
        k <= s.old_active.len(),
        forall|i: int| 0 <= i < s.old_active.len() ==> !#[trigger] s.old_active[i],
    ensures
        push_upto(rel, offsets, targets, s, k) == (s.new_data, s.new_active),
    decreases k,
{
    if k > 0 {
        lemma_idle_push_upto(rel, offsets, targets, s, (k - 1) as nat);
        assert(!s.old_active[k - 1]);
    }
}

/// When no vertex was active in the last iteration (`n_active() == 0`), a
/// push changes nothing; so after the following step the data is the data
/// of before the push.
pub proof fn lemma_idle_push_is_noop<D>(
    rel: spec_fn(D, D) -> (D, bool),
    offsets: Seq<usize>,
    targets: Seq<nat>,
    s: EngineState<D>,
)
    requires
        offsets.len() >= 1,
        s.old_active.len() == offsets.len() - 1,
        count_true(s.old_active) == 0,
    ensures
        spec_push(rel, offsets, targets, s) == s,
        spec_step(spec_push(rel, offsets, targets, s)).old_data == s.new_data,
        s.new_data == s.old_data ==> spec_step(spec_push(rel, offsets, targets, s)).new_data
            == s.old_data,
{
    lemma_count_true_zero(s.old_active);
    lemma_idle_push_upto(rel, offsets, targets, s, (offsets.len() - 1) as nat);
}

/// The min relaxation with candidate function `g`: the destination drops to
/// `g(source value)` when that is smaller.
pub open spec fn min_relaxation<D: GraphData>(g: spec_fn(D) -> D) -> spec_fn(D, D) -> (D, bool) {
    |a: D, b: D| min_update(g(a), b)
}

/// `c` is sent to vertex `d` by a min relaxation with candidate function
/// `g`: along an out-edge of a vertex active in `s`.
pub open spec fn is_push_candidate<D>(
    g: spec_fn(D) -> D,
    offsets: Seq<usize>,
    targets: Seq<nat>,
    s: EngineState<D>,
    d: int,
    c: D,
) -> bool {
    exists|i: int, j: int|
        #![trigger s.old_active[i], targets[j]]
        0 <= i < offsets.len() - 1 && s.old_active[i] && offsets[i] <= j < offsets[i + 1]
            && targets[j] == d && c == g(s.old_data[i])
}

/// At vertex `d`, `data` is the minimum of `base` and of the candidates
/// `cand(d, _)`, and `d` is active exactly when it was already or when a
/// candidate is strictly below its base value.
pub open spec fn is_min_at<D: GraphData>(
    base: Seq<D>,
    base_act: Seq<bool>,
    data: Seq<D>,
    act: Seq<bool>,
    cand: spec_fn(int, D) -> bool,
    d: int,
) -> bool {
    &&& data[d].le(base[d])
    &&& forall|c: D| #[trigger] cand(d, c) ==> data[d].le(c)
    &&& data[d] == base[d] || cand(d, data[d])
    &&& act[d] == (base_act[d] || exists|c: D| #[trigger] cand(d, c) && c.le(base[d]) && c != base[d])
}

/// `(data, act)` is the pointwise minimum of `base` and the candidates.
pub open spec fn is_min_closure<D: GraphData>(
    base: Seq<D>,
    base_act: Seq<bool>,
    data: Seq<D>,
    act: Seq<bool>,
    cand: spec_fn(int, D) -> bool,
) -> bool {
    &&& data.len() == base.len()
    &&& act.len() == base.len()
    &&& base_act.len() == base.len()
    &&& forall|d: int| 0 <= d < base.len() ==> #[trigger] is_min_at(base, base_act, data, act, cand, d)
}

proof fn lemma_min_closure_equiv<D: GraphData>(
    base: Seq<D>,
    base_act: Seq<bool>,
    data: Seq<D>,
    act: Seq<bool>,
    c1: spec_fn(int, D) -> bool,
    c2: spec_fn(int, D) -> bool,
)
    requires
        is_min_closure(base, base_act, data, act, c1),
        forall|d: int, c: D| #[trigger] c1(d, c) <==> #[trigger] c2(d, c),
    ensures
        is_min_closure(base, base_act, data, act, c2),
{
    assert forall|d: int| 0 <= d < base.len() implies #[trigger] is_min_at(
        base,
        base_act,
        data,
        act,
        c2,
        d,
    ) by {
        assert(is_min_at(base, base_act, data, act, c1, d));
        assert forall|c: D| #[trigger] c2(d, c) implies data[d].le(c) by {
            assert(c1(d, c));
        }
        if data[d] != base[d] {
            assert(c1(d, data[d]));
        }
        if exists|c: D| #[trigger] c1(d, c) && c.le(base[d]) && c != base[d] {
            let c = choose|c: D| #[trigger] c1(d, c) && c.le(base[d]) && c != base[d];
            assert(c2(d, c));
        }
        if exists|c: D| #[trigger] c2(d, c) && c.le(base[d]) && c != base[d] {
            let c = choose|c: D| #[trigger] c2(d, c) && c.le(base[d]) && c != base[d];
            assert(c1(d, c));
        }
    }
}

proof fn lemma_min_closure_step<D: GraphData>(
    base: Seq<D>,
    base_act: Seq<bool>,
    data: Seq<D>,
    act: Seq<bool>,
    cand: spec_fn(int, D) -> bool,
    cand2: spec_fn(int, D) -> bool,
    t: int,
    cv: D,
)
    requires
        is_min_closure(base, base_act, data, act, cand),
        0 <= t < base.len(),
        forall|d: int, c: D| #[trigger] cand2(d, c) <==> (cand(d, c) || (d == t && c == cv)),
    ensures
        ({
            let r = min_update(cv, data[t]);
            is_min_closure(
                base,
                base_act,
                data.update(t, r.0),
                if r.1 {
                    act.update(t, true)
                } else {
                    act
                },
                cand2,
            )
        }),
{
    let r = min_update(cv, data[t]);
    let data2 = data.update(t, r.0);
    let act2 = if r.1 {
        act.update(t, true)
    } else {
        act
    };
    assert forall|d: int| 0 <= d < base.len() implies #[trigger] is_min_at(
        base,
        base_act,
        data2,
        act2,
        cand2,
        d,
    ) by {
        assert(is_min_at(base, base_act, data, act, cand, d));
        if d != t {
            assert forall|c: D| #[trigger] cand2(d, c) implies data2[d].le(c) by {
                assert(cand(d, c));
            }
            if data2[d] != base[d] {
                assert(cand2(d, data2[d]));
            }
            if exists|c: D| #[trigger] cand(d, c) && c.le(base[d]) && c != base[d] {
                let c = choose|c: D| #[trigger] cand(d, c) && c.le(base[d]) && c != base[d];
                assert(cand2(d, c));
            }
            if exists|c: D| #[trigger] cand2(d, c) && c.le(base[d]) && c != base[d] {
                let c = choose|c: D| #[trigger] cand2(d, c) && c.le(base[d]) && c != base[d];
                assert(cand(d, c));
            }
        } else {
            D::lemma_total(cv, data[t]);
            D::lemma_reflexive(data[t]);
            D::lemma_reflexive(cv);
            let x = data2[t];
            // the new value is below the old one, hence below the base
            assert(x.le(data[t]));
            D::lemma_transitive(x, data[t], base[t]);
            assert forall|c: D| #[trigger] cand2(t, c) implies x.le(c) by {
                if cand(t, c) {
                    D::lemma_transitive(x, data[t], c);
                }
            }
            if x != base[t] {
                if x == cv {
                    assert(cand2(t, cv));
                } else {
                    assert(cand(t, data[t]));
                    assert(cand2(t, x));
                }
            }
            let strict_old = exists|c: D| #[trigger] cand(t, c) && c.le(base[t]) && c != base[t];
            let strict_new = exists|c: D| #[trigger] cand2(t, c) && c.le(base[t]) && c != base[t];
            if strict_old {
                let c = choose|c: D| #[trigger] cand(t, c) && c.le(base[t]) && c != base[t];
                assert(cand2(t, c));
            }
            if r.1 {
                // cv < data[t] <= base[t]
                D::lemma_transitive(cv, data[t], base[t]);
                if cv == base[t] {
                    D::lemma_antisymmetric(data[t], base[t]);
                }
                assert(cand2(t, cv));
                assert(strict_new);
            } else {
                if strict_new {
                    let c = choose|c: D| #[trigger] cand2(t, c) && c.le(base[t]) && c != base[t];
                    if !cand(t, c) {
                        assert(c == cv);
                        // data[t] <= cv < base[t], so data[t] is a candidate below base
                        assert(data[t].le(cv));
                        D::lemma_transitive(data[t], cv, base[t]);
                        if data[t] == base[t] {
                            D::lemma_antisymmetric(cv, base[t]);
                        }
                        assert(cand(t, data[t]));
                        assert(strict_old);
                    }
                }
            }
        }
    }
}

proof fn lemma_min_relax_edges<D: GraphData>(
    g: spec_fn(D) -> D,
    targets: Seq<nat>,
    v: D,
    base: Seq<D>,
    base_act: Seq<bool>,
    data: Seq<D>,
    act: Seq<bool>,
    cand: spec_fn(int, D) -> bool,
    lo: int,
    hi: int,
)
    requires
        is_min_closure(base, base_act, data, act, cand),
        0 <= lo <= hi <= targets.len(),
        forall|j: int| lo <= j < hi ==> #[trigger] targets[j] < base.len(),
    ensures
        ({
            let r = relax_edges(min_relaxation(g), targets, v, data, act, lo, hi);
            is_min_closure(
                base,
                base_act,
                r.0,
                r.1,
                |d: int, c: D|
                    cand(d, c) || exists|j: int|
                        lo <= j < hi && #[trigger] targets[j] == d && c == g(v),
            )
        }),
    decreases hi - lo,
{
    let cand_hi = |d: int, c: D|
        cand(d, c) || exists|j: int| lo <= j < hi && #[trigger] targets[j] == d && c == g(v);
    if hi <= lo {
        lemma_min_closure_equiv(base, base_act, data, act, cand, cand_hi);
    } else {
        lemma_min_relax_edges(g, targets, v, base, base_act, data, act, cand, lo, hi - 1);
        let cand_prev = |d: int, c: D|
            cand(d, c) || exists|j: int| lo <= j < hi - 1 && #[trigger] targets[j] == d && c == g(v);
        let prev = relax_edges(min_relaxation(g), targets, v, data, act, lo, hi - 1);
        let t = targets[hi - 1] as int;
        assert forall|d: int, c: D| #[trigger] cand_hi(d, c) <==> (cand_prev(d, c) || (d == t
            && c == g(v))) by {
            if cand_hi(d, c) && !cand(d, c) {
                let j = choose|j: int| lo <= j < hi && #[trigger] targets[j] == d && c == g(v);
                if j < hi - 1 {
                    assert(cand_prev(d, c));
                }
            }
            if d == t && c == g(v) {
                assert(lo <= hi - 1 < hi && targets[hi - 1] == d);
            }
            if cand_prev(d, c) && !cand(d, c) {
                let j = choose|j: int| lo <= j < hi - 1 && #[trigger] targets[j] == d && c == g(v);
                assert(lo <= j < hi);
            }
        }
        lemma_min_closure_step(base, base_act, prev.0, prev.1, cand_prev, cand_hi, t, g(v));
    }
}

proof fn lemma_min_push_upto<D: GraphData>(
    g: spec_fn(D) -> D,
    offsets: Seq<usize>,
    targets: Seq<nat>,
    s: EngineState<D>,
    k: nat,
)
    requires
        wf_csr(offsets, targets),
        s.old_active.len() == offsets.len() - 1,
        s.old_data.len() == offsets.len() - 1,
        s.new_active.len() == offsets.len() - 1,
        s.new_data.len() == offsets.len() - 1,
        k <= offsets.len() - 1,
    ensures
        ({
            let r = push_upto(min_relaxation(g), offsets, targets, s, k);
            is_min_closure(
                s.new_data,
                s.new_active,
                r.0,
                r.1,
                |d: int, c: D|
                    exists|i: int, j: int|
                        #![trigger s.old_active[i], targets[j]]
                        0 <= i < k && s.old_active[i] && offsets[i] <= j < offsets[i + 1]
                            && targets[j] == d && c == g(s.old_data[i]),
            )
        }),
    decreases k,
{
    let cand_k = |d: int, c: D|
        exists|i: int, j: int|
            #![trigger s.old_active[i], targets[j]]
            0 <= i < k && s.old_active[i] && offsets[i] <= j < offsets[i + 1] && targets[j] == d
                && c == g(s.old_data[i]);
    if k == 0 {
        assert forall|d: int| 0 <= d < s.new_data.len() implies #[trigger] is_min_at(
            s.new_data,
            s.new_active,
            s.new_data,
            s.new_active,
            cand_k,
            d,
        ) by {
            D::lemma_reflexive(s.new_data[d]);
        }
    } else {
        let i0 = k - 1;
        lemma_min_push_upto(g, offsets, targets, s, (k - 1) as nat);
        let cand_prev = |d: int, c: D|
            exists|i: int, j: int|
                #![trigger s.old_active[i], targets[j]]
                0 <= i < k - 1 && s.old_active[i] && offsets[i] <= j < offsets[i + 1]
                    && targets[j] == d && c == g(s.old_data[i]);
        let prev = push_upto(min_relaxation(g), offsets, targets, s, (k - 1) as nat);
        if s.old_active[i0] {
            let lo = offsets[i0] as int;
            let hi = offsets[i0 + 1] as int;
            let v = s.old_data[i0];
            assert(lo <= hi);
            assert forall|j: int| lo <= j < hi implies #[trigger] targets[j] < s.new_data.len() by {
            }
            lemma_min_relax_edges(g, targets, v, s.new_data, s.new_active, prev.0, prev.1, cand_prev, lo, hi);
            let cand_e = |d: int, c: D|
                cand_prev(d, c) || exists|j: int| lo <= j < hi && #[trigger] targets[j] == d && c == g(v);
            assert forall|d: int, c: D| #[trigger] cand_e(d, c) <==> #[trigger] cand_k(d, c) by {
                if cand_e(d, c) && !cand_prev(d, c) {
                    let j = choose|j: int| lo <= j < hi && #[trigger] targets[j] == d && c == g(v);
                    assert(s.old_active[i0] && targets[j] == d);
                }
                if cand_prev(d, c) {
                    let (i, j) = choose|i: int, j: int|
                        #![trigger s.old_active[i], targets[j]]
                        0 <= i < k - 1 && s.old_active[i] && offsets[i] <= j < offsets[i + 1]
                            && targets[j] == d && c == g(s.old_data[i]);
                    assert(s.old_active[i] && targets[j] == d);
                }
                if cand_k(d, c) {
                    let (i, j) = choose|i: int, j: int|
                        #![trigger s.old_active[i], targets[j]]
                        0 <= i < k && s.old_active[i] && offsets[i] <= j < offsets[i + 1]
                            && targets[j] == d && c == g(s.old_data[i]);
                    if i < k - 1 {
                        assert(s.old_active[i] && targets[j] == d);
                        assert(cand_prev(d, c));
                    } else {
                        assert(lo <= j < hi && targets[j] == d);
                    }
                }
            }
            let r = relax_edges(min_relaxation(g), targets, v, prev.0, prev.1, lo, hi);
            lemma_min_closure_equiv(s.new_data, s.new_active, r.0, r.1, cand_e, cand_k);
        } else {
            assert forall|d: int, c: D| #[trigger] cand_prev(d, c) <==> #[trigger] cand_k(d, c) by {
                if cand_prev(d, c) {
                    let (i, j) = choose|i: int, j: int|
                        #![trigger s.old_active[i], targets[j]]
                        0 <= i < k - 1 && s.old_active[i] && offsets[i] <= j < offsets[i + 1]
                            && targets[j] == d && c == g(s.old_data[i]);
                    assert(s.old_active[i] && targets[j] == d);
                }
                if cand_k(d, c) {
                    let (i, j) = choose|i: int, j: int|
                        #![trigger s.old_active[i], targets[j]]
                        0 <= i < k && s.old_active[i] && offsets[i] <= j < offsets[i + 1]
                            && targets[j] == d && c == g(s.old_data[i]);
                    assert(i != i0);
                    assert(s.old_active[i] && targets[j] == d);
                }
            }
            lemma_min_closure_equiv(s.new_data, s.new_active, prev.0, prev.1, cand_prev, cand_k);
        }
    }
}

/// A push with a min relaxation (such as [`atomic_min`]) leaves each
/// vertex's `new` data at the minimum of its value before the push and of
/// the candidates sent to it along out-edges of active vertices, and marks
/// it active exactly when it was, or when some candidate is below its value
/// before the push. This depends only on the set of (active vertex, edge)
/// pairs, not on the order of the sweep.
pub proof fn lemma_min_push_is_order_free<D: GraphData>(
    g: spec_fn(D) -> D,
    offsets: Seq<usize>,
    targets: Seq<nat>,
    s: EngineState<D>,
)
    requires
        wf_csr(offsets, targets),
        s.old_active.len() == offsets.len() - 1,
        s.old_data.len() == offsets.len() - 1,
        s.new_active.len() == offsets.len() - 1,
        s.new_data.len() == offsets.len() - 1,
    ensures
        is_min_closure(
            s.new_data,
            s.new_active,
            spec_push(min_relaxation(g), offsets, targets, s).new_data,
            spec_push(min_relaxation(g), offsets, targets, s).new_active,
            |d: int, c: D| is_push_candidate(g, offsets, targets, s, d, c),
        ),
{
    let n = (offsets.len() - 1) as nat;
    lemma_min_push_upto(g, offsets, targets, s, n);
    let r = push_upto(min_relaxation(g), offsets, targets, s, n);
    let cand_n = |d: int, c: D|
        exists|i: int, j: int|
            #![trigger s.old_active[i], targets[j]]
            0 <= i < n && s.old_active[i] && offsets[i] <= j < offsets[i + 1] && targets[j] == d
                && c == g(s.old_data[i]);
    lemma_min_closure_equiv(
        s.new_data,
        s.new_active,
        r.0,
        r.1,
        cand_n,
        |d: int, c: D| is_push_candidate(g, offsets, targets, s, d, c),
    );
}

/// The minimum is unique: two results that are both the pointwise minimum
/// of the same values and candidates are equal, so every order of
/// relaxation that reaches one reaches the same data and flags.
pub proof fn lemma_min_closure_unique<D: GraphData>(
    base: Seq<D>,
    base_act: Seq<bool>,
    data1: Seq<D>,
    act1: Seq<bool>,
    data2: Seq<D>,
    act2: Seq<bool>,
    cand: spec_fn(int, D) -> bool,
)
    requires
        is_min_closure(base, base_act, data1, act1, cand),
        is_min_closure(base, base_act, data2, act2, cand),
    ensures
        data1 == data2,
        act1 == act2,
{
    assert forall|d: int| 0 <= d < base.len() implies #[trigger] data1[d] == data2[d] && act1[d]
        == act2[d] by {
        assert(is_min_at(base, base_act, data1, act1, cand, d));
        assert(is_min_at(base, base_act, data2, act2, cand, d));
        if data1[d] == base[d] {
            if data2[d] != base[d] {
                assert(cand(d, data2[d]));
                D::lemma_antisymmetric(data1[d], data2[d]);
            }
        } else {
            assert(cand(d, data1[d]));
            if data2[d] == base[d] {
                D::lemma_antisymmetric(data1[d], data2[d]);
            } else {
                assert(cand(d, data2[d]));
                D::lemma_antisymmetric(data1[d], data2[d]);
            }
        }
    }
    assert(data1 =~= data2);
    assert forall|d: int| 0 <= d < base.len() implies #[trigger] act1[d] == act2[d] by {
        assert(data1[d] == data2[d]);
    }
    assert(act1 =~= act2);
}

} // verus!
