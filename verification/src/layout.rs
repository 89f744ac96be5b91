//! Where the control points of each edge live.
//!
//! Every edge of the graph is drawn as a polyline of control points. The
//! points of all edges share one flat coordinate buffer, `x0, y0, x1, y1, ...`:
//! edge `e` owns the points `offset(e) .. offset(e) + count(e)`, where the
//! offsets are the running totals of the counts. The first and last point of
//! each edge sit on its end nodes and never move; the points in between are
//! relaxed by the simulation.
use vstd::prelude::*;

verus! {

/// An edge of the graph, by the indices of its end nodes.
#[derive(Clone, Copy, Debug, PartialEq, Eq, Structural)]
pub struct Edge {
    pub source: usize,
    pub target: usize,
}

/// What the GPU relaxation pass needs to know of one control point: its
/// neighbours along the edge (`-1` for none) and whether it is pinned.
#[derive(Clone, Copy, Debug, PartialEq, Eq, Structural)]
pub struct ControlPointMeta {
    pub prev_idx: i32,
    pub next_idx: i32,
    pub is_static: u32,
    pub padding: u32,
}

/// The end nodes of the edge that a control point belongs to.
#[derive(Clone, Copy, Debug, PartialEq, Eq, Structural)]
pub struct EdgeNodes {
    pub source: u32,
    pub target_node: u32,
}

/// The sum of a sequence of counts.
pub open spec fn sum(counts: Seq<usize>) -> int
    decreases counts.len(),
{
    if counts.len() == 0 {
        0
    } else {
        sum(counts.drop_last()) + counts.last()
    }
}

/// Adding one more count to a prefix adds that count to its sum.
pub proof fn lemma_sum_take_next(counts: Seq<usize>, e: int)
    requires
        0 <= e < counts.len(),
    ensures
        sum(counts.take(e + 1)) == sum(counts.take(e)) + counts[e],
{
    assert(counts.take(e + 1).drop_last() =~= counts.take(e));
}

/// The sum of a longer prefix is at least the sum of a shorter one.
pub proof fn lemma_sum_take_monotone(counts: Seq<usize>, a: int, b: int)
    requires
        0 <= a <= b <= counts.len(),
    ensures
        sum(counts.take(a)) <= sum(counts.take(b)),
    decreases b - a,
{
    if a < b {
        lemma_sum_take_monotone(counts, a, b - 1);
        lemma_sum_take_next(counts, b - 1);
    }
}

/// The prefix of full length is the whole sequence.
pub proof fn lemma_sum_take_all(counts: Seq<usize>)
    ensures
        sum(counts.take(counts.len() as int)) == sum(counts),
{
    assert(counts.take(counts.len() as int) =~= counts);
}

/// Every edge has at least one point, so the first point of edge `e` comes
/// no earlier than `e`.
pub proof fn lemma_offset_at_least_index(v: LayoutView, e: int)
    requires
        v.wf(),
        0 <= e <= v.num_edges(),
    ensures
        v.offset(e) >= e,
    decreases e,
{
    if e > 0 {
        lemma_offset_at_least_index(v, e - 1);
        lemma_sum_take_next(v.counts, e - 1);
    }
}

/// Offsets are never negative.
pub proof fn lemma_offset_nonneg(v: LayoutView, e: int)
    requires
        0 <= e <= v.num_edges(),
    ensures
        v.offset(e) >= 0,
{
    lemma_sum_take_monotone(v.counts, 0, e);
    assert(v.counts.take(0) =~= Seq::<usize>::empty());
}

/// Between the first point of an earlier edge `a` and that of a later edge
/// `b` lie at least the points of `a` and one point of each edge in between.
pub proof fn lemma_offset_gap(v: LayoutView, a: int, b: int)
    requires
        v.wf(),
        0 <= a < b <= v.num_edges(),
    ensures
        v.offset(b) - v.offset(a) >= v.counts[a] + (b - a - 1),
    decreases b - a,
{
    lemma_sum_take_next(v.counts, a);
    if b > a + 1 {
        lemma_offset_gap(v, a, b - 1);
        lemma_sum_take_next(v.counts, b - 1);
    }
}

/// Offsets never decrease.
pub proof fn lemma_offset_gap_or_equal(v: LayoutView, a: int, b: int)
    requires
        0 <= a <= b <= v.num_edges(),
    ensures
        v.offset(a) <= v.offset(b),
{
    lemma_sum_take_monotone(v.counts, a, b);
}

/// Interior points come after the first point of the first edge.
pub proof fn lemma_interior_positive(v: LayoutView, p: int)
    requires
        v.is_interior(p),
    ensures
        p >= 1,
{
    let k = choose|k: int|
        0 <= k < v.num_edges() && #[trigger] v.offset(k) < p && p < v.offset(k) + v.counts[k] - 1;
    lemma_offset_nonneg(v, k);
}

/// The two ends of an edge are interior to no edge.
pub proof fn lemma_end_not_interior(v: LayoutView, e: int, p: int)
    requires
        v.wf(),
        v.is_end_of(e, p),
    ensures
        !v.is_interior(p),
{
    if v.is_interior(p) {
        let k = choose|k: int|
            0 <= k < v.num_edges() && #[trigger] v.offset(k) < p && p < v.offset(k) + v.counts[k]
                - 1;
        if k < e {
            lemma_offset_gap(v, k, e);
        } else if e < k {
            lemma_offset_gap(v, e, k);
        }
    }
}

/// The number of control points given to an edge that `steps` whole spacings
/// fit into: one per spacing plus both ends, and never fewer than three.
pub open spec fn planned_count(steps: usize) -> int {
    if steps + 2 >= 3 {
        steps + 2
    } else {
        3
    }
}

/// The planned counts of a sequence of step numbers.
pub open spec fn planned_counts(steps: Seq<usize>) -> Seq<usize> {
    steps.map_values(|s: usize| planned_count(s) as usize)
}

/// Whether the counts planned for `steps` can be laid out: each count and
/// twice their total (the length of the coordinate buffer) fit in a `usize`.
pub open spec fn plan_fits(steps: Seq<usize>) -> bool {
    &&& forall|e: int| 0 <= e < steps.len() ==> #[trigger] steps[e] + 2 <= usize::MAX
    &&& 2 * sum(planned_counts(steps)) <= usize::MAX
}

/// The metadata of a point that never moves.
pub open spec fn pinned_meta() -> ControlPointMeta {
    ControlPointMeta { prev_idx: -1i32, next_idx: -1i32, is_static: 1u32, padding: 0u32 }
}

/// The metadata of point `p`, which moves between points `p - 1` and `p + 1`.
pub open spec fn linked_meta(p: int) -> ControlPointMeta {
    ControlPointMeta {
        prev_idx: (p - 1) as i32,
        next_idx: (p + 1) as i32,
        is_static: 0u32,
        padding: 0u32,
    }
}

/// Point `p` of a flat coordinate buffer (`x0, y0, x1, y1, ...`) was moved
/// from `old` to `new` by `update`, applied to its own old position and to the
/// old positions of points `p - 1` and `p + 1`.
pub open spec fn relaxed<T, F: Fn(T, T, T, T, T, T) -> (T, T)>(
    update: F,
    old: Seq<T>,
    new: Seq<T>,
    p: int,
) -> bool {
    call_ensures(
        update,
        (old[2 * p], old[2 * p + 1], old[2 * p - 2], old[2 * p - 1], old[2 * p + 2], old[2 * p + 3]),
        (new[2 * p], new[2 * p + 1]),
    )
}

/// A copy of a vector of plain values.
fn copy_of<T: Copy>(v: &Vec<T>) -> (out: Vec<T>)
    ensures
        out@ == v@,
{
    let n = v.len();
    let mut out: Vec<T> = Vec::with_capacity(n);
    let mut i: usize = 0;
    while i < n
        invariant
            n == v@.len(),
            i <= n,
            out@ == v@.take(i as int),
        decreases n - i,
    {
        out.push(v[i]);
        i = i + 1;
        assert(out@ =~= v@.take(i as int));
    }
    assert(v@.take(n as int) =~= v@);
    out
}

/// The mathematical content of a [`ControlPointLayout`]: the edges and how
/// many control points each of them has.
pub struct LayoutView {
    pub edges: Seq<Edge>,
    pub counts: Seq<usize>,
}

impl LayoutView {
    pub open spec fn num_edges(self) -> int {
        self.counts.len() as int
    }

    /// The index of the first control point of edge `e`.
    pub open spec fn offset(self, e: int) -> int {
        sum(self.counts.take(e))
    }

    /// The number of control points of all edges together.
    pub open spec fn total(self) -> int {
        sum(self.counts)
    }

    /// Control point `p` is one of the points of edge `e`.
    pub open spec fn owns(self, e: int, p: int) -> bool {
        &&& 0 <= e < self.num_edges()
        &&& self.offset(e) <= p < self.offset(e) + self.counts[e]
    }

    /// Control point `p` is strictly between the two ends of some edge.
    pub open spec fn is_interior(self, p: int) -> bool {
        exists|e: int|
            0 <= e < self.num_edges() && #[trigger] self.offset(e) < p && p < self.offset(e)
                + self.counts[e] - 1
    }

    /// Control point `p` is the first or the last point of edge `e`.
    pub open spec fn is_end_of(self, e: int, p: int) -> bool {
        &&& 0 <= e < self.num_edges()
        &&& (p == self.offset(e) || p == self.offset(e) + self.counts[e] - 1)
    }

    /// The metadata of control point `p` of edge `e`: pinned at the two ends
    /// of the edge, linked to both neighbours in between.
    pub open spec fn meta_of(self, e: int, p: int) -> ControlPointMeta {
        if self.is_end_of(e, p) {
            pinned_meta()
        } else {
            linked_meta(p)
        }
    }

    /// The end nodes of edge `e`, as the GPU reads them.
    pub open spec fn edge_nodes_of(self, e: int) -> EdgeNodes {
        EdgeNodes {
            source: self.edges[e].source as u32,
            target_node: self.edges[e].target as u32,
        }
    }

    /// One count per edge, at least three points per edge, and a coordinate
    /// buffer (two coordinates per point) whose length fits in a `usize`.
    pub open spec fn wf(self) -> bool {
        &&& self.edges.len() == self.counts.len()
        &&& forall|e: int| 0 <= e < self.num_edges() ==> #[trigger] self.counts[e] >= 3
        &&& 2 * self.total() <= usize::MAX
    }
}

/// The control points of every edge: edge `e` owns the points
/// `offset(e) .. offset(e) + count(e)` of the flat point buffer.
pub struct ControlPointLayout {
    edges: Vec<Edge>,
    offsets: Vec<usize>,
    counts: Vec<usize>,
}

impl View for ControlPointLayout {
    type V = LayoutView;

    open spec fn view(&self) -> LayoutView {
        self.layout_view()
    }
}

impl ControlPointLayout {
    pub closed spec fn layout_view(&self) -> LayoutView {
        LayoutView { edges: self.edges@, counts: self.counts@ }
    }

    /// The stored offsets are the running totals of the counts.
    #[verifier::type_invariant]
    closed spec fn inv(self) -> bool {
        &&& self.offsets@.len() == self.counts@.len()
        &&& forall|e: int|
            0 <= e < self.offsets@.len() ==> #[trigger] self.offsets@[e] == sum(
                self.counts@.take(e),
            )
        &&& self@.wf()
    }

    /// Lays out the control points of `edges`, giving edge `e` one point per
    /// whole spacing along it (`steps[e]`) plus its two ends, and at least
    /// three points. Returns `None` exactly when those counts, or the
    /// coordinate buffer they need, do not fit in a `usize`.
    pub fn new(edges: Vec<Edge>, steps: &[usize]) -> (res: Option<Self>)
        requires
            edges@.len() == steps@.len(),
        ensures
            res is Some <==> plan_fits(steps@),
            res matches Some(layout) ==> {
                &&& layout@.edges == edges@
                &&& layout@.counts == planned_counts(steps@)
                &&& layout@.wf()
                &&& layout@.counts.len() == steps@.len()
                &&& forall|e: int|
                    0 <= e < steps@.len() ==> {
                        &&& #[trigger] layout@.counts[e] >= steps@[e] + 2
                        &&& layout@.counts[e] >= 3
                        &&& (layout@.counts[e] == steps@[e] + 2 || layout@.counts[e] == 3)
                    }
            },
    {
        let n = steps.len();
        let mut offsets: Vec<usize> = Vec::with_capacity(n);
        let mut counts: Vec<usize> = Vec::with_capacity(n);
        let mut total: usize = 0;
        let half: usize = usize::MAX / 2;
        let mut e: usize = 0;
        while e < n
            invariant
                n == steps@.len(),
                e <= n,
                counts@ == planned_counts(steps@).take(e as int),
                offsets@.len() == e,
                forall|k: int|
                    0 <= k < e ==> #[trigger] offsets@[k] == sum(counts@.take(k)),
                total == sum(counts@),
                total <= half,
                half == usize::MAX / 2,
                forall|k: int| 0 <= k < e ==> #[trigger] steps@[k] + 2 <= usize::MAX,
            decreases n - e,
        {
            let s = steps[e];
            if s > usize::MAX - 2 {
                return None;
            }
            let c: usize = if s + 2 >= 3 {
                s + 2
            } else {
                3
            };
            if c > half - total {
                proof {
                    let planned = planned_counts(steps@);
                    assert(planned.take(e as int + 1) =~= counts@.push(c));
                    lemma_sum_take_next(planned, e as int);
                    assert(planned.take(e as int) =~= counts@);
                    lemma_sum_take_monotone(planned, e as int + 1, planned.len() as int);
                    lemma_sum_take_all(planned);
                }
                return None;
            }
            proof {
                assert(counts@.push(c).drop_last() =~= counts@);
                assert(counts@.push(c).take(e as int) =~= counts@);
            }
            let ghost old_counts = counts@;
            offsets.push(total);
            counts.push(c);
            total = total + c;
            proof {
                assert(counts@ =~= planned_counts(steps@).take(e as int + 1));
                assert forall|k: int| 0 <= k < e + 1 implies #[trigger] offsets@[k] == sum(
                    counts@.take(k),
                ) by {
                    assert(counts@.take(k) =~= old_counts.take(k));
                }
            }
            e = e + 1;
        }
        proof {
            assert(planned_counts(steps@).take(n as int) =~= planned_counts(steps@));
            assert forall|k: int| 0 <= k < counts@.len() implies #[trigger] counts@[k] >= 3 by {
                assert(counts@[k] == planned_count(steps@[k]) as usize);
            }
        }
        Some(ControlPointLayout { edges, offsets, counts })
    }

    /// The number of edges.
    pub fn num_edges(&self) -> (n: usize)
        ensures
            n == self@.num_edges(),
    {
        self.counts.len()
    }

    /// The edges, in order.
    pub fn edges(&self) -> (edges: &[Edge])
        ensures
            edges@ == self@.edges,
    {
        self.edges.as_slice()
    }

    /// The index of the first control point of edge `e`.
    pub fn offset(&self, e: usize) -> (offset: usize)
        requires
            e < self@.num_edges(),
        ensures
            offset == self@.offset(e as int),
    {
        proof {
            use_type_invariant(self);
        }
        self.offsets[e]
    }

    /// The number of control points of edge `e`.
    pub fn count(&self, e: usize) -> (count: usize)
        requires
            e < self@.num_edges(),
        ensures
            count == self@.counts[e as int],
    {
        self.counts[e]
    }

    /// The number of control points of all edges together.
    pub fn total_points(&self) -> (total: usize)
        ensures
            total == self@.total(),
            2 * total <= usize::MAX,
    {
        proof {
            use_type_invariant(self);
            lemma_sum_take_all(self.counts@);
        }
        let n = self.counts.len();
        if n == 0 {
            0
        } else {
            proof {
                lemma_sum_take_next(self.counts@, n - 1);
            }
            self.offsets[n - 1] + self.counts[n - 1]
        }
    }

    /// The offset of every edge, truncated to 32 bits.
    pub fn offsets_u32(&self) -> (out: Vec<u32>)
        ensures
            out@.len() == self@.num_edges(),
            forall|e: int| 0 <= e < self@.num_edges() ==> #[trigger] out@[e] == self@.offset(e) as u32,
    {
        proof {
            use_type_invariant(self);
        }
        let n = self.offsets.len();
        let mut out: Vec<u32> = Vec::with_capacity(n);
        let mut e: usize = 0;
        while e < n
            invariant
                n == self.offsets@.len(),
                n == self@.num_edges(),
                e <= n,
                out@.len() == e,
                forall|k: int| 0 <= k < self.offsets@.len() ==> #[trigger] self.offsets@[k] == self@.offset(k),
                forall|k: int| 0 <= k < e ==> #[trigger] out@[k] == self@.offset(k) as u32,
            decreases n - e,
        {
            out.push(self.offsets[e] as u32);
            e = e + 1;
        }
        out
    }

    /// The count of every edge, truncated to 32 bits.
    pub fn counts_u32(&self) -> (out: Vec<u32>)
        ensures
            out@.len() == self@.num_edges(),
            forall|e: int| 0 <= e < self@.num_edges() ==> #[trigger] out@[e] == self@.counts[e] as u32,
    {
        let n = self.counts.len();
        let mut out: Vec<u32> = Vec::with_capacity(n);
        let mut e: usize = 0;
        while e < n
            invariant
                n == self@.num_edges(),
                e <= n,
                out@.len() == e,
                forall|k: int| 0 <= k < e ==> #[trigger] out@[k] == self@.counts[k] as u32,
            decreases n - e,
        {
            out.push(self.counts[e] as u32);
            e = e + 1;
        }
        out
    }

    /// The GPU view of the layout: per control point its metadata
    /// ([`LayoutView::meta_of`]) and the end nodes of its edge, and the line
    /// list that draws every edge: for each point `p` of edge `e` but the
    /// last, the pair `p, p + 1` at position `2 * (p - e)`.
    pub fn get_control_point_metadata(&self) -> (res: (Vec<ControlPointMeta>, Vec<EdgeNodes>, Vec<u32>))
        ensures
            res.0@.len() == self@.total(),
            res.1@.len() == self@.total(),
            res.2@.len() == 2 * (self@.total() - self@.num_edges()),
            forall|e: int, p: int|
                #[trigger] self@.owns(e, p) ==> res.0@[p] == self@.meta_of(e, p) && res.1@[p]
                    == self@.edge_nodes_of(e),
            forall|e: int, p: int|
                #[trigger] self@.owns(e, p) ==> res.0@[p] == (if p == self@.offset(e) || p
                    == self@.offset(e) + self@.counts[e] - 1 {
                    ControlPointMeta { prev_idx: -1i32, next_idx: -1i32, is_static: 1u32, padding: 0u32 }
                } else {
                    ControlPointMeta {
                        prev_idx: (p - 1) as i32,
                        next_idx: (p + 1) as i32,
                        is_static: 0u32,
                        padding: 0u32,
                    }
                }),
            forall|e: int, p: int|
                #[trigger] self@.owns(e, p) && p < self@.offset(e) + self@.counts[e] - 1 ==> {
                    &&& res.2@[2 * (p - e)] == p as u32
                    &&& res.2@[2 * (p - e) + 1] == (p + 1) as u32
                },
    {
        proof {
            use_type_invariant(self);
        }
        let ghost v = self@;
        let total = self.total_points();
        let n = self.counts.len();
        let mut metas: Vec<ControlPointMeta> = Vec::with_capacity(total);
        let mut edge_nodes: Vec<EdgeNodes> = Vec::with_capacity(total);
        let mut indices: Vec<u32> = Vec::new();
        let mut e: usize = 0;
        while e < n
            invariant
                v == self@,
                v.wf(),
                n == v.num_edges(),
                self.edges@.len() == n,
                self.offsets@.len() == n,
                forall|k: int| 0 <= k < n ==> #[trigger] self.offsets@[k] == v.offset(k),
                total == v.total(),
                e <= n,
                metas@.len() == v.offset(e as int),
                edge_nodes@.len() == v.offset(e as int),
                indices@.len() == 2 * (v.offset(e as int) - e),
                forall|k: int, p: int|
                    #[trigger] v.owns(k, p) && k < e ==> metas@[p] == v.meta_of(k, p)
                        && edge_nodes@[p] == v.edge_nodes_of(k),
                forall|k: int, p: int|
                    #[trigger] v.owns(k, p) && k < e && p < v.offset(k) + v.counts[k] - 1 ==> {
                        &&& indices@[2 * (p - k)] == p as u32
                        &&& indices@[2 * (p - k) + 1] == (p + 1) as u32
                    },
            decreases n - e,
        {
            let off = self.offsets[e];
            let count = self.counts[e];
            let edge = self.edges[e];
            proof {
                lemma_sum_take_next(v.counts, e as int);
                lemma_sum_take_monotone(v.counts, e as int + 1, n as int);
                lemma_sum_take_all(v.counts);
                assert(off - e >= 0) by {
                    lemma_offset_at_least_index(v, e as int);
                }
            }
            let nodes = EdgeNodes { source: edge.source as u32, target_node: edge.target as u32 };
            let ghost metas0 = metas@;
            let ghost nodes0 = edge_nodes@;
            let ghost indices0 = indices@;
            let mut i: usize = 0;
            while i < count - 1
                invariant
                    v == self@,
                    v.wf(),
                    e < n,
                    n == v.num_edges(),
                    off == v.offset(e as int),
                    count == v.counts[e as int],
                    count >= 3,
                    off + count <= v.total(),
                    2 * v.total() <= usize::MAX,
                    off >= e,
                    nodes == v.edge_nodes_of(e as int),
                    i <= count - 1,
                    metas@.len() == off + i,
                    edge_nodes@.len() == off + i,
                    indices@.len() == 2 * (off - e + i),
                    metas@.subrange(0, off as int) == metas0,
                    edge_nodes@.subrange(0, off as int) == nodes0,
                    indices@.subrange(0, 2 * (off - e)) == indices0,
                    metas0.len() == off,
                    indices0.len() == 2 * (off - e),
                    forall|p: int| off <= p < off + i ==> #[trigger] metas@[p] == v.meta_of(e as int, p),
                    forall|p: int| off <= p < off + i ==> #[trigger] edge_nodes@[p] == nodes,
                    forall|p: int|
                        off <= p < off + i ==> #[trigger] indices@[2 * (p - e)] == p as u32
                            && indices@[2 * (p - e) + 1] == (p + 1) as u32,
                decreases count - 1 - i,
            {
                let idx = off + i;
                let ghost ib = indices@;
                let ghost mb = metas@;
                let ghost nb = edge_nodes@;
                edge_nodes.push(nodes);
                if i == 0 {
                    metas.push(ControlPointMeta { prev_idx: -1, next_idx: -1, is_static: 1, padding: 0 });
                } else {
                    metas.push(
                        ControlPointMeta {
                            prev_idx: (idx - 1) as i32,
                            next_idx: (idx + 1) as i32,
                            is_static: 0,
                            padding: 0,
                        },
                    );
                }
                indices.push(idx as u32);
                indices.push((idx + 1) as u32);
                proof {
                    assert(metas@.subrange(0, off as int) =~= metas0);
                    assert(edge_nodes@.subrange(0, off as int) =~= nodes0);
                    assert(indices@.subrange(0, 2 * (off - e)) =~= indices0);
                    assert forall|p: int| off <= p < off + i + 1 implies #[trigger] indices@[2 * (p
                        - e)] == p as u32 && indices@[2 * (p - e) + 1] == (p + 1) as u32 by {
                        if p < off + i {
                            assert(indices@[2 * (p - e)] == ib[2 * (p - e)]);
                            assert(indices@[2 * (p - e) + 1] == ib[2 * (p - e) + 1]);
                        }
                    }
                    assert forall|p: int| off <= p < off + i + 1 implies #[trigger] metas@[p]
                        == v.meta_of(e as int, p) by {
                        if p < off + i {
                            assert(metas@[p] == mb[p]);
                        }
                    }
                    assert forall|p: int| off <= p < off + i + 1 implies #[trigger] edge_nodes@[p]
                        == nodes by {
                        if p < off + i {
                            assert(edge_nodes@[p] == nb[p]);
                        }
                    }
                }
                i = i + 1;
            }
            let ghost mb = metas@;
            let ghost nb = edge_nodes@;
            edge_nodes.push(nodes);
            metas.push(ControlPointMeta { prev_idx: -1, next_idx: -1, is_static: 1, padding: 0 });
            proof {
                assert(metas@.subrange(0, off as int) =~= metas0);
                assert(edge_nodes@.subrange(0, off as int) =~= nodes0);
                assert(indices@.subrange(0, 2 * (off - e)) =~= indices0);
                assert forall|k: int, p: int|
                    #[trigger] v.owns(k, p) && k < e + 1 implies metas@[p] == v.meta_of(k, p)
                    && edge_nodes@[p] == v.edge_nodes_of(k) by {
                    if k < e {
                        lemma_offset_gap(v, k, e as int);
                        lemma_offset_nonneg(v, k);
                        assert(metas@[p] == metas@.subrange(0, off as int)[p]);
                        assert(edge_nodes@[p] == edge_nodes@.subrange(0, off as int)[p]);
                    } else if p < off + count - 1 {
                        assert(metas@[p] == mb[p]);
                        assert(edge_nodes@[p] == nb[p]);
                    }
                }
                assert forall|k: int, p: int|
                    #[trigger] v.owns(k, p) && k < e + 1 && p < v.offset(k) + v.counts[k] - 1 implies {
                        &&& indices@[2 * (p - k)] == p as u32
                        &&& indices@[2 * (p - k) + 1] == (p + 1) as u32
                    } by {
                    if k < e {
                        lemma_sum_take_monotone(v.counts, k + 1, e as int);
                        lemma_sum_take_next(v.counts, k);
                        lemma_offset_gap(v, k, e as int);
                        lemma_offset_at_least_index(v, k);
                        assert(indices@[2 * (p - k)] == indices@.subrange(0, 2 * (off - e))[2 * (p - k)]);
                        assert(indices@[2 * (p - k) + 1] == indices@.subrange(0, 2 * (off - e))[2 * (p
                            - k) + 1]);
                    } else {
                        assert(k == e);
                        assert(off <= p < off + i);
                        assert(indices@[2 * (p - e)] == p as u32);
                    }
                }
            }
            e = e + 1;
        }
        proof {
            lemma_sum_take_all(v.counts);
        }
        (metas, edge_nodes, indices)
    }

    /// One relaxation sweep over the flat coordinate buffer `points`
    /// (`x0, y0, x1, y1, ...`): every interior point of every edge is moved
    /// to what `update` makes of its own position and those of its two
    /// neighbours along the edge, all read from the buffer as it was before
    /// the sweep; every other coordinate is left as it was.
    pub fn step<T: Copy, F: Fn(T, T, T, T, T, T) -> (T, T)>(&self, points: &mut Vec<T>, update: F)
        requires
            2 * self@.total() <= old(points)@.len(),
            forall|px: T, py: T, ax: T, ay: T, bx: T, by: T| update.requires((px, py, ax, ay, bx, by)),
        ensures
            final(points)@.len() == old(points)@.len(),
            forall|p: int| #[trigger] self@.is_interior(p) ==> relaxed(update, old(points)@, final(points)@, p),
            forall|p: int|
                #[trigger] self@.is_interior(p) ==> call_ensures(
                    update,
                    (
                        old(points)@[2 * p],
                        old(points)@[2 * p + 1],
                        old(points)@[2 * (p - 1)],
                        old(points)@[2 * (p - 1) + 1],
                        old(points)@[2 * (p + 1)],
                        old(points)@[2 * (p + 1) + 1],
                    ),
                    (final(points)@[2 * p], final(points)@[2 * p + 1]),
                ),
            forall|k: int|
                0 <= k < old(points)@.len() && !self@.is_interior(k / 2) ==> #[trigger] final(points)@[k]
                    == old(points)@[k],
    {
        proof {
            use_type_invariant(self);
        }
        let ghost v = self@;
        let ghost start = points@;
        let current = copy_of(points);
        let n = self.counts.len();
        proof {
            assert(v.counts.take(0) =~= Seq::<usize>::empty());
            assert forall|p: int| #[trigger] v.is_interior(p) && p < v.offset(0) implies relaxed(update, start, points@, p) by {
                lemma_interior_positive(v, p);
            }
        }
        let mut e: usize = 0;
        while e < n
            invariant
                v == self@,
                v.wf(),
                n == v.num_edges(),
                self.offsets@.len() == n,
                forall|k: int| 0 <= k < n ==> #[trigger] self.offsets@[k] == v.offset(k),
                2 * v.total() <= start.len(),
                current@ == start,
                points@.len() == start.len(),
                forall|a: T, b: T, c: T, d: T, x: T, y: T| update.requires((a, b, c, d, x, y)),
                e <= n,
                forall|k: int| 2 * v.offset(e as int) <= k < start.len() ==> #[trigger] points@[k] == start[k],
                forall|k: int| 0 <= k < start.len() && !v.is_interior(k / 2) ==> #[trigger] points@[k] == start[k],
                forall|p: int| #[trigger] v.is_interior(p) && p < v.offset(e as int) ==> relaxed(update, start, points@, p),
            decreases n - e,
        {
            let off = self.offsets[e];
            let count = self.counts[e];
            proof {
                lemma_sum_take_next(v.counts, e as int);
                lemma_sum_take_monotone(v.counts, e as int + 1, n as int);
                lemma_sum_take_all(v.counts);
                lemma_offset_nonneg(v, e as int);
                lemma_end_not_interior(v, e as int, off as int);
            }
            let mut i: usize = 1;
            while i < count - 1
                invariant
                    v == self@,
                    v.wf(),
                    e < n,
                    n == v.num_edges(),
                    off == v.offset(e as int),
                    count == v.counts[e as int],
                    count >= 3,
                    off + count <= v.total(),
                    2 * v.total() <= start.len(),
                    current@ == start,
                    points@.len() == start.len(),
                    forall|a: T, b: T, c: T, d: T, x: T, y: T| update.requires((a, b, c, d, x, y)),
                    1 <= i <= count - 1,
                    forall|k: int| 2 * (off + i) <= k < start.len() ==> #[trigger] points@[k] == start[k],
                    forall|k: int| 0 <= k < start.len() && !v.is_interior(k / 2) ==> #[trigger] points@[k] == start[k],
                    forall|p: int| #[trigger] v.is_interior(p) && p < off + i ==> relaxed(update, start, points@, p),
                decreases count - 1 - i,
            {
                let curr_base = 2 * (off + i);
                let prev_base = 2 * (off + i - 1);
                let next_base = 2 * (off + i + 1);
                let (new_x, new_y) = update(
                    current[curr_base],
                    current[curr_base + 1],
                    current[prev_base],
                    current[prev_base + 1],
                    current[next_base],
                    current[next_base + 1],
                );
                let ghost before = points@;
                points[curr_base] = new_x;
                points[curr_base + 1] = new_y;
                proof {
                    let p = off + i;
                    assert(v.offset(e as int) < p && p < v.offset(e as int) + v.counts[e as int] - 1);
                    assert(v.is_interior(p));
                    assert forall|k: int| 0 <= k < start.len() && !v.is_interior(k / 2) implies #[trigger] points@[k] == start[k] by {
                        assert(k != curr_base && k != curr_base + 1);
                        assert(points@[k] == before[k]);
                    }
                    assert forall|q: int| #[trigger] v.is_interior(q) && q < off + i + 1 implies relaxed(update, start, points@, q) by {
                        lemma_interior_positive(v, q);
                        if q < p {
                            assert(points@[2 * q] == before[2 * q]);
                            assert(points@[2 * q + 1] == before[2 * q + 1]);
                        }
                    }
                }
                i = i + 1;
            }
            proof {
                let last = off + count - 1;
                lemma_end_not_interior(v, e as int, last as int);
                assert forall|q: int| #[trigger] v.is_interior(q) && q < v.offset(e + 1) implies relaxed(update, start, points@, q) by {
                    if q == last {
                    }
                }
            }
            e = e + 1;
        }
        proof {
            assert forall|p: int| #[trigger] v.is_interior(p) implies relaxed(update, start, points@, p) by {
                let k = choose|k: int| 0 <= k < v.num_edges() && #[trigger] v.offset(k) < p && p < v.offset(k) + v.counts[k] - 1;
                lemma_offset_gap_or_equal(v, k + 1, n as int);
                lemma_sum_take_next(v.counts, k);
            }
            assert forall|p: int| #[trigger] v.is_interior(p) implies call_ensures(
                update,
                (
                    start[2 * p],
                    start[2 * p + 1],
                    start[2 * (p - 1)],
                    start[2 * (p - 1) + 1],
                    start[2 * (p + 1)],
                    start[2 * (p + 1) + 1],
                ),
                (points@[2 * p], points@[2 * p + 1]),
            ) by {
                lemma_relaxed_reads_neighbours(update, start, points@, p);
            }
        }
    }
}

} // verus!

verus! {

/// Every control point belongs to exactly one edge: each point below the
/// total is owned by some edge, and no point by two.
pub proof fn lemma_points_have_one_owner(v: LayoutView, p: int)
    requires
        v.wf(),
        0 <= p < v.total(),
    ensures
        exists|e: int| #[trigger] v.owns(e, p),
        forall|e1: int, e2: int| #[trigger] v.owns(e1, p) && #[trigger] v.owns(e2, p) ==> e1 == e2,
{
    lemma_sum_take_all(v.counts);
    lemma_owner_exists(v, p, v.num_edges());
    assert forall|e1: int, e2: int| #[trigger] v.owns(e1, p) && #[trigger] v.owns(e2, p) implies e1
        == e2 by {
        if e1 < e2 {
            lemma_offset_gap(v, e1, e2);
        } else if e2 < e1 {
            lemma_offset_gap(v, e2, e1);
        }
    }
}

/// A point below the offset of edge `upto` is owned by one of the edges
/// before it.
proof fn lemma_owner_exists(v: LayoutView, p: int, upto: int)
    requires
        v.wf(),
        0 <= upto <= v.num_edges(),
        0 <= p < v.offset(upto),
    ensures
        exists|e: int| #[trigger] v.owns(e, p),
    decreases upto,
{
    if upto == 0 {
        assert(v.counts.take(0) =~= Seq::<usize>::empty());
    } else {
        lemma_sum_take_next(v.counts, upto - 1);
        if p >= v.offset(upto - 1) {
            assert(v.owns(upto - 1, p));
        } else {
            lemma_owner_exists(v, p, upto - 1);
        }
    }
    lemma_sum_take_all(v.counts);
}

/// A point of an edge that is not one of its ends has both of its
/// neighbours on the same edge.
pub proof fn lemma_neighbours_on_same_edge(v: LayoutView, e: int, p: int)
    requires
        v.wf(),
        v.owns(e, p),
        !v.is_end_of(e, p),
    ensures
        v.owns(e, p - 1),
        v.owns(e, p + 1),
{
}

/// The points that the metadata marks as not static are exactly the points
/// that [`ControlPointLayout::step`] moves: the interior points.
pub proof fn lemma_static_iff_not_interior(v: LayoutView, e: int, p: int)
    requires
        v.wf(),
        v.owns(e, p),
    ensures
        (v.meta_of(e, p).is_static == 0) <==> v.is_interior(p),
        (v.meta_of(e, p).is_static == 0) || v.meta_of(e, p) == pinned_meta(),
{
    if v.is_end_of(e, p) {
        lemma_end_not_interior(v, e, p);
    } else {
        assert(v.offset(e) < p && p < v.offset(e) + v.counts[e] - 1);
    }
}

/// A relaxation sweep never moves the ends of an edge: with `new` what
/// [`ControlPointLayout::step`] makes of `old`, both coordinates of the first
/// and of the last point of every edge are unchanged.
pub proof fn lemma_step_keeps_ends<T>(v: LayoutView, old: Seq<T>, new: Seq<T>)
    requires
        v.wf(),
        2 * v.total() <= old.len(),
        new.len() == old.len(),
        forall|k: int|
            0 <= k < old.len() && !v.is_interior(k / 2) ==> #[trigger] new[k] == old[k],
    ensures
        forall|e: int, p: int|
            #[trigger] v.is_end_of(e, p) ==> new[2 * p] == old[2 * p] && new[2 * p + 1] == old[2 * p
                + 1],
{
    assert forall|e: int, p: int| #[trigger] v.is_end_of(e, p) implies new[2 * p] == old[2 * p]
        && new[2 * p + 1] == old[2 * p + 1] by {
        lemma_end_not_interior(v, e, p);
        lemma_offset_nonneg(v, e);
        lemma_sum_take_next(v.counts, e);
        lemma_sum_take_monotone(v.counts, e + 1, v.num_edges());
        lemma_sum_take_all(v.counts);
        assert((2 * p) / 2 == p);
        assert((2 * p + 1) / 2 == p);
        assert(new[2 * p] == old[2 * p]);
        assert(new[2 * p + 1] == old[2 * p + 1]);
    }
}

/// The line list of the metadata joins consecutive points of one edge: every
/// pair `p, p + 1` it holds has both points on the same edge.
pub proof fn lemma_segments_stay_on_edge(v: LayoutView, e: int, p: int)
    requires
        v.wf(),
        v.owns(e, p),
        p < v.offset(e) + v.counts[e] - 1,
    ensures
        v.owns(e, p + 1),
        0 <= 2 * (p - e),
        2 * (p - e) + 1 < 2 * (v.total() - v.num_edges()),
{
    lemma_offset_at_least_index(v, e);
    if e + 1 < v.num_edges() {
        lemma_offset_gap(v, e, v.num_edges());
    } else {
        lemma_sum_take_next(v.counts, e);
    }
    lemma_sum_take_all(v.counts);
}

} // verus!

verus! {

/// The line list of the metadata has no gaps: each of its
/// `2 * (total - num_edges)` positions is one of the two positions of the
/// segment that starts at some point `p` of some edge `e` (every point but the
/// last of its edge starts one segment).
pub proof fn lemma_segments_cover_line_list(v: LayoutView, j: int)
    requires
        v.wf(),
        0 <= j < 2 * (v.total() - v.num_edges()),
    ensures
        exists|e: int, p: int|
            #[trigger] v.owns(e, p) && p < v.offset(e) + v.counts[e] - 1 && (j == 2 * (p - e) || j
                == 2 * (p - e) + 1),
{
    lemma_sum_take_all(v.counts);
    lemma_segment_owner_exists(v, j / 2, v.num_edges());
    let (e, p) = choose|e: int, p: int|
        #[trigger] v.owns(e, p) && p < v.offset(e) + v.counts[e] - 1 && p - e == j / 2;
    assert(v.owns(e, p) && p < v.offset(e) + v.counts[e] - 1 && (j == 2 * (p - e) || j == 2 * (p
        - e) + 1));
}

/// Segment `s` of the line list (counting segments, not positions) starts at
/// a point of one of the edges before `upto`, when there are fewer than
/// `offset(upto) - upto` segments before it.
proof fn lemma_segment_owner_exists(v: LayoutView, s: int, upto: int)
    requires
        v.wf(),
        0 <= upto <= v.num_edges(),
        0 <= s < v.offset(upto) - upto,
    ensures
        exists|e: int, p: int|
            #[trigger] v.owns(e, p) && p < v.offset(e) + v.counts[e] - 1 && p - e == s,
    decreases upto,
{
    if upto == 0 {
        assert(v.counts.take(0) =~= Seq::<usize>::empty());
    } else {
        let e = upto - 1;
        lemma_sum_take_next(v.counts, e);
        lemma_offset_at_least_index(v, e);
        if s >= v.offset(e) - e {
            let p = s + e;
            assert(v.owns(e, p) && p < v.offset(e) + v.counts[e] - 1 && p - e == s);
        } else {
            lemma_segment_owner_exists(v, s, e);
        }
    }
}

} // verus!

verus! {

/// The metadata of a point says where it may move: the first and last point
/// of an edge are pinned (no neighbours), and any other point links to the
/// points just before and after it in the flat point buffer, whichever edge
/// it is on (as 32-bit indices, exact while they fit).
pub proof fn lemma_meta_links_global_neighbours(v: LayoutView, e: int, p: int)
    requires
        v.wf(),
        v.owns(e, p),
    ensures
        (p == v.offset(e) || p == v.offset(e) + v.counts[e] - 1) ==> v.meta_of(e, p) == (ControlPointMeta {
            prev_idx: -1i32,
            next_idx: -1i32,
            is_static: 1u32,
            padding: 0u32,
        }),
        (v.offset(e) < p < v.offset(e) + v.counts[e] - 1) ==> {
            &&& v.meta_of(e, p).prev_idx == (p - 1) as i32
            &&& v.meta_of(e, p).next_idx == (p + 1) as i32
            &&& v.meta_of(e, p).is_static == 0
            &&& v.meta_of(e, p).padding == 0
        },
        (v.offset(e) < p < v.offset(e) + v.counts[e] - 1 && p + 1 <= i32::MAX) ==> {
            &&& v.meta_of(e, p).prev_idx == p - 1
            &&& v.meta_of(e, p).next_idx == p + 1
        },
{
    lemma_offset_nonneg(v, e);
    lemma_sum_take_next(v.counts, e);
    lemma_sum_take_monotone(v.counts, e + 1, v.num_edges());
    lemma_sum_take_all(v.counts);
    assert(2 * v.total() <= usize::MAX);
    if v.offset(e) < p < v.offset(e) + v.counts[e] - 1 {
        assert(0 <= p - 1 && p + 1 < v.total());
    }
}

/// A relaxation sweep hands `update` the old position of the point and the
/// old positions of the points just before and after it in the buffer, for
/// every point.
pub proof fn lemma_relaxed_reads_neighbours<T, F: Fn(T, T, T, T, T, T) -> (T, T)>(
    update: F,
    old: Seq<T>,
    new: Seq<T>,
    p: int,
)
    ensures
        relaxed(update, old, new, p) <==> call_ensures(
            update,
            (
                old[2 * p],
                old[2 * p + 1],
                old[2 * (p - 1)],
                old[2 * (p - 1) + 1],
                old[2 * (p + 1)],
                old[2 * (p + 1) + 1],
            ),
            (new[2 * p], new[2 * p + 1]),
        ),
{
    assert(2 * (p - 1) == 2 * p - 2);
    assert(2 * (p + 1) == 2 * p + 2);
}

/// An edge with `s` whole spacings gets one point per spacing plus its two
/// ends, and never fewer than three: the larger of `s + 2` and 3.
pub proof fn lemma_planned_count_is_max(s: usize)
    ensures
        planned_count(s) >= s + 2,
        planned_count(s) >= 3,
        planned_count(s) == s + 2 || planned_count(s) == 3,
        s >= 1 ==> planned_count(s) == s + 2,
        s == 0 ==> planned_count(s) == 3,
{
}

/// Every planned count fits when the plan does, and each is the larger of
/// the step number plus two and three.
pub proof fn lemma_planned_counts_fit(steps: Seq<usize>, e: int)
    requires
        plan_fits(steps),
        0 <= e < steps.len(),
    ensures
        planned_counts(steps)[e] == steps[e] + 2 || (steps[e] == 0 && planned_counts(steps)[e]
            == 3),
        planned_counts(steps)[e] >= 3,
{
    assert(steps[e] + 2 <= usize::MAX);
}

/// A point is interior exactly when it belongs to an edge and is neither its
/// first nor its last point.
pub proof fn lemma_interior_iff_not_end(v: LayoutView, e: int, p: int)
    requires
        v.wf(),
        v.owns(e, p),
    ensures
        v.is_interior(p) <==> (p != v.offset(e) && p != v.offset(e) + v.counts[e] - 1),
{
    if p != v.offset(e) && p != v.offset(e) + v.counts[e] - 1 {
        assert(v.offset(e) < p && p < v.offset(e) + v.counts[e] - 1);
    } else {
        lemma_end_not_interior(v, e, p);
    }
}

/// The sum of no counts is zero, and each count adds itself.
pub proof fn lemma_sum_is_total(counts: Seq<usize>, c: usize)
    ensures
        sum(Seq::<usize>::empty()) == 0,
        sum(counts.push(c)) == sum(counts) + c,
{
    assert(counts.push(c).drop_last() =~= counts);
}

} // verus!

verus! {

/// The offsets are the running totals of the counts: edge 0 starts at point
/// 0, each edge starts right after the last point of the one before, and the
/// total is where an edge after the last would start.
pub proof fn lemma_offsets_are_running_totals(v: LayoutView, e: int)
    requires
        0 <= e < v.num_edges(),
    ensures
        v.offset(0) == 0,
        v.offset(e + 1) == v.offset(e) + v.counts[e],
        v.total() == v.offset(v.num_edges()),
{
    assert(v.counts.take(0) =~= Seq::<usize>::empty());
    lemma_sum_take_next(v.counts, e);
    lemma_sum_take_all(v.counts);
}

/// Every point carries the end nodes of its own edge.
pub proof fn lemma_edge_nodes_are_the_edge(v: LayoutView, e: int)
    ensures
        v.edge_nodes_of(e).source == v.edges[e].source as u32,
        v.edge_nodes_of(e).target_node == v.edges[e].target as u32,
{
}

/// A plan fits exactly when every count of two more than its step number
/// fits, and so do twice the counts together.
pub proof fn lemma_plan_fits_means_no_overflow(steps: Seq<usize>)
    ensures
        plan_fits(steps) <==> (forall|e: int| 0 <= e < steps.len() ==> #[trigger] steps[e] + 2
            <= usize::MAX) && 2 * sum(planned_counts(steps)) <= usize::MAX,
        planned_counts(steps).len() == steps.len(),
{
}

} // verus!
