//! The directed flow network and its push-relabel maximum-flow solver.
//!
//! Node identities are the integers `0 .. id_space`, a dense layout suited to
//! networks derived from a bounded grid; the node set, per-pair capacities and
//! flows, and per-node labels (height, excess) follow the classic preflow
//! formulation.  Every added forward edge must have its reverse pair present
//! (with capacity 0 if no true reverse edge exists) before the solver runs, so
//! residual pushes are always representable.

use vstd::prelude::*;

verus! {

/// Upper bound on the size of a network's id space, chosen so that every sum
/// of capacities or flows fits comfortably in an `i64`.
pub const NODE_LIMIT: usize = 4096;

/// Upper bound on a single edge capacity, chosen so that every sum of
/// capacities or flows fits comfortably in an `i64`.
pub const CAP_LIMIT: i64 = 0xFFFF_FFFF;

/// Largest height a relabel may produce; heights stay below twice the node
/// count, which is far below this bound.
pub const HEIGHT_LIMIT: u64 = 0x20_0000_0000_0000;

/// Rejected construction request.
#[derive(Debug, Clone, Copy, PartialEq, Eq, Structural)]
pub enum NetworkError {
    /// Source or sink out of the id space, or equal to each other.
    InvalidEndpoints,
    /// A capacity outside `0 ..= CAP_LIMIT`.
    CapacityOutOfRange,
    /// An initial flow outside `-CAP_LIMIT ..= capacity`.
    FlowOutOfRange,
}

/// Rejected solver run.
#[derive(Debug, Clone, Copy, PartialEq, Eq, Structural)]
pub enum SolveError {
    /// The source or the sink has not been added to the node set.
    MissingEndpoint,
}

/// A directed flow network over the dense node id space `0 .. id_space`,
/// with a distinguished source and sink.
pub struct FlowNetwork {
    n_ids: usize,
    present: Vec<bool>,
    edges: Vec<Vec<bool>>,
    caps: Vec<Vec<i64>>,
    flows: Vec<Vec<i64>>,
    heights: Vec<u64>,
    excesses: Vec<i64>,
    source: usize,
    sink: usize,
}

/// Number of `true` entries of `s` below index `k`.
pub open spec fn count_true(s: Seq<bool>, k: int) -> int
    decreases k,
{
    if k <= 0 {
        0
    } else {
        count_true(s, k - 1) + if s[k - 1] {
            1int
        } else {
            0int
        }
    }
}

/// The count of `true` entries below `k` lies between 0 and `k`.
pub proof fn lemma_count_true_le(s: Seq<bool>, k: int)
    requires
        k >= 0,
    ensures
        0 <= count_true(s, k) <= k,
    decreases k,
{
    if k > 0 {
        lemma_count_true_le(s, k - 1);
    }
}

impl FlowNetwork {
    /// Size of the id space (ids run from 0 to this, exclusive).
    pub closed spec fn id_space(self) -> int {
        self.n_ids as int
    }

    /// The distinguished source node id.
    pub closed spec fn source_id(self) -> int {
        self.source as int
    }

    /// The distinguished sink node id.
    pub closed spec fn sink_id(self) -> int {
        self.sink as int
    }

    /// Whether `u` is in the node set.
    pub closed spec fn node_at(self, u: int) -> bool {
        0 <= u < self.id_space() && self.present@[u]
    }

    /// Whether the directed edge `(u, v)` has been added.
    pub closed spec fn edge_at(self, u: int, v: int) -> bool {
        0 <= u < self.id_space() && 0 <= v < self.id_space() && self.edges@[u]@[v]
    }

    /// Capacity of the pair `(u, v)`; 0 when no edge is present.
    pub closed spec fn cap_at(self, u: int, v: int) -> int {
        if 0 <= u < self.id_space() && 0 <= v < self.id_space() {
            self.caps@[u]@[v] as int
        } else {
            0
        }
    }

    /// Flow of the pair `(u, v)`; 0 when no edge is present.
    pub closed spec fn flow_at(self, u: int, v: int) -> int {
        if 0 <= u < self.id_space() && 0 <= v < self.id_space() {
            self.flows@[u]@[v] as int
        } else {
            0
        }
    }

    /// Height (push-relabel label) of node `u`.
    pub closed spec fn height_at(self, u: int) -> int {
        if 0 <= u < self.id_space() {
            self.heights@[u] as int
        } else {
            0
        }
    }

    /// Excess (net accumulated inflow) of node `u`.
    pub closed spec fn excess_at(self, u: int) -> int {
        if 0 <= u < self.id_space() {
            self.excesses@[u] as int
        } else {
            0
        }
    }

    /// Number of nodes in the node set.
    pub closed spec fn node_count(self) -> int {
        count_true(self.present@, self.id_space())
    }

    /// Remaining pushable flow on the pair `(u, v)`.
    pub open spec fn residual_at(self, u: int, v: int) -> int {
        self.cap_at(u, v) - self.flow_at(u, v)
    }

    /// Whether `(u, v)` is an edge with positive residual capacity.
    pub open spec fn residual_edge(self, u: int, v: int) -> bool {
        self.edge_at(u, v) && self.flow_at(u, v) < self.cap_at(u, v)
    }

    /// Every edge has its reverse pair present, so residual pushes are
    /// always representable.
    pub open spec fn edges_paired(self) -> bool {
        forall|u: int, v: int| #[trigger] self.edge_at(u, v) ==> self.edge_at(v, u)
    }

    /// Skew symmetry: the flow of each pair is the negation of the flow of
    /// the reverse pair.
    pub open spec fn skew_symmetric(self) -> bool {
        forall|u: int, v: int|
            0 <= u < self.id_space() && 0 <= v < self.id_space() ==> #[trigger] self.flow_at(u, v)
                == -self.flow_at(v, u)
    }

    /// Each flow lies between the negated reverse capacity and the capacity
    /// of its own pair.
    pub open spec fn flow_bounded(self) -> bool {
        forall|u: int, v: int|
            0 <= u < self.id_space() && 0 <= v < self.id_space() ==> -self.cap_at(v, u)
                <= #[trigger] self.flow_at(u, v) <= self.cap_at(u, v)
    }

    /// Sum of the flows into `v` from the nodes below `k`.
    pub open spec fn col_flow(self, v: int, k: int) -> int
        decreases k,
    {
        if k <= 0 {
            0
        } else {
            self.col_flow(v, k - 1) + self.flow_at(k - 1, v)
        }
    }

    /// Sum of the flows out of `u` into the nodes below `k`.
    pub open spec fn row_flow(self, u: int, k: int) -> int
        decreases k,
    {
        if k <= 0 {
            0
        } else {
            self.row_flow(u, k - 1) + self.flow_at(u, k - 1)
        }
    }

    /// Sum of the capacities out of `u` into the nodes below `k`.
    pub open spec fn row_cap(self, u: int, k: int) -> int
        decreases k,
    {
        if k <= 0 {
            0
        } else {
            self.row_cap(u, k - 1) + self.cap_at(u, k - 1)
        }
    }

    /// Sum of the excesses of the nodes below `k`.
    pub open spec fn excess_total(self, k: int) -> int
        decreases k,
    {
        if k <= 0 {
            0
        } else {
            self.excess_total(k - 1) + self.excess_at(k - 1)
        }
    }

    /// Sum over the columns below `m` of the flow into each from the nodes
    /// below `k`.
    pub open spec fn cols_total(self, m: int, k: int) -> int
        decreases m,
    {
        if m <= 0 {
            0
        } else {
            self.cols_total(m - 1, k) + self.col_flow(m - 1, k)
        }
    }

    /// Net flow into node `v`: inflow minus outflow, by skew symmetry.
    pub open spec fn flow_into(self, v: int) -> int {
        self.col_flow(v, self.id_space())
    }

    /// Net flow out of node `u`.
    pub open spec fn flow_out_of(self, u: int) -> int {
        self.row_flow(u, self.id_space())
    }

    /// Total capacity of the edges leaving node `u`.
    pub open spec fn cap_out_of(self, u: int) -> int {
        self.row_cap(u, self.id_space())
    }

    /// The stored excess of every node equals the net flow into it.
    pub open spec fn excess_binding(self) -> bool {
        forall|v: int| 0 <= v < self.id_space() ==> #[trigger] self.excess_at(v) == self.flow_into(
            v,
        )
    }

    /// Every node but the source has non-negative excess.
    pub open spec fn excess_nonneg(self) -> bool {
        forall|v: int|
            0 <= v < self.id_space() && v != self.source_id() ==> #[trigger] self.excess_at(v) >= 0
    }

    /// Flow conservation: at every node other than the source and the sink,
    /// inflow equals outflow.
    pub open spec fn conserved(self) -> bool {
        forall|v: int|
            0 <= v < self.id_space() && v != self.source_id() && v != self.sink_id()
                ==> #[trigger] self.flow_into(v) == 0
    }

    /// Heights form a valid labeling: along any residual edge the tail is at
    /// most one higher than the head.
    pub open spec fn valid_labeling(self) -> bool {
        forall|u: int, v: int| #[trigger] self.residual_edge(u, v) ==> self.height_at(u)
            <= self.height_at(v) + 1
    }

    /// Structural well-formedness of the representation: matrix shapes,
    /// capacity ranges, flows confined to edges, edges confined to nodes.
    pub closed spec fn wf(self) -> bool {
        &&& self.n_ids <= NODE_LIMIT
        &&& self.source < self.n_ids
        &&& self.sink < self.n_ids
        &&& self.source != self.sink
        &&& self.present@.len() == self.n_ids
        &&& self.heights@.len() == self.n_ids
        &&& self.excesses@.len() == self.n_ids
        &&& self.edges@.len() == self.n_ids
        &&& self.caps@.len() == self.n_ids
        &&& self.flows@.len() == self.n_ids
        &&& forall|u: int| 0 <= u < self.n_ids ==> #[trigger] self.edges@[u]@.len() == self.n_ids
        &&& forall|u: int| 0 <= u < self.n_ids ==> #[trigger] self.caps@[u]@.len() == self.n_ids
        &&& forall|u: int| 0 <= u < self.n_ids ==> #[trigger] self.flows@[u]@.len() == self.n_ids
        &&& forall|u: int, v: int|
            0 <= u < self.n_ids && 0 <= v < self.n_ids ==> 0 <= #[trigger] self.caps@[u]@[v]
                <= CAP_LIMIT
        &&& forall|u: int, v: int|
            0 <= u < self.n_ids && 0 <= v < self.n_ids ==> -CAP_LIMIT <= #[trigger] self.flows@[u]@[v]
                <= self.caps@[u]@[v]
        &&& forall|u: int, v: int|
            0 <= u < self.n_ids && 0 <= v < self.n_ids && !(#[trigger] self.edges@[u]@[v])
                ==> self.caps@[u]@[v] == 0 && self.flows@[u]@[v] == 0
        &&& forall|u: int, v: int|
            0 <= u < self.n_ids && 0 <= v < self.n_ids && #[trigger] self.edges@[u]@[v] ==> u != v
                && self.present@[u] && self.present@[v]
    }

    /// Creates a network over the id space `0 .. n_ids` with the given source
    /// and sink, an empty node set, and no edges.  Rejects an id space that
    /// exceeds `NODE_LIMIT` and endpoints that are out of range or equal.
    pub fn new(n_ids: usize, source: usize, sink: usize) -> (r: Result<FlowNetwork, NetworkError>)
        ensures
            r is Ok <==> (n_ids <= NODE_LIMIT && source < n_ids && sink < n_ids && source != sink),
            r matches Err(e) ==> e == NetworkError::InvalidEndpoints,
            r matches Ok(net) ==> {
                &&& net.wf()
                &&& net.id_space() == n_ids
                &&& net.source_id() == source
                &&& net.sink_id() == sink
                &&& forall|u: int| !(#[trigger] net.node_at(u))
                &&& forall|u: int, v: int| !(#[trigger] net.edge_at(u, v))
                &&& forall|u: int, v: int| #[trigger] net.cap_at(u, v) == 0
                &&& forall|u: int, v: int| #[trigger] net.flow_at(u, v) == 0
                &&& forall|u: int| #[trigger] net.height_at(u) == 0
                &&& forall|u: int| #[trigger] net.excess_at(u) == 0
            },
    {
        if n_ids > NODE_LIMIT || source >= n_ids || sink >= n_ids || source == sink {
            return Err(NetworkError::InvalidEndpoints);
        }
        let net = FlowNetwork {
            n_ids,
            present: falses(n_ids),
            edges: bool_matrix(n_ids),
            caps: zero_matrix(n_ids),
            flows: zero_matrix(n_ids),
            heights: zero_u64s(n_ids),
            excesses: zero_i64s(n_ids),
            source,
            sink,
        };
        Ok(net)
    }

    /// Inserts the node `id` into the node set with height 0 and excess 0;
    /// a node already present is left as it is.
    pub fn add_node(&mut self, id: usize)
        requires
            old(self).wf(),
            id < old(self).id_space(),
        ensures
            final(self).wf(),
            final(self).node_at(id as int),
            forall|u: int| u != id ==> #[trigger] final(self).node_at(u) == old(self).node_at(u),
            final(self).id_space() == old(self).id_space(),
            final(self).source_id() == old(self).source_id(),
            final(self).sink_id() == old(self).sink_id(),
            forall|u: int, v: int| #[trigger] final(self).edge_at(u, v) == old(self).edge_at(u, v),
            forall|u: int, v: int| #[trigger] final(self).cap_at(u, v) == old(self).cap_at(u, v),
            forall|u: int, v: int| #[trigger] final(self).flow_at(u, v) == old(self).flow_at(u, v),
            forall|u: int| #[trigger] final(self).height_at(u) == old(self).height_at(u),
            forall|u: int| #[trigger] final(self).excess_at(u) == old(self).excess_at(u),
    {
        self.present[id] = true;
    }

    /// Inserts the directed edge `(from, to)` with the given capacity and
    /// initial flow.  A request whose capacity or flow is out of range is
    /// rejected; a pair that is already present is left as it is (the first
    /// writer wins), which makes multi-pass construction idempotent.
    ///
    /// The reverse pair is not created automatically: callers add
    /// `(to, from, 0, 0)` themselves when no true reverse edge exists.
    pub fn add_edge(&mut self, from: usize, to: usize, capacity: i64, flow: i64) -> (r: Result<
        (),
        NetworkError,
    >)
        requires
            old(self).wf(),
            from < old(self).id_space(),
            to < old(self).id_space(),
            from != to,
            old(self).node_at(from as int),
            old(self).node_at(to as int),
        ensures
            final(self).wf(),
            r is Ok <==> (0 <= capacity <= CAP_LIMIT && -CAP_LIMIT <= flow <= capacity),
            r matches Err(e) ==> (e == NetworkError::CapacityOutOfRange <==> !(0 <= capacity
                <= CAP_LIMIT)) && (e == NetworkError::FlowOutOfRange <==> (0 <= capacity
                <= CAP_LIMIT && !(-CAP_LIMIT <= flow <= capacity))),
            r is Err ==> *final(self) == *old(self),
            old(self).edge_at(from as int, to as int) ==> *final(self) == *old(self),
            r is Ok && !old(self).edge_at(from as int, to as int) ==> {
                &&& final(self).edge_at(from as int, to as int)
                &&& final(self).cap_at(from as int, to as int) == capacity
                &&& final(self).flow_at(from as int, to as int) == flow
                &&& forall|u: int, v: int|
                    !(u == from && v == to) ==> #[trigger] final(self).edge_at(u, v) == old(self).edge_at(u, v)
                &&& forall|u: int, v: int|
                    !(u == from && v == to) ==> #[trigger] final(self).cap_at(u, v) == old(self).cap_at(u, v)
                &&& forall|u: int, v: int|
                    !(u == from && v == to) ==> #[trigger] final(self).flow_at(u, v) == old(self).flow_at(u, v)
            },
            final(self).id_space() == old(self).id_space(),
            final(self).source_id() == old(self).source_id(),
            final(self).sink_id() == old(self).sink_id(),
            forall|u: int| #[trigger] final(self).node_at(u) == old(self).node_at(u),
            forall|u: int| #[trigger] final(self).height_at(u) == old(self).height_at(u),
            forall|u: int| #[trigger] final(self).excess_at(u) == old(self).excess_at(u),
    {
        if capacity < 0 || capacity > CAP_LIMIT {
            return Err(NetworkError::CapacityOutOfRange);
        }
        if flow < -CAP_LIMIT || flow > capacity {
            return Err(NetworkError::FlowOutOfRange);
        }
        if self.edges[from][to] {
            return Ok(());
        }
        self.edges[from][to] = true;
        self.caps[from][to] = capacity;
        self.flows[from][to] = flow;
        Ok(())
    }

    /// Capacity of `(from, to)`; 0 when the edge is absent (absence is not
    /// an error).
    pub fn capacity(&self, from: usize, to: usize) -> (r: i64)
        requires
            self.wf(),
        ensures
            r == self.cap_at(from as int, to as int),
    {
        if from < self.n_ids && to < self.n_ids {
            self.caps[from][to]
        } else {
            0
        }
    }

    /// Flow of `(from, to)`; 0 when the edge is absent.
    pub fn flow(&self, from: usize, to: usize) -> (r: i64)
        requires
            self.wf(),
        ensures
            r == self.flow_at(from as int, to as int),
    {
        if from < self.n_ids && to < self.n_ids {
            self.flows[from][to]
        } else {
            0
        }
    }

    /// Remaining pushable flow on `(from, to)`: capacity minus flow.
    pub fn residual_capacity(&self, from: usize, to: usize) -> (r: i64)
        requires
            self.wf(),
        ensures
            r == self.residual_at(from as int, to as int),
    {
        if from < self.n_ids && to < self.n_ids {
            self.caps[from][to] - self.flows[from][to]
        } else {
            0
        }
    }

    /// The nodes with an outgoing edge from `u`, in ascending id order.  An
    /// edge of capacity 0 (a pure residual edge) still counts as a neighbor.
    pub fn neighbors(&self, u: usize) -> (r: Vec<usize>)
        requires
            self.wf(),
            u < self.id_space(),
        ensures
            forall|i: int, j: int| 0 <= i < j < r@.len() ==> r@[i] < r@[j],
            forall|i: int| 0 <= i < r@.len() ==> self.edge_at(u as int, #[trigger] r@[i] as int),
            forall|v: int| self.edge_at(u as int, v) ==> r@.contains(v as usize),
    {
        let mut r: Vec<usize> = Vec::new();
        let mut v: usize = 0;
        while v < self.n_ids
            invariant
                self.wf(),
                u < self.id_space(),
                v <= self.n_ids,
                forall|i: int| 0 <= i < r@.len() ==> (#[trigger] r@[i]) < v,
                forall|i: int, j: int| 0 <= i < j < r@.len() ==> r@[i] < r@[j],
                forall|i: int| 0 <= i < r@.len() ==> self.edge_at(u as int, #[trigger] r@[i] as int),
                forall|w: int| 0 <= w < v && self.edge_at(u as int, w) ==> r@.contains(w as usize),
            decreases self.n_ids - v,
        {
            let ghost prev = r@;
            if self.edges[u][v] {
                r.push(v);
            }
            proof {
                assert forall|w: int| 0 <= w < v + 1 && self.edge_at(u as int, w) implies r@
                    .contains(w as usize) by {
                    if w == v {
                        assert(r@[r@.len() - 1] == v);
                    } else {
                        let i = choose|i: int| 0 <= i < prev.len() && prev[i] == w as usize;
                        assert(r@[i] == w as usize);
                    }
                }
            }
            v = v + 1;
        }
        r
    }

    /// Size of the id space, as a value.
    pub fn id_space_size(&self) -> (r: usize)
        ensures
            r == self.id_space(),
    {
        self.n_ids
    }

    /// The source node id, as a value.
    pub fn source_node(&self) -> (r: usize)
        ensures
            r == self.source_id(),
    {
        self.source
    }

    /// The sink node id, as a value.
    pub fn sink_node(&self) -> (r: usize)
        ensures
            r == self.sink_id(),
    {
        self.sink
    }

    /// Whether `u` is in the node set.
    pub fn is_node(&self, u: usize) -> (r: bool)
        requires
            self.wf(),
        ensures
            r == self.node_at(u as int),
    {
        u < self.n_ids && self.present[u]
    }

    /// Whether the directed edge `(u, v)` has been added.
    pub fn has_edge(&self, u: usize, v: usize) -> (r: bool)
        requires
            self.wf(),
        ensures
            r == self.edge_at(u as int, v as int),
    {
        u < self.n_ids && v < self.n_ids && self.edges[u][v]
    }

    /// An overflowing node always has a residual edge to push on: its
    /// positive excess is carried by some positive incoming flow, and the
    /// reverse pair of that flow has positive residual capacity.
    pub proof fn lemma_excess_has_residual(self, v: int)
        requires
            self.wf(),
            self.skew_symmetric(),
            self.excess_binding(),
            self.edges_paired(),
            0 <= v < self.id_space(),
            self.excess_at(v) > 0,
        ensures
            exists|u: int| #[trigger] self.residual_edge(v, u),
    {
        lemma_col_flow_pos_exists(self, v, self.id_space());
        let u = choose|u: int| 0 <= u < self.id_space() && #[trigger] self.flow_at(u, v) > 0;
        assert(self.edge_at(u, v));
        assert(self.edge_at(v, u));
        assert(self.flow_at(v, u) == -self.flow_at(u, v));
        assert(self.residual_edge(v, u));
    }

    /// Moves `delta` units of flow from `from` to `to`, updating the pair,
    /// its reverse, and both excesses, and keeping skew symmetry and the
    /// excess bookkeeping intact.
    fn apply_flow_delta(&mut self, from: usize, to: usize, delta: i64)
        requires
            old(self).wf(),
            old(self).skew_symmetric(),
            old(self).excess_binding(),
            from < old(self).id_space(),
            to < old(self).id_space(),
            from != to,
            old(self).edge_at(from as int, to as int),
            old(self).edge_at(to as int, from as int),
            0 <= delta,
            old(self).flow_at(from as int, to as int) + delta <= old(self).cap_at(
                from as int,
                to as int,
            ),
        ensures
            final(self).wf(),
            final(self).skew_symmetric(),
            final(self).excess_binding(),
            final(self).n_ids == old(self).n_ids,
            final(self).source == old(self).source,
            final(self).sink == old(self).sink,
            final(self).present@ == old(self).present@,
            final(self).edges@ == old(self).edges@,
            final(self).caps@ == old(self).caps@,
            final(self).heights@ == old(self).heights@,
            final(self).flow_at(from as int, to as int) == old(self).flow_at(from as int, to as int)
                + delta,
            final(self).flow_at(to as int, from as int) == old(self).flow_at(
                to as int,
                from as int,
            ) - delta,
            forall|u: int, v: int|
                !(u == from && v == to) && !(u == to && v == from) ==> #[trigger] final(self).flow_at(u, v) == old(self).flow_at(u, v),
            final(self).excess_at(from as int) == old(self).excess_at(from as int) - delta,
            final(self).excess_at(to as int) == old(self).excess_at(to as int) + delta,
            forall|w: int|
                w != from && w != to ==> #[trigger] final(self).excess_at(w) == old(self).excess_at(
                    w,
                ),
    {
        let ghost pre = *self;
        proof {
            lemma_col_flow_bound(pre, from as int, pre.id_space());
            lemma_col_flow_bound(pre, to as int, pre.id_space());
            assert(pre.excess_at(from as int) == pre.flow_into(from as int));
            assert(pre.excess_at(to as int) == pre.flow_into(to as int));
        }
        let f_ft = self.flows[from][to];
        let f_tf = self.flows[to][from];
        self.flows[from][to] = f_ft + delta;
        self.flows[to][from] = f_tf - delta;
        let e_from = self.excesses[from];
        let e_to = self.excesses[to];
        self.excesses[from] = e_from - delta;
        self.excesses[to] = e_to + delta;
        proof {
            let n_int = self.id_space();
            let fi = from as int;
            let ti = to as int;
            assert forall|u: int, v: int|
                !(u == fi && v == ti) && !(u == ti && v == fi) implies #[trigger] self.flow_at(u, v)
                == pre.flow_at(u, v) by {}
            // Skew symmetry: the pair and its reverse moved by opposite deltas.
            lemma_push_preserves_skew(pre, *self, fi, ti, delta as int);
            // Excess bookkeeping: the net inflow of `from` fell by `delta`,
            // that of `to` rose by `delta`, and every other column is
            // unchanged.
            assert forall|w: int| 0 <= w < n_int implies #[trigger] self.excess_at(w)
                == self.flow_into(w) by {
                assert(pre.excess_at(w) == pre.flow_into(w));
                if w == fi {
                    lemma_col_flow_delta(pre, *self, fi, n_int, ti, -delta);
                } else if w == ti {
                    lemma_col_flow_delta(pre, *self, ti, n_int, fi, delta as int);
                } else {
                    lemma_col_flow_congruent(pre, *self, w, n_int);
                }
            }
        }
    }

    /// One push step: moves `min(excess(from), residual(from, to))` units
    /// along the admissible residual edge `(from, to)`.  Skew symmetry, the
    /// flow bounds, the excess bookkeeping and the height labeling all hold
    /// again after the push.
    pub fn max_flow_push(&mut self, from: usize, to: usize)
        requires
            old(self).wf(),
            old(self).skew_symmetric(),
            old(self).excess_binding(),
            old(self).flow_bounded(),
            old(self).valid_labeling(),
            old(self).excess_nonneg(),
            from < old(self).id_space(),
            to < old(self).id_space(),
            old(self).excess_at(from as int) > 0,
            old(self).residual_edge(from as int, to as int),
            old(self).edge_at(to as int, from as int),
            old(self).height_at(from as int) == old(self).height_at(to as int) + 1,
        ensures
            final(self).wf(),
            final(self).skew_symmetric(),
            final(self).excess_binding(),
            final(self).flow_bounded(),
            final(self).valid_labeling(),
            final(self).excess_nonneg(),
            final(self).id_space() == old(self).id_space(),
            final(self).source_id() == old(self).source_id(),
            final(self).sink_id() == old(self).sink_id(),
            final(self).node_count() == old(self).node_count(),
            forall|u: int| #[trigger] final(self).node_at(u) == old(self).node_at(u),
            forall|u: int, v: int| #[trigger] final(self).edge_at(u, v) == old(self).edge_at(u, v),
            forall|u: int, v: int| #[trigger] final(self).cap_at(u, v) == old(self).cap_at(u, v),
            forall|u: int| #[trigger] final(self).height_at(u) == old(self).height_at(u),
            ({
                let delta = if old(self).excess_at(from as int) <= old(self).residual_at(
                    from as int,
                    to as int,
                ) {
                    old(self).excess_at(from as int)
                } else {
                    old(self).residual_at(from as int, to as int)
                };
                &&& delta > 0
                &&& final(self).flow_at(from as int, to as int) == old(self).flow_at(
                    from as int,
                    to as int,
                ) + delta
                &&& final(self).flow_at(to as int, from as int) == old(self).flow_at(
                    to as int,
                    from as int,
                ) - delta
                &&& final(self).excess_at(from as int) == old(self).excess_at(from as int) - delta
                &&& final(self).excess_at(to as int) == old(self).excess_at(to as int) + delta
            }),
            forall|u: int, v: int|
                !(u == from && v == to) && !(u == to && v == from) ==> #[trigger] final(self).flow_at(u, v) == old(self).flow_at(u, v),
            forall|w: int|
                w != from && w != to ==> #[trigger] final(self).excess_at(w) == old(self).excess_at(
                    w,
                ),
    {
        let ghost pre = *self;
        let excess = self.excesses[from];
        let residual = self.caps[from][to] - self.flows[from][to];
        let delta = if excess <= residual {
            excess
        } else {
            residual
        };
        self.apply_flow_delta(from, to, delta);
        proof {
            let fi = from as int;
            let ti = to as int;
            let n_int = self.id_space();
            assert forall|u: int, v: int| 0 <= u < n_int && 0 <= v < n_int implies -self.cap_at(
                v,
                u,
            ) <= #[trigger] self.flow_at(u, v) <= self.cap_at(u, v) by {
                if u == fi && v == ti {
                    assert(pre.flow_at(fi, ti) >= -pre.cap_at(ti, fi));
                } else if u == ti && v == fi {
                    assert(pre.flow_at(ti, fi) <= pre.cap_at(ti, fi));
                }
            }
            assert forall|u: int, v: int| #[trigger] self.residual_edge(u, v) implies self
                .height_at(u) <= self.height_at(v) + 1 by {
                if u == ti && v == fi {
                } else if !(u == fi && v == ti) {
                    assert(pre.residual_edge(u, v));
                }
            }
        }
    }

    /// One relabel step: raises the height of `node` to one more than the
    /// lowest height among its residual neighbors.  Only applicable when no
    /// admissible edge leaves `node`; the height then strictly increases and
    /// the labeling stays valid.
    pub fn max_flow_relabel(&mut self, node: usize)
        requires
            old(self).wf(),
            old(self).valid_labeling(),
            node < old(self).id_space(),
            exists|v: int| #[trigger] old(self).residual_edge(node as int, v),
            forall|v: int| #[trigger] old(self).residual_edge(node as int, v) ==> old(self).height_at(node as int) != old(self).height_at(v) + 1,
            forall|v: int| 0 <= v < old(self).id_space() ==> #[trigger] old(self).height_at(v)
                < HEIGHT_LIMIT,
        ensures
            final(self).wf(),
            final(self).valid_labeling(),
            final(self).id_space() == old(self).id_space(),
            final(self).source_id() == old(self).source_id(),
            final(self).sink_id() == old(self).sink_id(),
            final(self).node_count() == old(self).node_count(),
            forall|u: int| #[trigger] final(self).node_at(u) == old(self).node_at(u),
            forall|u: int, v: int| #[trigger] final(self).edge_at(u, v) == old(self).edge_at(u, v),
            forall|u: int, v: int| #[trigger] final(self).cap_at(u, v) == old(self).cap_at(u, v),
            forall|u: int, v: int| #[trigger] final(self).flow_at(u, v) == old(self).flow_at(u, v),
            forall|u: int| #[trigger] final(self).excess_at(u) == old(self).excess_at(u),
            forall|v: int|
                v != node ==> #[trigger] final(self).height_at(v) == old(self).height_at(v),
            final(self).height_at(node as int) > old(self).height_at(node as int),
            exists|v: int|
                #[trigger] old(self).residual_edge(node as int, v) && final(self).height_at(
                    node as int,
                ) == old(self).height_at(v) + 1 && (forall|w: int|
                    #[trigger] old(self).residual_edge(node as int, w) ==> old(self).height_at(w)
                        >= old(self).height_at(v)),
    {
        let n = self.n_ids;
        let mut found = false;
        let mut best: u64 = 0;
        let ghost mut witness: int = 0int;
        let mut v: usize = 0;
        while v < n
            invariant
                self.wf(),
                n == self.n_ids,
                node < n,
                v <= n,
                forall|w: int| 0 <= w < self.id_space() ==> #[trigger] self.height_at(w)
                    < HEIGHT_LIMIT,
                !found ==> forall|w: int|
                    0 <= w < v ==> !(#[trigger] self.residual_edge(node as int, w)),
                found ==> self.residual_edge(node as int, witness) && best == self.height_at(
                    witness,
                ),
                found ==> forall|w: int|
                    0 <= w < v && #[trigger] self.residual_edge(node as int, w) ==> self.height_at(
                        w,
                    ) >= best,
            decreases n - v,
        {
            if self.edges[node][v] && self.flows[node][v] < self.caps[node][v] {
                let h = self.heights[v];
                if !found || h < best {
                    found = true;
                    best = h;
                    proof {
                        witness = v as int;
                    }
                }
            }
            v = v + 1;
        }
        proof {
            if !found {
                let w0 = choose|w: int| #[trigger] old(self).residual_edge(node as int, w);
                assert(self.residual_edge(node as int, w0));
                assert(0 <= w0 < self.id_space());
                assert(false);
            }
        }
        let ghost pre = *self;
        self.heights[node] = best + 1;
        proof {
            let ni = node as int;
            // No admissible edge left `node`, so its old height was at most
            // the height of every residual neighbor, including the lowest.
            assert(pre.residual_edge(ni, witness));
            assert(pre.height_at(ni) <= pre.height_at(witness) + 1);
            assert(pre.height_at(ni) != pre.height_at(witness) + 1);
            assert forall|u: int, v2: int| #[trigger] self.residual_edge(u, v2) implies self
                .height_at(u) <= self.height_at(v2) + 1 by {
                assert(pre.residual_edge(u, v2));
                if u == ni {
                    assert(pre.height_at(v2) >= pre.height_at(witness));
                }
            }
        }
    }

    /// Returns a node other than the source and the sink with positive
    /// excess, or `None` when no such node remains.
    pub fn max_flow_get_overflowing_node(&self) -> (r: Option<usize>)
        requires
            self.wf(),
        ensures
            match r {
                Some(v) => v < self.id_space() && v != self.source_id() && v != self.sink_id()
                    && self.excess_at(v as int) > 0,
                None => forall|v: int|
                    0 <= v < self.id_space() && v != self.source_id() && v != self.sink_id()
                        ==> #[trigger] self.excess_at(v) <= 0,
            },
    {
        let n = self.n_ids;
        let mut v: usize = 0;
        while v < n
            invariant
                self.wf(),
                n == self.n_ids,
                v <= n,
                forall|w: int|
                    0 <= w < v && w != self.source_id() && w != self.sink_id()
                        ==> #[trigger] self.excess_at(w) <= 0,
            decreases n - v,
        {
            if v != self.source && v != self.sink && self.excesses[v] > 0 {
                return Some(v);
            }
            v = v + 1;
        }
        None
    }

    /// Looks for an admissible edge out of `node`: a residual edge whose head
    /// sits exactly one level below `node`.
    fn find_admissible(&self, node: usize) -> (r: Option<usize>)
        requires
            self.wf(),
            node < self.id_space(),
        ensures
            match r {
                Some(t) => t < self.id_space() && self.residual_edge(node as int, t as int)
                    && self.height_at(node as int) == self.height_at(t as int) + 1,
                None => forall|t: int| #[trigger] self.residual_edge(node as int, t)
                    ==> self.height_at(node as int) != self.height_at(t) + 1,
            },
    {
        let n = self.n_ids;
        let h_node = self.heights[node];
        let mut t: usize = 0;
        while t < n
            invariant
                self.wf(),
                n == self.n_ids,
                node < n,
                t <= n,
                h_node == self.height_at(node as int),
                forall|w: int|
                    0 <= w < t && #[trigger] self.residual_edge(node as int, w) ==> self.height_at(
                        node as int,
                    ) != self.height_at(w) + 1,
            decreases n - t,
        {
            if self.edges[node][t] && self.flows[node][t] < self.caps[node][t] && h_node > 0
                && h_node - 1 == self.heights[t] {
                return Some(t);
            }
            t = t + 1;
        }
        proof {
            assert forall|w: int| #[trigger] self.residual_edge(node as int, w) implies self
                .height_at(node as int) != self.height_at(w) + 1 by {
                assert(0 <= w < self.id_space());
            }
        }
        None
    }

    /// Number of nodes in the node set, by a scan of the id space.
    fn count_nodes(&self) -> (r: usize)
        requires
            self.wf(),
        ensures
            r == self.node_count(),
            r <= self.id_space(),
    {
        let n = self.n_ids;
        let mut c: usize = 0;
        let mut i: usize = 0;
        while i < n
            invariant
                self.wf(),
                n == self.n_ids,
                i <= n,
                c == count_true(self.present@, i as int),
                c <= i,
            decreases n - i,
        {
            if self.present[i] {
                c = c + 1;
            }
            i = i + 1;
        }
        c
    }

    /// Net flow out of `u`, by a scan of its row.
    fn total_outflow(&self, u: usize) -> (r: i64)
        requires
            self.wf(),
            u < self.id_space(),
        ensures
            r == self.flow_out_of(u as int),
    {
        let n = self.n_ids;
        let mut total: i64 = 0;
        let mut v: usize = 0;
        while v < n
            invariant
                self.wf(),
                n == self.n_ids,
                u < n,
                v <= n,
                total == self.row_flow(u as int, v as int),
                -(v as int) * (CAP_LIMIT as int) <= total <= (v as int) * (CAP_LIMIT as int),
            decreases n - v,
        {
            total = total + self.flows[u][v];
            v = v + 1;
        }
        total
    }

    /// Runs the push-relabel algorithm in place: resets all flows, heights
    /// and excesses, lifts the source to the node count and saturates every
    /// edge out of it, then repeatedly pushes along admissible residual edges
    /// and relabels overflowing nodes until no node other than the source and
    /// the sink holds excess.  Returns the value of the maximum flow: the net
    /// flow out of the source.
    ///
    /// A network whose source or sink is missing from the node set is
    /// rejected before the preflow is initialized; on every other input the
    /// run succeeds.  Termination is proved: every overflowing node keeps a
    /// residual path to the source, so heights stay below twice the node
    /// count, and each iteration either spends relabel budget or pushes
    /// excess strictly downhill.  The run ends with skew symmetry, capacity
    /// respect, flow conservation and a valid labeling, which together make
    /// the flow maximal.
    pub fn solve_max_flow(&mut self) -> (r: Result<i64, SolveError>)
        requires
            old(self).wf(),
            old(self).edges_paired(),
        ensures
            final(self).wf(),
            final(self).edges_paired(),
            final(self).id_space() == old(self).id_space(),
            final(self).source_id() == old(self).source_id(),
            final(self).sink_id() == old(self).sink_id(),
            final(self).node_count() == old(self).node_count(),
            forall|u: int| #[trigger] final(self).node_at(u) == old(self).node_at(u),
            forall|u: int, v: int| #[trigger] final(self).edge_at(u, v) == old(self).edge_at(u, v),
            forall|u: int, v: int| #[trigger] final(self).cap_at(u, v) == old(self).cap_at(u, v),
            r is Err <==> !(old(self).node_at(old(self).source_id()) && old(self).node_at(
                old(self).sink_id(),
            )),
            r matches Err(e) ==> e == SolveError::MissingEndpoint,
            r is Err ==> *final(self) == *old(self),
            r is Ok ==> {
                &&& final(self).skew_symmetric()
                &&& final(self).flow_bounded()
                &&& final(self).excess_binding()
                &&& final(self).excess_nonneg()
                &&& final(self).conserved()
                &&& final(self).valid_labeling()
                &&& final(self).height_at(final(self).source_id()) == final(self).node_count()
                &&& final(self).height_at(final(self).sink_id()) == 0
            },
            r matches Ok(v) ==> v == final(self).flow_out_of(final(self).source_id()) && v == final(self).excess_at(final(self).sink_id()) && 0 <= v <= final(self).cap_out_of(
                final(self).source_id(),
            ),
    {
        let n = self.n_ids;
        let source = self.source;
        let sink = self.sink;
        if !self.present[source] || !self.present[sink] {
            return Err(SolveError::MissingEndpoint);
        }
        // Reset the solver state: every flow, height and excess to zero.
        self.flows = zero_matrix(n);
        self.heights = zero_u64s(n);
        self.excesses = zero_i64s(n);
        // Lift the source to the node count and saturate its outgoing edges.
        let count = self.count_nodes();
        self.heights[source] = count as u64;
        proof {
            assert forall|v: int| 0 <= v < self.id_space() implies #[trigger] self.excess_at(v)
                == self.flow_into(v) by {
                lemma_col_flow_zero(*self, v, self.id_space());
            }
        }
        let mut v: usize = 0;
        while v < n
            invariant
                self.wf(),
                self.skew_symmetric(),
                self.excess_binding(),
                self.excess_nonneg(),
                old(self).edges_paired(),
                n == self.n_ids,
                source == self.source,
                sink == self.sink,
                v <= n,
                count == self.node_count(),
                self.n_ids == old(self).n_ids,
                self.source == old(self).source,
                self.sink == old(self).sink,
                self.present@ == old(self).present@,
                self.edges@ == old(self).edges@,
                self.caps@ == old(self).caps@,
                self.height_at(source as int) == self.node_count(),
                forall|w: int|
                    0 <= w < self.id_space() && w != source ==> #[trigger] self.heights@[w] == 0,
                forall|w: int|
                    0 <= w < v && self.edge_at(source as int, w) ==> #[trigger] self.flow_at(
                        source as int,
                        w,
                    ) == self.cap_at(source as int, w),
                forall|w: int|
                    v <= w < self.id_space() ==> #[trigger] self.flow_at(source as int, w) == 0,
                forall|u: int, w: int|
                    0 <= u < self.id_space() && 0 <= w < self.id_space() && u != source && w
                        != source ==> #[trigger] self.flow_at(u, w) == 0,
            decreases n - v,
        {
            if self.edges[source][v] {
                proof {
                    assert(self.edge_at(source as int, v as int));
                    assert(old(self).edge_at(source as int, v as int));
                    assert(old(self).edge_at(v as int, source as int));
                    assert(self.edge_at(v as int, source as int));
                }
                let c = self.caps[source][v];
                self.apply_flow_delta(source, v, c);
            }
            v = v + 1;
        }
        // After saturation no residual edge leaves the source, so the lifted
        // source height makes the labeling valid.
        proof {
            assert forall|u: int, w: int| #[trigger] self.residual_edge(u, w) implies self
                .height_at(u) <= self.height_at(w) + 1 by {
                if u == source as int {
                    assert(self.flow_at(u, w) == self.cap_at(u, w));
                } else {
                    assert(self.heights@[u] == 0);
                }
            }
            lemma_count_true_le(self.present@, self.id_space());
            assert forall|w: int| 0 <= w < self.id_space() implies #[trigger] self.height_at(w)
                <= self.node_count() + 0 by {
                if w != source {
                    assert(self.heights@[w] == 0);
                }
            }
            assert(self.heights@[sink as int] == 0);
            assert forall|u: int| #[trigger] self.node_at(u) == old(self).node_at(u) by {}
            assert forall|u: int, w: int| #[trigger] self.edge_at(u, w) == old(self).edge_at(
                u,
                w,
            ) by {}
            assert forall|u: int, w: int| #[trigger] self.cap_at(u, w) == old(self).cap_at(
                u,
                w,
            ) by {}
            assert(self.node_count() == old(self).node_count());
            assert forall|u: int, w: int| #[trigger] self.edge_at(u, w) implies self.edge_at(
                w,
                u,
            ) by {
                assert(old(self).edge_at(u, w));
                assert(self.edge_at(w, u) == old(self).edge_at(w, u));
            }
        }
        // Main loop.  The relabel budget (heights stay below twice the node
        // count) falls on every relabel, and the push potential falls on
        // every push, so the loop terminates.
        proof {
            lemma_node_count_pos(*self, source as int);
            assert forall|w: int| 0 <= w < self.id_space() implies #[trigger] self.height_at(w)
                <= 2 * self.node_count() - 1 by {
                if w != source {
                    assert(self.heights@[w] == 0);
                }
            }
            assert(self.node_at(source as int));
        }
        loop
            invariant
                self.wf(),
                self.skew_symmetric(),
                self.excess_binding(),
                self.flow_bounded(),
                self.valid_labeling(),
                self.excess_nonneg(),
                self.edges_paired(),
                n == self.n_ids,
                source == self.source,
                sink == self.sink,
                self.n_ids == old(self).n_ids,
                self.source == old(self).source,
                self.sink == old(self).sink,
                forall|u: int| #[trigger] self.node_at(u) == old(self).node_at(u),
                forall|u: int, w: int| #[trigger] self.edge_at(u, w) == old(self).edge_at(u, w),
                forall|u: int, w: int| #[trigger] self.cap_at(u, w) == old(self).cap_at(u, w),
                self.node_count() == old(self).node_count(),
                self.node_at(source as int),
                self.height_at(source as int) == self.node_count(),
                self.height_at(sink as int) == 0,
                forall|w: int|
                    0 <= w < self.id_space() ==> #[trigger] self.height_at(w) <= 2
                        * self.node_count() - 1,
            ensures
                forall|w: int|
                    0 <= w < self.id_space() && w != source && w != sink ==> #[trigger] self
                        .excess_at(w) <= 0,
            decreases height_debt(*self, n as int), flow_potential(*self, n as int),
        {
            let ghost pre_iter = *self;
            match self.max_flow_get_overflowing_node() {
                None => {
                    break ;
                },
                Some(node) => {
                    proof {
                        self.lemma_excess_has_residual(node as int);
                    }
                    match self.find_admissible(node) {
                        Some(t) => {
                            proof {
                                assert(self.edge_at(t as int, node as int));
                            }
                            self.max_flow_push(node, t);
                            proof {
                                // The relabel budget is untouched and the
                                // push potential strictly falls: the moved
                                // excess now weighs half as much.
                                let ni = node as int;
                                let ti = t as int;
                                let d = if pre_iter.excess_at(ni) <= pre_iter.residual_at(
                                    ni,
                                    ti,
                                ) {
                                    pre_iter.excess_at(ni)
                                } else {
                                    pre_iter.residual_at(ni, ti)
                                };
                                lemma_height_debt_congruent(pre_iter, *self, n as int);
                                lemma_height_debt_nonneg(pre_iter, n as int);
                                lemma_flow_potential_nonneg(pre_iter, n as int);
                                lemma_flow_potential_push(pre_iter, *self, n as int, ni, ti, d);
                                let p = pow2(pre_iter.height_at(ti));
                                lemma_pow2_pos(pre_iter.height_at(ti));
                                assert(pow2(pre_iter.height_at(ni)) == 2 * p);
                                if ti == pre_iter.source_id() {
                                    assert(d * (2 * p) >= 1) by (nonlinear_arith)
                                        requires
                                            d >= 1,
                                            p >= 1,
                                    ;
                                } else {
                                    assert(d * (2 * p) - d * p == d * p && d * p >= 1)
                                        by (nonlinear_arith)
                                        requires
                                            d >= 1,
                                            p >= 1,
                                    ;
                                }
                                assert(flow_potential(*self, n as int) < flow_potential(
                                    pre_iter,
                                    n as int,
                                ));
                                lemma_flow_potential_nonneg(*self, n as int);
                                lemma_height_debt_nonneg(*self, n as int);
                            }
                        },
                        None => {
                            proof {
                                lemma_count_true_le(self.present@, self.id_space());
                                crate::termination::lemma_overflowing_has_low_neighbor(
                                    *self,
                                    node as int,
                                );
                            }
                            self.max_flow_relabel(node);
                            proof {
                                // The relabeled node rises to one above its
                                // lowest residual neighbor, which sits at
                                // least two below the height bound.
                                let ni = node as int;
                                let wlow = choose|w: int|
                                    #[trigger] pre_iter.residual_edge(ni, w)
                                        && pre_iter.height_at(w) <= 2 * pre_iter.node_count() - 2;
                                let v0 = choose|v0: int|
                                    #[trigger] pre_iter.residual_edge(ni, v0) && self.height_at(ni)
                                        == pre_iter.height_at(v0) + 1 && (forall|w2: int|
                                        #[trigger] pre_iter.residual_edge(ni, w2)
                                            ==> pre_iter.height_at(w2) >= pre_iter.height_at(v0));
                                assert(pre_iter.height_at(v0) <= pre_iter.height_at(wlow));
                                assert forall|w: int|
                                    0 <= w < self.id_space() implies #[trigger] self.height_at(w)
                                    <= 2 * self.node_count() - 1 by {
                                    if w != ni {
                                        assert(self.height_at(w) == pre_iter.height_at(w));
                                    }
                                }
                                // Flows did not change, so each column sum,
                                // and with it the excess bookkeeping, is kept.
                                assert forall|w: int|
                                    0 <= w < self.id_space() implies #[trigger] self.excess_at(w)
                                    == self.flow_into(w) by {
                                    lemma_col_flow_congruent(pre_iter, *self, w, self.id_space());
                                    assert(pre_iter.excess_at(w) == pre_iter.flow_into(w));
                                }
                                // The relabel budget strictly falls.
                                lemma_height_debt_update(pre_iter, *self, n as int, ni);
                                lemma_height_debt_nonneg(pre_iter, n as int);
                                assert(height_debt(*self, n as int) < height_debt(
                                    pre_iter,
                                    n as int,
                                ));
                                lemma_flow_potential_nonneg(*self, n as int);
                                lemma_height_debt_nonneg(*self, n as int);
                            }
                        },
                    }
                    proof {
                        assert forall|u: int, w: int| #[trigger] self.edge_at(u, w) implies self
                            .edge_at(w, u) by {
                            assert(pre_iter.edge_at(u, w));
                            assert(self.edge_at(w, u) == pre_iter.edge_at(w, u));
                        }
                    }
                },
            }
        }
        // No overflowing node remains: excesses outside the endpoints are
        // zero, so the flow is conserved, and with the valid labeling the
        // preflow is a maximum flow.
        proof {
            assert forall|w: int|
                0 <= w < self.id_space() && w != self.source_id() && w
                    != self.sink_id() implies #[trigger] self.flow_into(w) == 0 by {
                assert(self.excess_at(w) >= 0);
                assert(self.excess_at(w) <= 0);
            }
        }
        let total = self.total_outflow(source);
        proof {
            let net = *self;
            let s = source as int;
            let t = sink as int;
            let k = net.id_space();
            // The sum of all excesses is the sum of all flows, which vanishes
            // by skew symmetry.
            lemma_box_zero(net, k);
            lemma_excess_total_eq_cols(net, k);
            lemma_excess_total_two_points(net, k, s, t);
            assert(net.excess_at(s) + net.excess_at(t) == 0);
            // The flow out of the source is the negation of its excess, which
            // equals the excess of the sink.
            lemma_row_is_neg_col(net, s, k);
            assert(total == net.excess_at(t));
            assert(net.excess_at(t) >= 0);
            // The flow out of the source cannot exceed its total capacity.
            lemma_row_flow_le_row_cap(net, s, k);
        }
        Ok(total)
    }
}

/// Skew symmetry survives every push, on any network: a push changes one
/// pair and its reverse by opposite amounts, so each pair of flows still
/// negate each other.
pub proof fn lemma_push_preserves_skew(a: FlowNetwork, b: FlowNetwork, u: int, v: int, d: int)
    requires
        a.skew_symmetric(),
        a.id_space() == b.id_space(),
        0 <= u < a.id_space(),
        0 <= v < a.id_space(),
        u != v,
        b.flow_at(u, v) == a.flow_at(u, v) + d,
        b.flow_at(v, u) == a.flow_at(v, u) - d,
        forall|x: int, y: int|
            !(x == u && y == v) && !(x == v && y == u) ==> #[trigger] b.flow_at(x, y) == a.flow_at(
                x,
                y,
            ),
    ensures
        b.skew_symmetric(),
{
    assert forall|x: int, y: int|
        0 <= x < b.id_space() && 0 <= y < b.id_space() implies #[trigger] b.flow_at(x, y) == -b
        .flow_at(y, x) by {
        assert(a.flow_at(x, y) == -a.flow_at(y, x));
    }
}

/// Sums of equal flows are equal.
proof fn lemma_col_flow_congruent(a: FlowNetwork, b: FlowNetwork, v: int, k: int)
    requires
        forall|u: int| 0 <= u < k ==> #[trigger] a.flow_at(u, v) == b.flow_at(u, v),
    ensures
        a.col_flow(v, k) == b.col_flow(v, k),
    decreases k,
{
    if k > 0 {
        lemma_col_flow_congruent(a, b, v, k - 1);
    }
}

/// When exactly one flow of a column changes by `d`, its sum changes by `d`.
proof fn lemma_col_flow_delta(a: FlowNetwork, b: FlowNetwork, v: int, k: int, j: int, d: int)
    requires
        0 <= j < k,
        forall|u: int| 0 <= u < k && u != j ==> #[trigger] b.flow_at(u, v) == a.flow_at(u, v),
        b.flow_at(j, v) == a.flow_at(j, v) + d,
    ensures
        b.col_flow(v, k) == a.col_flow(v, k) + d,
    decreases k,
{
    if j == k - 1 {
        assert forall|u: int| 0 <= u < k - 1 implies #[trigger] a.flow_at(u, v) == b.flow_at(
            u,
            v,
        ) by {}
        lemma_col_flow_congruent(a, b, v, k - 1);
    } else {
        lemma_col_flow_delta(a, b, v, k - 1, j, d);
    }
}

/// A column of zero flows sums to zero.
proof fn lemma_col_flow_zero(a: FlowNetwork, v: int, k: int)
    requires
        forall|u: int| 0 <= u < k ==> #[trigger] a.flow_at(u, v) == 0,
    ensures
        a.col_flow(v, k) == 0,
    decreases k,
{
    if k > 0 {
        lemma_col_flow_zero(a, v, k - 1);
    }
}

/// Each flow is bounded by `CAP_LIMIT` in absolute value, so a column of `k`
/// of them is bounded by `k` times that.
proof fn lemma_col_flow_bound(a: FlowNetwork, v: int, k: int)
    requires
        a.wf(),
        0 <= k <= a.id_space(),
    ensures
        -k * (CAP_LIMIT as int) <= a.col_flow(v, k) <= k * (CAP_LIMIT as int),
    decreases k,
{
    if k > 0 {
        lemma_col_flow_bound(a, v, k - 1);
    }
}

/// A column with a positive sum holds a positive flow.
proof fn lemma_col_flow_pos_exists(a: FlowNetwork, v: int, k: int)
    requires
        a.col_flow(v, k) > 0,
    ensures
        exists|u: int| 0 <= u < k && #[trigger] a.flow_at(u, v) > 0,
    decreases k,
{
    if k > 0 {
        if a.flow_at(k - 1, v) > 0 {
            assert(0 <= k - 1 < k && a.flow_at(k - 1, v) > 0);
        } else {
            lemma_col_flow_pos_exists(a, v, k - 1);
        }
    }
}

/// Each flow is at most its capacity, so a row of flows is bounded by the
/// row of capacities.
proof fn lemma_row_flow_le_row_cap(a: FlowNetwork, u: int, k: int)
    requires
        a.wf(),
    ensures
        a.row_flow(u, k) <= a.row_cap(u, k),
    decreases k,
{
    if k > 0 {
        lemma_row_flow_le_row_cap(a, u, k - 1);
    }
}

/// Under skew symmetry the flow out of `u` is the negation of the flow into
/// `u`.
pub proof fn lemma_row_is_neg_col(a: FlowNetwork, u: int, k: int)
    requires
        a.skew_symmetric(),
        0 <= u < a.id_space(),
        0 <= k <= a.id_space(),
    ensures
        a.row_flow(u, k) == -a.col_flow(u, k),
    decreases k,
{
    if k > 0 {
        lemma_row_is_neg_col(a, u, k - 1);
    }
}

/// Extending every column of a block of sums by one row adds that row's sum.
proof fn lemma_cols_total_peel(a: FlowNetwork, m: int, k: int)
    requires
        k >= 1,
    ensures
        a.cols_total(m, k) == a.cols_total(m, k - 1) + a.row_flow(k - 1, m),
    decreases m,
{
    if m > 0 {
        lemma_cols_total_peel(a, m - 1, k);
    }
}

/// Under skew symmetry the sum of all flows of the square block below `k`
/// vanishes: opposite pairs cancel and the diagonal is zero.
proof fn lemma_box_zero(a: FlowNetwork, k: int)
    requires
        a.skew_symmetric(),
        0 <= k <= a.id_space(),
    ensures
        a.cols_total(k, k) == 0,
    decreases k,
{
    if k > 0 {
        lemma_box_zero(a, k - 1);
        lemma_cols_total_peel(a, k, k);
        lemma_row_is_neg_col(a, k - 1, k - 1);
        assert(a.flow_at(k - 1, k - 1) == 0);
        assert(a.cols_total(k, k - 1) == a.cols_total(k - 1, k - 1) + a.col_flow(k - 1, k - 1));
        assert(a.row_flow(k - 1, k) == a.row_flow(k - 1, k - 1) + a.flow_at(k - 1, k - 1));
    }
}

/// With the excess bookkeeping in place, the sum of the excesses below `m`
/// is the corresponding block of flow sums.
proof fn lemma_excess_total_eq_cols(a: FlowNetwork, m: int)
    requires
        a.excess_binding(),
        0 <= m <= a.id_space(),
    ensures
        a.excess_total(m) == a.cols_total(m, a.id_space()),
    decreases m,
{
    if m > 0 {
        lemma_excess_total_eq_cols(a, m - 1);
    }
}

/// When every node below `k` except `s` and `t` has zero excess, the total
/// excess below `k` is the excess of `s` plus the excess of `t`.
proof fn lemma_excess_total_two_points(a: FlowNetwork, k: int, s: int, t: int)
    requires
        s != t,
        forall|v: int| 0 <= v < k && v != s && v != t ==> #[trigger] a.excess_at(v) == 0,
    ensures
        a.excess_total(k) == (if 0 <= s < k {
            a.excess_at(s)
        } else {
            0
        }) + (if 0 <= t < k {
            a.excess_at(t)
        } else {
            0
        }),
    decreases k,
{
    if k > 0 {
        lemma_excess_total_two_points(a, k - 1, s, t);
    }
}

/// Consequences of well-formedness that other modules rely on: the
/// endpoints are distinct in-range ids, edges connect distinct nodes of the
/// node set, capacities are non-negative and bounded, flows never exceed
/// capacities, and absent edges carry neither capacity nor flow.
pub proof fn lemma_wf_facts(net: FlowNetwork)
    requires
        net.wf(),
    ensures
        0 <= net.source_id() < net.id_space(),
        0 <= net.sink_id() < net.id_space(),
        net.source_id() != net.sink_id(),
        net.id_space() <= NODE_LIMIT,
        forall|u: int| #[trigger] net.node_at(u) ==> 0 <= u < net.id_space(),
        forall|u: int, v: int| #[trigger] net.edge_at(u, v) ==> 0 <= u < net.id_space() && 0 <= v
            < net.id_space(),
        forall|u: int, v: int| #[trigger] net.edge_at(u, v) ==> net.node_at(u) && net.node_at(v)
            && u != v,
        forall|u: int, v: int| 0 <= #[trigger] net.cap_at(u, v) <= CAP_LIMIT,
        forall|u: int, v: int| -CAP_LIMIT <= #[trigger] net.flow_at(u, v) <= net.cap_at(u, v),
        forall|u: int, v: int| !net.edge_at(u, v) ==> #[trigger] net.cap_at(u, v) == 0
            && net.flow_at(u, v) == 0,
{
    assert forall|u: int, v: int| -CAP_LIMIT <= #[trigger] net.flow_at(u, v) <= net.cap_at(
        u,
        v,
    ) by {
        if !(0 <= u < net.id_space() && 0 <= v < net.id_space()) {
            assert(net.flow_at(u, v) == 0 && net.cap_at(u, v) == 0);
        }
    }
    assert forall|u: int, v: int| !net.edge_at(u, v) implies #[trigger] net.cap_at(u, v) == 0
        && net.flow_at(u, v) == 0 by {
        if !(0 <= u < net.id_space() && 0 <= v < net.id_space()) {
            assert(net.cap_at(u, v) == 0 && net.flow_at(u, v) == 0);
        }
    }
}

/// Powers of two, the weight base of the push potential.
pub open spec fn pow2(e: int) -> int
    decreases e,
{
    if e <= 0 {
        1
    } else {
        2 * pow2(e - 1)
    }
}

/// Powers of two are positive.
pub proof fn lemma_pow2_pos(e: int)
    ensures
        pow2(e) >= 1,
    decreases e,
{
    if e > 0 {
        lemma_pow2_pos(e - 1);
    }
}

/// The push potential: each unit of excess outside the source weighs
/// two to its node's height.  Every push moves excess strictly downhill,
/// so the potential strictly falls.
pub open spec fn flow_potential(net: FlowNetwork, k: int) -> int
    decreases k,
{
    if k <= 0 {
        0
    } else {
        flow_potential(net, k - 1) + if k - 1 == net.source_id() {
            0
        } else {
            net.excess_at(k - 1) * pow2(net.height_at(k - 1))
        }
    }
}

/// With non-negative excesses the push potential is non-negative.
pub proof fn lemma_flow_potential_nonneg(net: FlowNetwork, k: int)
    requires
        net.excess_nonneg(),
    ensures
        flow_potential(net, k) >= 0,
    decreases k,
{
    if k > 0 {
        lemma_flow_potential_nonneg(net, k - 1);
        if k - 1 != net.source_id() {
            if 0 <= k - 1 < net.id_space() {
                lemma_pow2_pos(net.height_at(k - 1));
                assert(net.excess_at(k - 1) * pow2(net.height_at(k - 1)) >= 0)
                    by (nonlinear_arith)
                    requires
                        net.excess_at(k - 1) >= 0,
                        pow2(net.height_at(k - 1)) >= 1,
                ;
            } else {
                assert(net.excess_at(k - 1) == 0);
            }
        }
    }
}

/// A push moves `d` units of excess from `u` to `t` with heights fixed:
/// the potential changes by exactly the weighted difference.
pub proof fn lemma_flow_potential_push(
    a: FlowNetwork,
    b: FlowNetwork,
    k: int,
    u: int,
    t: int,
    d: int,
)
    requires
        u != t,
        u != a.source_id(),
        a.source_id() == b.source_id(),
        forall|v: int| #[trigger] b.height_at(v) == a.height_at(v),
        b.excess_at(u) == a.excess_at(u) - d,
        b.excess_at(t) == a.excess_at(t) + d,
        forall|v: int| v != u && v != t ==> #[trigger] b.excess_at(v) == a.excess_at(v),
    ensures
        flow_potential(b, k) == flow_potential(a, k) - (if u < k && 0 <= u {
            d * pow2(a.height_at(u))
        } else {
            0
        }) + (if t < k && 0 <= t && t != a.source_id() {
            d * pow2(a.height_at(t))
        } else {
            0
        }),
    decreases k,
{
    if k > 0 {
        lemma_flow_potential_push(a, b, k - 1, u, t, d);
        if k - 1 == u {
            assert((a.excess_at(u) - d) * pow2(a.height_at(u)) == a.excess_at(u) * pow2(
                a.height_at(u),
            ) - d * pow2(a.height_at(u))) by (nonlinear_arith);
        } else if k - 1 == t && t != a.source_id() {
            assert((a.excess_at(t) + d) * pow2(a.height_at(t)) == a.excess_at(t) * pow2(
                a.height_at(t),
            ) + d * pow2(a.height_at(t))) by (nonlinear_arith);
        }
    }
}

/// The relabel budget: how far each height still is below twice the node
/// count.  Every relabel strictly raises a height, so the budget strictly
/// falls; the height bound keeps it non-negative.
pub open spec fn height_debt(net: FlowNetwork, k: int) -> int
    decreases k,
{
    if k <= 0 {
        0
    } else {
        height_debt(net, k - 1) + 2 * net.node_count() - net.height_at(k - 1)
    }
}

/// Heights below twice the node count keep the relabel budget
/// non-negative.
pub proof fn lemma_height_debt_nonneg(net: FlowNetwork, k: int)
    requires
        forall|v: int| #[trigger] net.height_at(v) <= 2 * net.node_count() - 1,
    ensures
        height_debt(net, k) >= 0,
    decreases k,
{
    if k > 0 {
        lemma_height_debt_nonneg(net, k - 1);
    }
}

/// Equal heights and node counts give equal relabel budgets.
pub proof fn lemma_height_debt_congruent(a: FlowNetwork, b: FlowNetwork, k: int)
    requires
        a.node_count() == b.node_count(),
        forall|v: int| #[trigger] a.height_at(v) == b.height_at(v),
    ensures
        height_debt(a, k) == height_debt(b, k),
    decreases k,
{
    if k > 0 {
        lemma_height_debt_congruent(a, b, k - 1);
    }
}

/// Raising the single height of `j` lowers the relabel budget by the
/// same amount.
pub proof fn lemma_height_debt_update(a: FlowNetwork, b: FlowNetwork, k: int, j: int)
    requires
        a.node_count() == b.node_count(),
        forall|v: int| v != j ==> #[trigger] b.height_at(v) == a.height_at(v),
    ensures
        height_debt(b, k) == height_debt(a, k) - (if 0 <= j < k {
            b.height_at(j) - a.height_at(j)
        } else {
            0
        }),
    decreases k,
{
    if k > 0 {
        lemma_height_debt_update(a, b, k - 1, j);
    }
}

/// A set of nodes of the node set has at most `node_count` elements.
pub proof fn lemma_node_set_bounded(net: FlowNetwork, s: Set<int>)
    requires
        forall|v: int| #[trigger] s.contains(v) ==> net.node_at(v),
    ensures
        s.finite(),
        s.len() <= net.node_count(),
{
    let p = Set::new(|i: int| 0 <= i < net.id_space() && net.present@[i]);
    lemma_count_true_is_card(net.present@, net.id_space());
    assert(s.subset_of(p)) by {
        assert forall|v: int| s.contains(v) implies p.contains(v) by {
            assert(net.node_at(v));
        }
    }
    vstd::set_lib::lemma_len_subset(s, p);
}

/// Two distinct marked entries make the count at least two.
proof fn lemma_count_true_two(s: Seq<bool>, k: int, i: int, j: int)
    requires
        0 <= i < k,
        0 <= j < k,
        i != j,
        s[i],
        s[j],
    ensures
        count_true(s, k) >= 2,
    decreases k,
{
    if i == k - 1 || j == k - 1 {
        let other = if i == k - 1 {
            j
        } else {
            i
        };
        lemma_count_true_pos(s, k - 1, other);
    } else {
        lemma_count_true_two(s, k - 1, i, j);
    }
}

/// Two distinct nodes of the node set make the node count at least two.
pub proof fn lemma_node_count_two(net: FlowNetwork, u: int, v: int)
    requires
        net.node_at(u),
        net.node_at(v),
        u != v,
    ensures
        net.node_count() >= 2,
{
    lemma_count_true_two(net.present@, net.id_space(), u, v);
}

/// A marked entry below `k` makes the count of `true` entries positive.
proof fn lemma_count_true_pos(s: Seq<bool>, k: int, i: int)
    requires
        0 <= i < k,
        s[i],
    ensures
        count_true(s, k) >= 1,
    decreases k,
{
    lemma_count_true_le(s, i);
    if i < k - 1 {
        lemma_count_true_pos(s, k - 1, i);
    }
}

/// A node of the node set witnesses a positive node count.
pub proof fn lemma_node_count_pos(net: FlowNetwork, u: int)
    requires
        net.node_at(u),
    ensures
        net.node_count() >= 1,
{
    lemma_count_true_pos(net.present@, net.id_space(), u);
}

/// The count of `true` entries below `k` is the cardinality of the set of
/// their indices.
proof fn lemma_count_true_is_card(p: Seq<bool>, k: int)
    ensures
        Set::new(|i: int| 0 <= i < k && p[i]).finite(),
        Set::new(|i: int| 0 <= i < k && p[i]).len() == count_true(p, k),
    decreases k,
{
    let s = Set::new(|i: int| 0 <= i < k && p[i]);
    if k <= 0 {
        assert(s =~= Set::empty());
    } else {
        lemma_count_true_is_card(p, k - 1);
        let s0 = Set::new(|i: int| 0 <= i < k - 1 && p[i]);
        if p[k - 1] {
            assert(s =~= s0.insert(k - 1));
            assert(!s0.contains(k - 1));
        } else {
            assert(s =~= s0);
        }
    }
}

/// Distinct ids that all lie in the node set are at most as many as the
/// nodes.
pub proof fn lemma_distinct_nodes_bounded(net: FlowNetwork, s: Seq<usize>)
    requires
        net.wf(),
        s.no_duplicates(),
        forall|i: int| 0 <= i < s.len() ==> net.node_at(#[trigger] s[i] as int),
    ensures
        s.len() <= net.node_count(),
{
    let t = s.map_values(|x: usize| x as int);
    assert(t.no_duplicates()) by {
        assert forall|i: int, j: int| 0 <= i < t.len() && 0 <= j < t.len() && i != j implies t[i]
            != t[j] by {
            assert(s[i] != s[j]);
        }
    }
    t.unique_seq_to_set();
    let p = Set::new(|i: int| 0 <= i < net.id_space() && net.present@[i]);
    lemma_count_true_is_card(net.present@, net.id_space());
    assert(t.to_set().subset_of(p)) by {
        assert forall|e: int| t.to_set().contains(e) implies p.contains(e) by {
            let i = choose|i: int| 0 <= i < t.len() && t[i] == e;
            assert(net.node_at(s[i] as int));
        }
    }
    vstd::set_lib::lemma_len_subset(t.to_set(), p);
}

/// A vector of `n` `false` entries.
pub(crate) fn falses(n: usize) -> (r: Vec<bool>)
    ensures
        r@.len() == n,
        forall|i: int| 0 <= i < n ==> !(#[trigger] r@[i]),
{
    let mut r: Vec<bool> = Vec::new();
    let mut i: usize = 0;
    while i < n
        invariant
            i <= n,
            r@.len() == i,
            forall|j: int| 0 <= j < i ==> !(#[trigger] r@[j]),
        decreases n - i,
    {
        r.push(false);
        i = i + 1;
    }
    r
}

/// A vector of `n` zero entries.
fn zero_i64s(n: usize) -> (r: Vec<i64>)
    ensures
        r@.len() == n,
        forall|i: int| 0 <= i < n ==> #[trigger] r@[i] == 0,
{
    let mut r: Vec<i64> = Vec::new();
    let mut i: usize = 0;
    while i < n
        invariant
            i <= n,
            r@.len() == i,
            forall|j: int| 0 <= j < i ==> #[trigger] r@[j] == 0,
        decreases n - i,
    {
        r.push(0);
        i = i + 1;
    }
    r
}

/// A vector of `n` zero entries.
fn zero_u64s(n: usize) -> (r: Vec<u64>)
    ensures
        r@.len() == n,
        forall|i: int| 0 <= i < n ==> #[trigger] r@[i] == 0,
{
    let mut r: Vec<u64> = Vec::new();
    let mut i: usize = 0;
    while i < n
        invariant
            i <= n,
            r@.len() == i,
            forall|j: int| 0 <= j < i ==> #[trigger] r@[j] == 0,
        decreases n - i,
    {
        r.push(0);
        i = i + 1;
    }
    r
}

/// An `n` by `n` matrix of zeros.
fn zero_matrix(n: usize) -> (r: Vec<Vec<i64>>)
    ensures
        r@.len() == n,
        forall|u: int| 0 <= u < n ==> #[trigger] r@[u]@.len() == n,
        forall|u: int, v: int| 0 <= u < n && 0 <= v < n ==> #[trigger] r@[u]@[v] == 0,
{
    let mut r: Vec<Vec<i64>> = Vec::new();
    let mut i: usize = 0;
    while i < n
        invariant
            i <= n,
            r@.len() == i,
            forall|u: int| 0 <= u < i ==> #[trigger] r@[u]@.len() == n,
            forall|u: int, v: int| 0 <= u < i && 0 <= v < n ==> #[trigger] r@[u]@[v] == 0,
        decreases n - i,
    {
        r.push(zero_i64s(n));
        i = i + 1;
    }
    r
}

/// An `n` by `n` matrix of `false` entries.
fn bool_matrix(n: usize) -> (r: Vec<Vec<bool>>)
    ensures
        r@.len() == n,
        forall|u: int| 0 <= u < n ==> #[trigger] r@[u]@.len() == n,
        forall|u: int, v: int| 0 <= u < n && 0 <= v < n ==> !(#[trigger] r@[u]@[v]),
{
    let mut r: Vec<Vec<bool>> = Vec::new();
    let mut i: usize = 0;
    while i < n
        invariant
            i <= n,
            r@.len() == i,
            forall|u: int| 0 <= u < i ==> #[trigger] r@[u]@.len() == n,
            forall|u: int, v: int| 0 <= u < i && 0 <= v < n ==> !(#[trigger] r@[u]@[v]),
        decreases n - i,
    {
        r.push(falses(n));
        i = i + 1;
    }
    r
}

} // verus!
