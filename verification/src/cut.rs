//! Residual reachability analysis and minimum-cut boundary extraction.
//!
//! After the push-relabel solver finishes, a breadth-first search over the
//! edges with positive residual capacity, starting from the source, yields
//! the connected side of the minimum cut.  The boundary is the set of nodes
//! that are adjacent (by raw adjacency, capacity ignored) to that side
//! without belonging to it.  Both results are sets: they do not depend on
//! the traversal order.

use vstd::prelude::*;
use vstd::set_lib::lemma_int_range;
use vstd::set_lib::lemma_len_subset;
use vstd::set_lib::set_int_range;

use crate::flow::lemma_distinct_nodes_bounded;
use crate::flow::lemma_row_is_neg_col;
use crate::flow::lemma_wf_facts;
use crate::flow::lemma_node_count_pos;
use crate::flow::falses;
use crate::flow::FlowNetwork;

verus! {

/// The nodes reachable from the source along residual edges in at most `k`
/// steps.
pub open spec fn reach_within(net: FlowNetwork, k: nat) -> Set<int>
    decreases k,
{
    if k == 0 {
        set![net.source_id()]
    } else {
        let prev = reach_within(net, (k - 1) as nat);
        prev.union(Set::new(|w: int| exists|u: int| prev.contains(u) && net.residual_edge(u, w)))
    }
}

/// Whether the membership mask `r` over the id space marks `u`.
pub open spec fn in_mask(r: Seq<bool>, u: int) -> bool {
    0 <= u < r.len() && r[u]
}

/// The mask is closed under residual edges.
pub open spec fn residual_closed(net: FlowNetwork, r: Seq<bool>) -> bool {
    forall|u: int, w: int| in_mask(r, u) && #[trigger] net.residual_edge(u, w) ==> in_mask(r, w)
}

/// Every marked node is residual-reachable from the source within `k` steps.
pub open spec fn reach_sound(net: FlowNetwork, r: Seq<bool>, k: nat) -> bool {
    forall|u: int| #[trigger] in_mask(r, u) ==> reach_within(net, k).contains(u)
}

/// A node outside the mask that raw adjacency connects to a marked node.
pub open spec fn boundary_node(net: FlowNetwork, r: Seq<bool>, w: int) -> bool {
    &&& 0 <= w < net.id_space()
    &&& !in_mask(r, w)
    &&& exists|u: int| in_mask(r, u) && net.edge_at(u, w)
}

/// Reachability in few steps implies reachability in more.
pub proof fn lemma_reach_monotone(net: FlowNetwork, j: nat, k: nat)
    requires
        j <= k,
    ensures
        reach_within(net, j).subset_of(reach_within(net, k)),
    decreases k,
{
    if j < k {
        lemma_reach_monotone(net, j, (k - 1) as nat);
        assert forall|u: int| reach_within(net, j).contains(u) implies reach_within(
            net,
            k,
        ).contains(u) by {
            assert(reach_within(net, (k - 1) as nat).contains(u));
        }
    }
}

/// Every set that contains the source and is closed under residual edges
/// contains everything residual-reachable from the source.
pub proof fn lemma_reach_in_closed(net: FlowNetwork, r: Seq<bool>, k: nat)
    requires
        in_mask(r, net.source_id()),
        residual_closed(net, r),
    ensures
        forall|u: int| reach_within(net, k).contains(u) ==> in_mask(r, u),
    decreases k,
{
    if k > 0 {
        lemma_reach_in_closed(net, r, (k - 1) as nat);
        assert forall|u: int| reach_within(net, k).contains(u) implies in_mask(r, u) by {
            let prev = reach_within(net, (k - 1) as nat);
            if !prev.contains(u) {
                let u0 = choose|u0: int| prev.contains(u0) && net.residual_edge(u0, u);
                assert(in_mask(r, u0));
            }
        }
    }
}

/// The residual-reachable side of the cut is canonical: any two masks that
/// contain the source, are closed under residual edges, and mark only
/// reachable nodes are equal, whatever order their searches visited nodes
/// in.
pub proof fn lemma_reachable_set_unique(
    net: FlowNetwork,
    r1: Seq<bool>,
    r2: Seq<bool>,
    k1: nat,
    k2: nat,
)
    requires
        r1.len() == net.id_space(),
        r2.len() == net.id_space(),
        in_mask(r1, net.source_id()),
        in_mask(r2, net.source_id()),
        residual_closed(net, r1),
        residual_closed(net, r2),
        reach_sound(net, r1, k1),
        reach_sound(net, r2, k2),
    ensures
        r1 == r2,
{
    lemma_reach_in_closed(net, r2, k1);
    lemma_reach_in_closed(net, r1, k2);
    assert forall|i: int| 0 <= i < r1.len() implies r1[i] == r2[i] by {
        if r1[i] {
            assert(in_mask(r1, i));
            assert(reach_within(net, k1).contains(i));
            assert(in_mask(r2, i));
        }
        if r2[i] {
            assert(in_mask(r2, i));
            assert(reach_within(net, k2).contains(i));
            assert(in_mask(r1, i));
        }
    }
    assert(r1 =~= r2);
}

/// Along a residual path of length `k` the height can fall by at most `k`,
/// because the labeling is valid on every residual edge.
pub proof fn lemma_reach_bounds_height(net: FlowNetwork, u: int, k: nat)
    requires
        net.valid_labeling(),
        reach_within(net, k).contains(u),
    ensures
        net.height_at(net.source_id()) <= net.height_at(u) + k,
    decreases k,
{
    if k == 0 {
    } else {
        let prev = reach_within(net, (k - 1) as nat);
        if prev.contains(u) {
            lemma_reach_bounds_height(net, u, (k - 1) as nat);
        } else {
            let u0 = choose|u0: int| prev.contains(u0) && net.residual_edge(u0, u);
            lemma_reach_bounds_height(net, u0, (k - 1) as nat);
            assert(net.height_at(u0) <= net.height_at(u) + 1);
        }
    }
}

/// At a solved state the sink is not residual-reachable from the source:
/// the source sits at the node count, the sink at height zero, and along
/// residual edges the height falls by at most one per step, so any residual
/// path from source to sink would have to be longer than the node count
/// allows.  The mask is therefore a genuine source-sink cut.
pub proof fn lemma_cut_separates(net: FlowNetwork, r: Seq<bool>, k: nat)
    requires
        net.wf(),
        net.valid_labeling(),
        net.height_at(net.source_id()) == net.node_count(),
        net.height_at(net.sink_id()) == 0,
        k < net.node_count(),
        reach_sound(net, r, k),
    ensures
        !in_mask(r, net.sink_id()),
{
    if in_mask(r, net.sink_id()) {
        lemma_reach_bounds_height(net, net.sink_id(), k);
    }
}

/// Distinct ids below `n` are at most `n` in number.
proof fn lemma_distinct_in_range(s: Seq<usize>, n: int)
    requires
        s.no_duplicates(),
        0 <= n,
        forall|i: int| 0 <= i < s.len() ==> #[trigger] s[i] < n,
    ensures
        s.len() <= n,
{
    let t = s.map_values(|x: usize| x as int);
    assert(t.no_duplicates()) by {
        assert forall|i: int, j: int|
            0 <= i < t.len() && 0 <= j < t.len() && i != j implies t[i] != t[j] by {
            assert(s[i] != s[j]);
        }
    }
    t.unique_seq_to_set();
    assert(t.to_set().subset_of(set_int_range(0, n))) by {
        assert forall|e: int| t.to_set().contains(e) implies set_int_range(0, n).contains(e) by {
            let i = choose|i: int| 0 <= i < t.len() && t[i] == e;
            assert(s[i] < n);
        }
    }
    lemma_int_range(0, n);
    lemma_len_subset(t.to_set(), set_int_range(0, n));
}

impl FlowNetwork {
    /// The connected side of the minimum cut: every node reachable from the
    /// source along edges with positive residual capacity, as a membership
    /// mask over the id space.  The result is a set, independent of the
    /// breadth-first visitation order.
    pub fn residual_reachable(&self) -> (r: Vec<bool>)
        requires
            self.wf(),
            self.node_at(self.source_id()),
        ensures
            r@.len() == self.id_space(),
            in_mask(r@, self.source_id()),
            residual_closed(*self, r@),
            reach_sound(*self, r@, (self.node_count() - 1) as nat),
    {
        proof {
            lemma_wf_facts(*self);
            lemma_node_count_pos(*self, self.source_id());
        }
        let n = self.id_space_size();
        let src = self.source_node();
        let mut discovered: Vec<bool> = falses(n);
        let mut queue: Vec<usize> = Vec::new();
        let mut head: usize = 0;
        discovered[src] = true;
        queue.push(src);
        let ghost mut depth: Map<int, int> = Map::empty().insert(src as int, 0);
        proof {
            assert(queue@[0] == src);
            assert forall|u: int| 0 <= u < n && #[trigger] discovered@[u] implies queue@.contains(
                u as usize,
            ) by {
                if u != src {
                    assert(!discovered@[u]);
                } else {
                    assert(queue@[0] == src);
                }
            }
        }
        while head < queue.len()
            invariant
                self.wf(),
                n == self.id_space(),
                src == self.source_id(),
                self.node_at(src as int),
                discovered@.len() == n,
                head <= queue@.len(),
                queue@.len() <= n,
                queue@.no_duplicates(),
                discovered@[src as int],
                forall|i: int|
                    0 <= i < queue@.len() ==> (#[trigger] queue@[i] < n && discovered@[queue@[i] as int]
                        && self.node_at(queue@[i] as int)),
                forall|u: int| 0 <= u < n && #[trigger] discovered@[u] ==> queue@.contains(
                    u as usize,
                ),
                forall|u: int|
                    0 <= u < n && #[trigger] discovered@[u] ==> depth.dom().contains(u) && 0
                        <= depth[u] <= queue@.len() - 1 && reach_within(
                        *self,
                        depth[u] as nat,
                    ).contains(u),
                forall|i: int, w: int|
                    0 <= i < head && #[trigger] self.residual_edge(queue@[i] as int, w) ==> (0 <= w
                        < n && discovered@[w]),
            decreases n - head,
        {
            proof {
                lemma_wf_facts(*self);
            }
            let u = queue[head];
            let ghost du = depth[u as int];
            let mut v: usize = 0;
            while v < n
                invariant
                    self.wf(),
                    n == self.id_space(),
                    src == self.source_id(),
                    self.node_at(src as int),
                    discovered@.len() == n,
                    head < queue@.len(),
                    queue@.len() <= n,
                    queue@.no_duplicates(),
                    discovered@[src as int],
                    v <= n,
                    u == queue@[head as int],
                    du == depth[u as int],
                    forall|i: int|
                        0 <= i < queue@.len() ==> (#[trigger] queue@[i] < n
                            && discovered@[queue@[i] as int] && self.node_at(queue@[i] as int)),
                    forall|w: int| 0 <= w < n && #[trigger] discovered@[w] ==> queue@.contains(
                        w as usize,
                    ),
                    forall|w: int|
                        0 <= w < n && #[trigger] discovered@[w] ==> depth.dom().contains(w) && 0
                            <= depth[w] <= queue@.len() - 1 && reach_within(
                            *self,
                            depth[w] as nat,
                        ).contains(w),
                    forall|i: int, w: int|
                        0 <= i < head && #[trigger] self.residual_edge(queue@[i] as int, w) ==> (0
                            <= w < n && discovered@[w]),
                    forall|w: int|
                        0 <= w < v && #[trigger] self.residual_edge(u as int, w) ==> (0 <= w < n
                            && discovered@[w]),
                decreases n - v,
            {
                proof {
                    lemma_wf_facts(*self);
                }
                if self.has_edge(u, v) && self.residual_capacity(u, v) > 0 && !discovered[v] {
                    proof {
                        assert(v != src);
                        // The newly discovered node is one residual step
                        // beyond `u`, hence reachable at the next depth, and
                        // it cannot already sit in the queue.
                        assert(self.residual_edge(u as int, v as int));
                        assert(reach_within(*self, du as nat).contains(u as int));
                        assert(reach_within(*self, (du + 1) as nat).contains(v as int)) by {
                            let prev = reach_within(*self, du as nat);
                            assert(prev.contains(u as int) && self.residual_edge(
                                u as int,
                                v as int,
                            ));
                        }
                        if queue@.contains(v) {
                            let i = choose|i: int| 0 <= i < queue@.len() && queue@[i] == v;
                            assert(discovered@[queue@[i] as int]);
                        }
                    }
                    let ghost prev_q = queue@;
                    discovered[v] = true;
                    queue.push(v);
                    proof {
                        depth = depth.insert(v as int, du + 1);
                        lemma_distinct_in_range(queue@, n as int);
                        assert forall|w: int|
                            0 <= w < n && #[trigger] discovered@[w] implies queue@.contains(
                            w as usize,
                        ) by {
                            if w == v {
                                assert(queue@[queue@.len() - 1] == v);
                            } else {
                                let i = choose|i: int|
                                    0 <= i < prev_q.len() && prev_q[i] == w as usize;
                                assert(queue@[i] == w as usize);
                            }
                        }
                        assert forall|w: int|
                            0 <= w < n && #[trigger] discovered@[w] implies depth.dom().contains(w)
                            && 0 <= depth[w] <= queue@.len() - 1 && reach_within(
                            *self,
                            depth[w] as nat,
                        ).contains(w) by {}
                    }
                }
                v = v + 1;
            }
            proof {
                assert forall|i: int, w: int|
                    0 <= i < head + 1 && #[trigger] self.residual_edge(
                        queue@[i] as int,
                        w,
                    ) implies (0 <= w < n && discovered@[w]) by {
                    if i == head {
                        assert(queue@[i] == u);
                        assert(self.edge_at(u as int, w));
                    }
                }
            }
            head = head + 1;
        }
        proof {
            lemma_wf_facts(*self);
            // Every discovered node is in the queue, whose distinct entries
            // all belong to the node set; so each recorded depth stays below
            // the node count, and reachability at that depth carries up to
            // the node count minus one.
            lemma_distinct_nodes_bounded(*self, queue@);
            assert forall|w: int| #[trigger] in_mask(discovered@, w) implies reach_within(
                *self,
                (self.node_count() - 1) as nat,
            ).contains(w) by {
                assert(discovered@[w]);
                lemma_reach_monotone(*self, depth[w] as nat, (self.node_count() - 1) as nat);
            }
            assert forall|uu: int, w: int|
                in_mask(discovered@, uu) && #[trigger] self.residual_edge(uu, w) implies in_mask(
                discovered@,
                w,
            ) by {
                let i = choose|i: int| 0 <= i < queue@.len() && queue@[i] == uu as usize;
                assert(self.residual_edge(queue@[i] as int, w));
            }
        }
        discovered
    }

    /// Whether some marked node has an outgoing edge to `w`.
    fn reached_from_mask(&self, connected: &Vec<bool>, w: usize) -> (r: bool)
        requires
            self.wf(),
            connected@.len() == self.id_space(),
            w < self.id_space(),
        ensures
            r == exists|u: int| in_mask(connected@, u) && self.edge_at(u, w as int),
    {
        let n = self.id_space_size();
        proof {
            lemma_wf_facts(*self);
        }
        let mut u: usize = 0;
        while u < n
            invariant
                self.wf(),
                n == self.id_space(),
                connected@.len() == n,
                w < n,
                u <= n,
                forall|x: int|
                    0 <= x < u ==> !(in_mask(connected@, x) && #[trigger] self.edge_at(
                        x,
                        w as int,
                    )),
            decreases n - u,
        {
            if connected[u] && self.has_edge(u, w) {
                proof {
                    assert(in_mask(connected@, u as int) && self.edge_at(u as int, w as int));
                }
                return true;
            }
            proof {
                assert(!(in_mask(connected@, u as int) && self.edge_at(u as int, w as int)));
            }
            u = u + 1;
        }
        proof {
            assert forall|x: int| !(in_mask(connected@, x) && self.edge_at(x, w as int)) by {
                if !(0 <= x < n) {
                    assert(!in_mask(connected@, x));
                }
            }
        }
        false
    }

    /// The cut boundary: the nodes that raw adjacency connects to the
    /// connected side of the cut but that are not themselves in it, in
    /// ascending id order.  This frontier is the separating obstruction the
    /// caller places.
    pub fn min_cut_boundary(&self, connected: &Vec<bool>) -> (r: Vec<usize>)
        requires
            self.wf(),
            connected@.len() == self.id_space(),
        ensures
            r@.no_duplicates(),
            forall|i: int, j: int| 0 <= i < j < r@.len() ==> r@[i] < r@[j],
            forall|i: int|
                0 <= i < r@.len() ==> boundary_node(*self, connected@, #[trigger] r@[i] as int),
            forall|w: int| boundary_node(*self, connected@, w) ==> r@.contains(w as usize),
    {
        let n = self.id_space_size();
        let mut r: Vec<usize> = Vec::new();
        let mut w: usize = 0;
        while w < n
            invariant
                self.wf(),
                n == self.id_space(),
                connected@.len() == n,
                w <= n,
                forall|i: int| 0 <= i < r@.len() ==> #[trigger] r@[i] < w,
                forall|i: int, j: int| 0 <= i < j < r@.len() ==> r@[i] < r@[j],
                r@.no_duplicates(),
                forall|i: int|
                    0 <= i < r@.len() ==> boundary_node(*self, connected@, #[trigger] r@[i] as int),
                forall|x: int| 0 <= x < w && boundary_node(*self, connected@, x) ==> r@.contains(
                    x as usize,
                ),
            decreases n - w,
        {
            let ghost prev = r@;
            if !connected[w] && self.reached_from_mask(connected, w) {
                r.push(w);
            }
            proof {
                assert forall|x: int|
                    0 <= x < w + 1 && boundary_node(*self, connected@, x) implies r@.contains(
                    x as usize,
                ) by {
                    if x == w {
                        assert(r@[r@.len() - 1] == w);
                    } else {
                        let i = choose|i: int| 0 <= i < prev.len() && prev[i] == x as usize;
                        assert(r@[i] == x as usize);
                    }
                }
            }
            w = w + 1;
        }
        r
    }
}

/// Total capacity of the edges leaving `u` for nodes outside the mask,
/// over heads below `k`.
pub open spec fn cross_cap_row(net: FlowNetwork, r: Seq<bool>, u: int, k: int) -> int
    decreases k,
{
    if k <= 0 {
        0
    } else {
        cross_cap_row(net, r, u, k - 1) + if !in_mask(r, k - 1) {
            net.cap_at(u, k - 1)
        } else {
            0
        }
    }
}

/// Total capacity of the edges crossing from the masked side to its
/// complement, over tails below `m`: the raw capacity of the cut.
pub open spec fn cross_cap(net: FlowNetwork, r: Seq<bool>, m: int) -> int
    decreases m,
{
    if m <= 0 {
        0
    } else {
        cross_cap(net, r, m - 1) + if in_mask(r, m - 1) {
            cross_cap_row(net, r, m - 1, net.id_space())
        } else {
            0
        }
    }
}

/// Total flow leaving `u` for nodes outside the mask, over heads below `k`.
pub open spec fn cross_flow_row(net: FlowNetwork, r: Seq<bool>, u: int, k: int) -> int
    decreases k,
{
    if k <= 0 {
        0
    } else {
        cross_flow_row(net, r, u, k - 1) + if !in_mask(r, k - 1) {
            net.flow_at(u, k - 1)
        } else {
            0
        }
    }
}

/// Total flow crossing from the masked side to its complement, over tails
/// below `m`.
pub open spec fn cross_flow(net: FlowNetwork, r: Seq<bool>, m: int) -> int
    decreases m,
{
    if m <= 0 {
        0
    } else {
        cross_flow(net, r, m - 1) + if in_mask(r, m - 1) {
            cross_flow_row(net, r, m - 1, net.id_space())
        } else {
            0
        }
    }
}

/// Total flow leaving `u` for nodes inside the mask, over heads below `k`.
pub open spec fn in_flow_row(net: FlowNetwork, r: Seq<bool>, u: int, k: int) -> int
    decreases k,
{
    if k <= 0 {
        0
    } else {
        in_flow_row(net, r, u, k - 1) + if in_mask(r, k - 1) {
            net.flow_at(u, k - 1)
        } else {
            0
        }
    }
}

/// Flow of the pair `(u, w)` when both ends are masked, summed over heads
/// below `k`.
pub open spec fn sym_row(net: FlowNetwork, r: Seq<bool>, u: int, k: int) -> int
    decreases k,
{
    if k <= 0 {
        0
    } else {
        sym_row(net, r, u, k - 1) + if in_mask(r, u) && in_mask(r, k - 1) {
            net.flow_at(u, k - 1)
        } else {
            0
        }
    }
}

/// Flow of the pair `(u, w)` when both ends are masked, summed over tails
/// below `k`.
pub open spec fn sym_col(net: FlowNetwork, r: Seq<bool>, w: int, k: int) -> int
    decreases k,
{
    if k <= 0 {
        0
    } else {
        sym_col(net, r, w, k - 1) + if in_mask(r, k - 1) && in_mask(r, w) {
            net.flow_at(k - 1, w)
        } else {
            0
        }
    }
}

/// Sum of `sym_row` over tails below `m`.
pub open spec fn sym_block(net: FlowNetwork, r: Seq<bool>, m: int, k: int) -> int
    decreases m,
{
    if m <= 0 {
        0
    } else {
        sym_block(net, r, m - 1, k) + sym_row(net, r, m - 1, k)
    }
}

/// Net flow out of the masked nodes, over tails below `m`.
pub open spec fn masked_out(net: FlowNetwork, r: Seq<bool>, m: int) -> int
    decreases m,
{
    if m <= 0 {
        0
    } else {
        masked_out(net, r, m - 1) + if in_mask(r, m - 1) {
            net.flow_out_of(m - 1)
        } else {
            0
        }
    }
}

/// Under skew symmetry the masked row sum is the negation of the masked
/// column sum.
proof fn lemma_sym_row_neg_col(net: FlowNetwork, r: Seq<bool>, u: int, k: int)
    requires
        net.skew_symmetric(),
        r.len() == net.id_space(),
        0 <= k <= net.id_space(),
    ensures
        sym_row(net, r, u, k) == -sym_col(net, r, u, k),
    decreases k,
{
    if k > 0 {
        lemma_sym_row_neg_col(net, r, u, k - 1);
        if in_mask(r, u) && in_mask(r, k - 1) {
            assert(net.flow_at(u, k - 1) == -net.flow_at(k - 1, u));
        }
    }
}

/// Extending every masked row of a block by one head adds the matching
/// masked column.
proof fn lemma_sym_block_peel(net: FlowNetwork, r: Seq<bool>, m: int, k: int)
    requires
        k >= 1,
    ensures
        sym_block(net, r, m, k) == sym_block(net, r, m, k - 1) + sym_col(net, r, k - 1, m),
    decreases m,
{
    if m > 0 {
        lemma_sym_block_peel(net, r, m - 1, k);
    }
}

/// Under skew symmetry the flows internal to the masked side cancel: the
/// square block of masked-to-masked flows sums to zero.
proof fn lemma_sym_block_zero(net: FlowNetwork, r: Seq<bool>, k: int)
    requires
        net.skew_symmetric(),
        r.len() == net.id_space(),
        0 <= k <= net.id_space(),
    ensures
        sym_block(net, r, k, k) == 0,
    decreases k,
{
    if k > 0 {
        lemma_sym_block_zero(net, r, k - 1);
        lemma_sym_block_peel(net, r, k, k);
        lemma_sym_row_neg_col(net, r, k - 1, k - 1);
        assert(net.flow_at(k - 1, k - 1) == 0);
        assert(sym_block(net, r, k, k - 1) == sym_block(net, r, k - 1, k - 1) + sym_row(
            net,
            r,
            k - 1,
            k - 1,
        ));
        assert(sym_col(net, r, k - 1, k) == sym_col(net, r, k - 1, k - 1) + if in_mask(r, k - 1)
            && in_mask(r, k - 1) {
            net.flow_at(k - 1, k - 1)
        } else {
            0
        });
    }
}

/// Each row of flows splits into its crossing part and its internal part.
proof fn lemma_row_split(net: FlowNetwork, r: Seq<bool>, u: int, k: int)
    ensures
        net.row_flow(u, k) == cross_flow_row(net, r, u, k) + in_flow_row(net, r, u, k),
    decreases k,
{
    if k > 0 {
        lemma_row_split(net, r, u, k - 1);
    }
}

/// For a masked tail the internal row sum is the masked-pair row sum; for
/// an unmasked tail the masked-pair row sum vanishes.
proof fn lemma_in_flow_is_sym(net: FlowNetwork, r: Seq<bool>, u: int, k: int)
    ensures
        in_mask(r, u) ==> sym_row(net, r, u, k) == in_flow_row(net, r, u, k),
        !in_mask(r, u) ==> sym_row(net, r, u, k) == 0,
    decreases k,
{
    if k > 0 {
        lemma_in_flow_is_sym(net, r, u, k - 1);
    }
}

/// With conservation, the only masked node with a net outflow is the
/// source: the sink is outside the mask and every other node balances.
proof fn lemma_masked_out_single(net: FlowNetwork, r: Seq<bool>, m: int)
    requires
        net.wf(),
        net.skew_symmetric(),
        net.conserved(),
        r.len() == net.id_space(),
        !in_mask(r, net.sink_id()),
        0 <= m <= net.id_space(),
    ensures
        masked_out(net, r, m) == if 0 <= net.source_id() < m && in_mask(r, net.source_id()) {
            net.flow_out_of(net.source_id())
        } else {
            0
        },
    decreases m,
{
    if m > 0 {
        lemma_masked_out_single(net, r, m - 1);
        if in_mask(r, m - 1) && m - 1 != net.source_id() {
            assert(m - 1 != net.sink_id());
            assert(net.flow_into(m - 1) == 0);
            lemma_row_is_neg_col(net, m - 1, net.id_space());
        }
    }
}

/// The net outflow of the masked side splits into the crossing flow and the
/// internal flow.
proof fn lemma_masked_split(net: FlowNetwork, r: Seq<bool>, m: int)
    ensures
        masked_out(net, r, m) == cross_flow(net, r, m) + sym_block(net, r, m, net.id_space()),
    decreases m,
{
    if m > 0 {
        lemma_masked_split(net, r, m - 1);
        lemma_row_split(net, r, m - 1, net.id_space());
        lemma_in_flow_is_sym(net, r, m - 1, net.id_space());
    }
}

/// Every crossing edge is saturated: a crossing edge with residual capacity
/// would put its head inside the mask, so the crossing flow equals the
/// crossing capacity.
proof fn lemma_cross_row_saturated(net: FlowNetwork, r: Seq<bool>, u: int, k: int)
    requires
        net.wf(),
        residual_closed(net, r),
        in_mask(r, u),
    ensures
        cross_flow_row(net, r, u, k) == cross_cap_row(net, r, u, k),
    decreases k,
{
    if k > 0 {
        lemma_cross_row_saturated(net, r, u, k - 1);
        lemma_wf_facts(net);
        if !in_mask(r, k - 1) {
            if net.edge_at(u, k - 1) {
                assert(!net.residual_edge(u, k - 1));
            } else {
                assert(net.cap_at(u, k - 1) == 0 && net.flow_at(u, k - 1) == 0);
            }
        }
    }
}

/// The crossing flow equals the crossing capacity, row by row.
proof fn lemma_cross_eq(net: FlowNetwork, r: Seq<bool>, m: int)
    requires
        net.wf(),
        residual_closed(net, r),
    ensures
        cross_flow(net, r, m) == cross_cap(net, r, m),
    decreases m,
{
    if m > 0 {
        lemma_cross_eq(net, r, m - 1);
        if in_mask(r, m - 1) {
            lemma_cross_row_saturated(net, r, m - 1, net.id_space());
        }
    }
}

/// Minimum-cut/maximum-flow duality.  At a terminal solver state, for any
/// source-containing, residual-closed mask that excludes the sink (such as
/// the residual-reachable side), the total raw capacity of the edges
/// crossing from the mask to its complement equals the net flow out of the
/// source, the maximum flow value: internal flows cancel by skew symmetry,
/// every balanced node contributes nothing, and every crossing edge is
/// saturated.
pub proof fn lemma_min_cut_duality(net: FlowNetwork, r: Seq<bool>)
    requires
        net.wf(),
        net.skew_symmetric(),
        net.conserved(),
        r.len() == net.id_space(),
        in_mask(r, net.source_id()),
        !in_mask(r, net.sink_id()),
        residual_closed(net, r),
    ensures
        cross_cap(net, r, net.id_space()) == net.flow_out_of(net.source_id()),
{
    let n = net.id_space();
    lemma_wf_facts(net);
    lemma_masked_out_single(net, r, n);
    lemma_masked_split(net, r, n);
    lemma_sym_block_zero(net, r, n);
    lemma_cross_eq(net, r, n);
}

/// The maximum-flow certificate.  The terminal facts of the solver,
/// together with any mask satisfying the contract of the reachability
/// extraction, certify that the computed value is maximal: the mask is a
/// genuine source-sink cut, and the raw capacity crossing it equals the net
/// flow out of the source.  No feasible flow can exceed the capacity of a
/// cut, so none exceeds this value.
pub proof fn lemma_max_flow_certificate(net: FlowNetwork, r: Seq<bool>)
    requires
        net.wf(),
        net.skew_symmetric(),
        net.conserved(),
        net.valid_labeling(),
        net.height_at(net.source_id()) == net.node_count(),
        net.height_at(net.sink_id()) == 0,
        net.node_count() >= 1,
        r.len() == net.id_space(),
        in_mask(r, net.source_id()),
        residual_closed(net, r),
        reach_sound(net, r, (net.node_count() - 1) as nat),
    ensures
        !in_mask(r, net.sink_id()),
        cross_cap(net, r, net.id_space()) == net.flow_out_of(net.source_id()),
{
    lemma_cut_separates(net, r, (net.node_count() - 1) as nat);
    lemma_min_cut_duality(net, r);
}

} // verus!
