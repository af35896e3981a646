//! Why the push-relabel solver terminates: every overflowing node has a
//! residual path back to the source, so no height ever reaches twice the
//! node count.
//!
//! The path exists because the set of nodes that cannot reach the source is
//! closed under residual edges and receives no positive flow from outside,
//! so by skew symmetry and the excess bookkeeping its total excess is at
//! most zero — an overflowing node cannot sit in it.  Along a residual path
//! a valid labeling falls by at most one per step, which turns the path
//! into the height bound the solver's relabel budget rests on.

use vstd::prelude::*;
use vstd::set_lib::lemma_len_subset;
use vstd::set_lib::lemma_int_range;
use vstd::set_lib::set_int_range;

use crate::cut::in_mask;
use crate::cut::residual_closed;
use crate::flow::lemma_node_count_two;
use crate::flow::lemma_node_set_bounded;
use crate::flow::lemma_wf_facts;
use crate::flow::FlowNetwork;

verus! {

/// The nodes that reach the source along residual edges in at most `k`
/// steps.
pub open spec fn reaches_source_within(net: FlowNetwork, k: nat) -> Set<int>
    decreases k,
{
    if k == 0 {
        set![net.source_id()]
    } else {
        let prev = reaches_source_within(net, (k - 1) as nat);
        prev.union(Set::new(|v: int| exists|w: int| prev.contains(w) && net.residual_edge(v, w)))
    }
}

/// Reaching the source in few steps implies reaching it in more.
proof fn lemma_rsw_monotone(net: FlowNetwork, j: nat, k: nat)
    requires
        j <= k,
    ensures
        reaches_source_within(net, j).subset_of(reaches_source_within(net, k)),
    decreases k,
{
    if j < k {
        lemma_rsw_monotone(net, j, (k - 1) as nat);
        assert forall|u: int| reaches_source_within(net, j).contains(u) implies
            reaches_source_within(net, k).contains(u) by {
            assert(reaches_source_within(net, (k - 1) as nat).contains(u));
        }
    }
}

/// Everything that reaches the source is a node of the node set.
proof fn lemma_rsw_in_nodes(net: FlowNetwork, k: nat)
    requires
        net.wf(),
        net.node_at(net.source_id()),
    ensures
        forall|v: int| reaches_source_within(net, k).contains(v) ==> net.node_at(v),
    decreases k,
{
    lemma_wf_facts(net);
    if k > 0 {
        lemma_rsw_in_nodes(net, (k - 1) as nat);
        assert forall|v: int| reaches_source_within(net, k).contains(v) implies net.node_at(
            v,
        ) by {
            let prev = reaches_source_within(net, (k - 1) as nat);
            if !prev.contains(v) {
                let w = choose|w: int| prev.contains(w) && net.residual_edge(v, w);
                assert(net.edge_at(v, w));
            }
        }
    }
}

/// The reach sets are finite subsets of the id space.
proof fn lemma_rsw_finite(net: FlowNetwork, k: nat)
    requires
        net.wf(),
    ensures
        reaches_source_within(net, k).subset_of(set_int_range(0, net.id_space())),
        reaches_source_within(net, k).finite(),
    decreases k,
{
    lemma_wf_facts(net);
    lemma_int_range(0, net.id_space());
    if k == 0 {
        assert(reaches_source_within(net, k).subset_of(set_int_range(0, net.id_space()))) by {
            assert forall|v: int| reaches_source_within(net, k).contains(v) implies
                set_int_range(0, net.id_space()).contains(v) by {
                assert(v == net.source_id());
            }
        }
    } else {
        lemma_rsw_finite(net, (k - 1) as nat);
        assert forall|v: int| reaches_source_within(net, k).contains(v) implies set_int_range(
            0,
            net.id_space(),
        ).contains(v) by {
            let prev = reaches_source_within(net, (k - 1) as nat);
            if !prev.contains(v) {
                let w = choose|w: int| prev.contains(w) && net.residual_edge(v, w);
                assert(net.edge_at(v, w));
            }
        }
    }
    lemma_len_subset(reaches_source_within(net, k), set_int_range(0, net.id_space()));
}

/// Once a reach set stops growing it never grows again.
proof fn lemma_rsw_stable(net: FlowNetwork, j: nat, k: nat)
    requires
        reaches_source_within(net, j) == reaches_source_within(net, (j + 1) as nat),
        j <= k,
    ensures
        reaches_source_within(net, k) == reaches_source_within(net, j),
    decreases k,
{
    if j < k {
        lemma_rsw_stable(net, j, (k - 1) as nat);
        let prev = reaches_source_within(net, (k - 1) as nat);
        let stepj = reaches_source_within(net, (j + 1) as nat);
        assert(prev == reaches_source_within(net, j));
        assert forall|v: int| reaches_source_within(net, k).contains(v) implies
            reaches_source_within(net, j).contains(v) by {
            if !prev.contains(v) {
                let w = choose|w: int| prev.contains(w) && net.residual_edge(v, w);
                assert(reaches_source_within(net, j).contains(w) && net.residual_edge(v, w));
                assert(stepj.contains(v));
            }
        }
        assert forall|v: int| reaches_source_within(net, j).contains(v) implies
            reaches_source_within(net, k).contains(v) by {
            assert(prev.contains(v));
        }
        assert(reaches_source_within(net, k) =~= reaches_source_within(net, j));
    }
}

/// A strictly growing reach set gains at least one element.
proof fn lemma_rsw_grow(net: FlowNetwork, j: nat)
    requires
        net.wf(),
        reaches_source_within(net, j) != reaches_source_within(net, (j + 1) as nat),
    ensures
        reaches_source_within(net, (j + 1) as nat).len() >= reaches_source_within(net, j).len()
            + 1,
{
    let a = reaches_source_within(net, j);
    let b = reaches_source_within(net, (j + 1) as nat);
    lemma_rsw_monotone(net, j, (j + 1) as nat);
    lemma_rsw_finite(net, j);
    lemma_rsw_finite(net, (j + 1) as nat);
    if forall|e: int| b.contains(e) ==> a.contains(e) {
        assert(a =~= b);
    }
    let e = choose|e: int| b.contains(e) && !a.contains(e);
    assert(a.subset_of(b.remove(e)));
    lemma_len_subset(a, b.remove(e));
    assert(b.remove(e).len() == b.len() - 1);
}

/// Some reach set below the node count is already stable.
proof fn lemma_rsw_stabilizes(net: FlowNetwork, j: nat)
    requires
        net.wf(),
        net.node_at(net.source_id()),
        reaches_source_within(net, j).len() >= j + 1,
    ensures
        exists|i: nat|
            i + 1 <= net.node_count() && #[trigger] reaches_source_within(net, i)
                == reaches_source_within(net, (i + 1) as nat),
    decreases net.node_count() - j,
{
    lemma_rsw_in_nodes(net, j);
    lemma_rsw_finite(net, j);
    lemma_node_set_bounded(net, reaches_source_within(net, j));
    assert(j + 1 <= net.node_count());
    if reaches_source_within(net, j) == reaches_source_within(net, (j + 1) as nat) {
        assert(reaches_source_within(net, j) == reaches_source_within(net, (j + 1) as nat));
    } else {
        lemma_rsw_grow(net, j);
        lemma_rsw_stabilizes(net, (j + 1) as nat);
    }
}

/// Whatever reaches the source at all reaches it within `node count - 1`
/// steps.
proof fn lemma_rsw_capped(net: FlowNetwork, k: nat)
    requires
        net.wf(),
        net.node_at(net.source_id()),
    ensures
        reaches_source_within(net, k).subset_of(
            reaches_source_within(net, (net.node_count() - 1) as nat),
        ),
{
    crate::flow::lemma_node_count_pos(net, net.source_id());
    assert(reaches_source_within(net, 0).len() >= 1) by {
        assert(reaches_source_within(net, 0).contains(net.source_id()));
        assert(reaches_source_within(net, 0) =~= Set::empty().insert(net.source_id()));
    }
    lemma_rsw_stabilizes(net, 0);
    let i = choose|i: nat|
        i + 1 <= net.node_count() && #[trigger] reaches_source_within(net, i)
            == reaches_source_within(net, (i + 1) as nat);
    assert forall|v: int| reaches_source_within(net, k).contains(v) implies
        reaches_source_within(net, (net.node_count() - 1) as nat).contains(v) by {
        if k <= i {
            lemma_rsw_monotone(net, k, i);
        } else {
            lemma_rsw_stable(net, i, k);
        }
        assert(reaches_source_within(net, i).contains(v));
        lemma_rsw_monotone(net, i, (net.node_count() - 1) as nat);
    }
}

/// Along a residual path to the source a valid labeling falls by at most
/// one per step.
proof fn lemma_rsw_height(net: FlowNetwork, v: int, k: nat)
    requires
        net.valid_labeling(),
        reaches_source_within(net, k).contains(v),
    ensures
        net.height_at(v) <= net.height_at(net.source_id()) + k,
    decreases k,
{
    if k > 0 {
        let prev = reaches_source_within(net, (k - 1) as nat);
        if prev.contains(v) {
            lemma_rsw_height(net, v, (k - 1) as nat);
        } else {
            let w = choose|w: int| prev.contains(w) && net.residual_edge(v, w);
            lemma_rsw_height(net, w, (k - 1) as nat);
            assert(net.height_at(v) <= net.height_at(w) + 1);
        }
    }
}

/// A non-source node that reaches the source has a first residual step.
proof fn lemma_rsw_first_step(net: FlowNetwork, v: int, k: nat)
    requires
        k >= 1,
        reaches_source_within(net, k).contains(v),
        v != net.source_id(),
    ensures
        exists|w: int|
            #[trigger] net.residual_edge(v, w) && reaches_source_within(
                net,
                (k - 1) as nat,
            ).contains(w),
    decreases k,
{
    let prev = reaches_source_within(net, (k - 1) as nat);
    if prev.contains(v) {
        lemma_rsw_first_step(net, v, (k - 1) as nat);
        let w = choose|w: int|
            #[trigger] net.residual_edge(v, w) && reaches_source_within(
                net,
                (k - 2) as nat,
            ).contains(w);
        lemma_rsw_monotone(net, (k - 2) as nat, (k - 1) as nat);
        assert(net.residual_edge(v, w) && reaches_source_within(net, (k - 1) as nat).contains(w));
    } else {
        let w = choose|w: int| prev.contains(w) && net.residual_edge(v, w);
        assert(net.residual_edge(v, w) && reaches_source_within(net, (k - 1) as nat).contains(w));
    }
}

/// Excess of the masked nodes below `k`.
pub open spec fn masked_excess(net: FlowNetwork, r: Seq<bool>, k: int) -> int
    decreases k,
{
    if k <= 0 {
        0
    } else {
        masked_excess(net, r, k - 1) + if in_mask(r, k - 1) {
            net.excess_at(k - 1)
        } else {
            0
        }
    }
}

/// Flow into `u` from unmasked tails below `k`.
pub open spec fn inflow_from_outside(net: FlowNetwork, r: Seq<bool>, u: int, k: int) -> int
    decreases k,
{
    if k <= 0 {
        0
    } else {
        inflow_from_outside(net, r, u, k - 1) + if !in_mask(r, k - 1) {
            net.flow_at(k - 1, u)
        } else {
            0
        }
    }
}

/// Flow of the masked pair `(w, u)`, summed over tails `w` below `k`.
pub open spec fn pair_flow_col(net: FlowNetwork, r: Seq<bool>, u: int, k: int) -> int
    decreases k,
{
    if k <= 0 {
        0
    } else {
        pair_flow_col(net, r, u, k - 1) + if in_mask(r, k - 1) && in_mask(r, u) {
            net.flow_at(k - 1, u)
        } else {
            0
        }
    }
}

/// Flow of the masked pair `(w, u)`, summed over heads `u` below `k`.
pub open spec fn pair_flow_row(net: FlowNetwork, r: Seq<bool>, w: int, k: int) -> int
    decreases k,
{
    if k <= 0 {
        0
    } else {
        pair_flow_row(net, r, w, k - 1) + if in_mask(r, w) && in_mask(r, k - 1) {
            net.flow_at(w, k - 1)
        } else {
            0
        }
    }
}

/// Sum of `pair_flow_col` over heads below `m`.
pub open spec fn pair_block(net: FlowNetwork, r: Seq<bool>, m: int, k: int) -> int
    decreases m,
{
    if m <= 0 {
        0
    } else {
        pair_block(net, r, m - 1, k) + pair_flow_col(net, r, m - 1, k)
    }
}

/// Flow into the mask from outside it, summed over masked heads below `m`.
pub open spec fn inflow_total(net: FlowNetwork, r: Seq<bool>, m: int) -> int
    decreases m,
{
    if m <= 0 {
        0
    } else {
        inflow_total(net, r, m - 1) + if in_mask(r, m - 1) {
            inflow_from_outside(net, r, m - 1, net.id_space())
        } else {
            0
        }
    }
}

/// Under skew symmetry the masked column sum is the negation of the masked
/// row sum.
proof fn lemma_pair_col_neg_row(net: FlowNetwork, r: Seq<bool>, u: int, k: int)
    requires
        net.skew_symmetric(),
        r.len() == net.id_space(),
        0 <= k <= net.id_space(),
    ensures
        pair_flow_col(net, r, u, k) == -pair_flow_row(net, r, u, k),
    decreases k,
{
    if k > 0 {
        lemma_pair_col_neg_row(net, r, u, k - 1);
        if in_mask(r, k - 1) && in_mask(r, u) {
            assert(net.flow_at(k - 1, u) == -net.flow_at(u, k - 1));
        }
    }
}

/// Extending every masked column of the block by one tail adds that tail's
/// masked row.
proof fn lemma_pair_block_peel(net: FlowNetwork, r: Seq<bool>, m: int, k: int)
    requires
        k >= 1,
    ensures
        pair_block(net, r, m, k) == pair_block(net, r, m, k - 1) + pair_flow_row(
            net,
            r,
            k - 1,
            m,
        ),
    decreases m,
{
    if m > 0 {
        lemma_pair_block_peel(net, r, m - 1, k);
    }
}

/// Under skew symmetry the flows internal to the mask cancel.
proof fn lemma_pair_block_zero(net: FlowNetwork, r: Seq<bool>, k: int)
    requires
        net.skew_symmetric(),
        r.len() == net.id_space(),
        0 <= k <= net.id_space(),
    ensures
        pair_block(net, r, k, k) == 0,
    decreases k,
{
    if k > 0 {
        lemma_pair_block_zero(net, r, k - 1);
        lemma_pair_block_peel(net, r, k, k);
        lemma_pair_col_neg_row(net, r, k - 1, k - 1);
        assert(net.flow_at(k - 1, k - 1) == 0);
        assert(pair_block(net, r, k, k - 1) == pair_block(net, r, k - 1, k - 1) + pair_flow_col(
            net,
            r,
            k - 1,
            k - 1,
        ));
        assert(pair_flow_row(net, r, k - 1, k) == pair_flow_row(net, r, k - 1, k - 1) + if in_mask(
            r,
            k - 1,
        ) && in_mask(r, k - 1) {
            net.flow_at(k - 1, k - 1)
        } else {
            0
        });
    }
}

/// A masked column of flows splits into its outside and its masked part.
proof fn lemma_col_split(net: FlowNetwork, r: Seq<bool>, u: int, k: int)
    requires
        in_mask(r, u),
    ensures
        net.col_flow(u, k) == inflow_from_outside(net, r, u, k) + pair_flow_col(net, r, u, k),
    decreases k,
{
    if k > 0 {
        lemma_col_split(net, r, u, k - 1);
    }
}

/// The masked excess decomposes into the inflow from outside the mask and
/// the internal flows.
proof fn lemma_masked_excess_split(net: FlowNetwork, r: Seq<bool>, m: int)
    requires
        net.excess_binding(),
        0 <= m <= net.id_space(),
        r.len() == net.id_space(),
    ensures
        masked_excess(net, r, m) == inflow_total(net, r, m) + pair_block(net, r, m, net.id_space()),
    decreases m,
{
    if m > 0 {
        lemma_masked_excess_split(net, r, m - 1);
        if in_mask(r, m - 1) {
            assert(net.excess_at(m - 1) == net.flow_into(m - 1));
            lemma_col_split(net, r, m - 1, net.id_space());
        } else {
            assert(pair_flow_col(net, r, m - 1, net.id_space()) == 0) by {
                lemma_pair_col_unmasked_zero(net, r, m - 1, net.id_space());
            }
        }
    }
}

/// An unmasked head contributes nothing to the internal flows.
proof fn lemma_pair_col_unmasked_zero(net: FlowNetwork, r: Seq<bool>, u: int, k: int)
    requires
        !in_mask(r, u),
    ensures
        pair_flow_col(net, r, u, k) == 0,
    decreases k,
{
    if k > 0 {
        lemma_pair_col_unmasked_zero(net, r, u, k - 1);
    }
}

/// No positive flow enters a residually closed mask from outside: a
/// positive inflow would put positive residual capacity on the reverse
/// pair, which closure forbids.
proof fn lemma_inflow_term_nonpos(net: FlowNetwork, r: Seq<bool>, u: int, k: int)
    requires
        net.wf(),
        net.edges_paired(),
        net.skew_symmetric(),
        residual_closed(net, r),
        in_mask(r, u),
    ensures
        inflow_from_outside(net, r, u, k) <= 0,
    decreases k,
{
    lemma_wf_facts(net);
    if k > 0 {
        lemma_inflow_term_nonpos(net, r, u, k - 1);
        if !in_mask(r, k - 1) {
            if net.flow_at(k - 1, u) > 0 {
                assert(net.edge_at(k - 1, u));
                assert(net.edge_at(u, k - 1));
                assert(net.flow_at(u, k - 1) < 0);
                assert(net.residual_edge(u, k - 1));
                assert(in_mask(r, k - 1));
            }
        }
    }
}

/// The total inflow into a residually closed mask is at most zero.
proof fn lemma_inflow_total_nonpos(net: FlowNetwork, r: Seq<bool>, m: int)
    requires
        net.wf(),
        net.edges_paired(),
        net.skew_symmetric(),
        residual_closed(net, r),
    ensures
        inflow_total(net, r, m) <= 0,
    decreases m,
{
    if m > 0 {
        lemma_inflow_total_nonpos(net, r, m - 1);
        if in_mask(r, m - 1) {
            lemma_inflow_term_nonpos(net, r, m - 1, net.id_space());
        }
    }
}

/// With non-negative masked excesses, one positive member makes the masked
/// excess positive.
proof fn lemma_masked_excess_lower(net: FlowNetwork, r: Seq<bool>, m: int, v: int)
    requires
        0 <= v < m,
        in_mask(r, v),
        forall|u: int| #[trigger] in_mask(r, u) ==> net.excess_at(u) >= 0,
    ensures
        masked_excess(net, r, m) >= net.excess_at(v),
    decreases m,
{
    if v == m - 1 {
        lemma_masked_excess_nonneg(net, r, m - 1);
    } else {
        lemma_masked_excess_lower(net, r, m - 1, v);
    }
}

/// With non-negative masked excesses the masked excess is non-negative.
proof fn lemma_masked_excess_nonneg(net: FlowNetwork, r: Seq<bool>, m: int)
    requires
        forall|u: int| #[trigger] in_mask(r, u) ==> net.excess_at(u) >= 0,
    ensures
        masked_excess(net, r, m) >= 0,
    decreases m,
{
    if m > 0 {
        lemma_masked_excess_nonneg(net, r, m - 1);
    }
}

/// An overflowing node has a residual edge to a node whose height is below
/// twice the node count by at least two: it reaches the source through the
/// residual graph, the reach is capped at `node count - 1` steps, and a
/// valid labeling falls by at most one per step.  This is what lets a
/// relabel keep every height below twice the node count, and with it the
/// solver's relabel budget finite.
pub proof fn lemma_overflowing_has_low_neighbor(net: FlowNetwork, v: int)
    requires
        net.wf(),
        net.edges_paired(),
        net.skew_symmetric(),
        net.excess_binding(),
        net.excess_nonneg(),
        net.valid_labeling(),
        net.node_at(net.source_id()),
        net.height_at(net.source_id()) == net.node_count(),
        0 <= v < net.id_space(),
        v != net.source_id(),
        net.excess_at(v) > 0,
    ensures
        exists|w: int|
            #[trigger] net.residual_edge(v, w) && net.height_at(w) <= 2 * net.node_count() - 2,
{
    let n = net.id_space();
    lemma_wf_facts(net);
    // v is itself a node: its positive excess rides on some edge.
    net.lemma_excess_has_residual(v);
    let w0 = choose|w0: int| #[trigger] net.residual_edge(v, w0);
    assert(net.node_at(v)) by {
        assert(net.edge_at(v, w0));
    }
    lemma_node_count_two(net, v, net.source_id());
    let nc = net.node_count();
    let capped = reaches_source_within(net, (nc - 1) as nat);
    // The complement of the capped reach set is residually closed and
    // excludes the source.
    let mask: Seq<bool> = Seq::new(n as nat, |i: int| !capped.contains(i));
    assert(residual_closed(net, mask)) by {
        assert forall|u: int, w: int|
            in_mask(mask, u) && #[trigger] net.residual_edge(u, w) implies in_mask(mask, w) by {
            assert(0 <= w < n) by {
                assert(net.edge_at(u, w));
            }
            if capped.contains(w) {
                assert(reaches_source_within(net, nc as nat).contains(u)) by {
                    let prev = reaches_source_within(net, (nc - 1) as nat);
                    assert(prev.contains(w) && net.residual_edge(u, w));
                }
                lemma_rsw_capped(net, nc as nat);
                assert(capped.contains(u));
                assert(!in_mask(mask, u));
            }
        }
    }
    assert(capped.contains(net.source_id())) by {
        assert(reaches_source_within(net, 0).contains(net.source_id()));
        lemma_rsw_monotone(net, 0, (nc - 1) as nat);
    }
    // If v could not reach the source it would sit in the mask, whose total
    // excess is at most zero; its own positive excess forbids that.
    if !capped.contains(v) {
        assert(in_mask(mask, v));
        assert forall|u: int| #[trigger] in_mask(mask, u) implies net.excess_at(u) >= 0 by {
            assert(u != net.source_id());
        }
        lemma_masked_excess_lower(net, mask, n, v);
        lemma_masked_excess_split(net, mask, n);
        lemma_inflow_total_nonpos(net, mask, n);
        lemma_pair_block_zero(net, mask, n);
        assert(false);
    }
    // Take the first step of a shortest residual path to the source.
    lemma_rsw_first_step(net, v, (nc - 1) as nat);
    let w = choose|w: int|
        #[trigger] net.residual_edge(v, w) && reaches_source_within(
            net,
            (nc - 2) as nat,
        ).contains(w);
    lemma_rsw_height(net, w, (nc - 2) as nat);
    assert(net.residual_edge(v, w) && net.height_at(w) <= 2 * nc - 2);
}

} // verus!
