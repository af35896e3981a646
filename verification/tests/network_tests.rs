//! Tests of the flow network and its push-relabel solver: the three
//! concrete scenarios, the terminal-state flow laws on concrete values, and
//! the rejected construction requests.

use gridflow::flow::FlowNetwork;
use gridflow::flow::NetworkError;
use gridflow::flow::SolveError;
use gridflow::flow::CAP_LIMIT;
use gridflow::flow::NODE_LIMIT;

/// Builds a network with every node added and each listed edge inserted
/// together with its zero-capacity reverse pair.
fn build(n: usize, source: usize, sink: usize, edges: &[(usize, usize, i64)]) -> FlowNetwork {
    let mut net = FlowNetwork::new(n, source, sink).unwrap();
    for id in 0..n {
        net.add_node(id);
    }
    for &(u, v, c) in edges {
        net.add_edge(u, v, c, 0).unwrap();
        net.add_edge(v, u, 0, 0).unwrap();
    }
    net
}

#[test]
fn scenario_a_max_flow_is_6() {
    let mut net = build(
        4,
        0,
        3,
        &[(0, 1, 2), (0, 2, 4), (1, 2, 3), (2, 3, 5), (1, 3, 1)],
    );
    let flow = net.solve_max_flow().unwrap();
    assert_eq!(flow, 6);
}

#[test]
fn scenario_b_max_flow_is_23() {
    let mut net = build(
        6,
        0,
        5,
        &[
            (0, 1, 16),
            (0, 2, 13),
            (1, 3, 12),
            (2, 1, 4),
            (2, 4, 14),
            (3, 2, 9),
            (3, 5, 20),
            (4, 3, 7),
            (4, 5, 4),
        ],
    );
    let flow = net.solve_max_flow().unwrap();
    assert_eq!(flow, 23);
}

#[test]
fn scenario_b_reachable_set_and_boundary() {
    let mut net = build(
        6,
        0,
        5,
        &[
            (0, 1, 16),
            (0, 2, 13),
            (1, 3, 12),
            (2, 1, 4),
            (2, 4, 14),
            (3, 2, 9),
            (3, 5, 20),
            (4, 3, 7),
            (4, 5, 4),
        ],
    );
    net.solve_max_flow().unwrap();
    let mask = net.residual_reachable();
    assert_eq!(mask, vec![true, true, true, false, true, false]);
    let boundary = net.min_cut_boundary(&mask);
    assert_eq!(boundary, vec![3, 5]);
}

#[test]
fn scenario_b_cut_capacity_equals_max_flow() {
    let mut net = build(
        6,
        0,
        5,
        &[
            (0, 1, 16),
            (0, 2, 13),
            (1, 3, 12),
            (2, 1, 4),
            (2, 4, 14),
            (3, 2, 9),
            (3, 5, 20),
            (4, 3, 7),
            (4, 5, 4),
        ],
    );
    let flow = net.solve_max_flow().unwrap();
    let mask = net.residual_reachable();
    let mut crossing: i64 = 0;
    for u in 0..6 {
        for v in 0..6 {
            if mask[u] && !mask[v] {
                crossing += net.capacity(u, v);
            }
        }
    }
    assert_eq!(crossing, flow);
}

#[test]
fn scenario_c_empty_graph() {
    let mut net = build(2, 0, 1, &[]);
    let flow = net.solve_max_flow().unwrap();
    assert_eq!(flow, 0);
    let mask = net.residual_reachable();
    assert_eq!(mask, vec![true, false]);
    let boundary = net.min_cut_boundary(&mask);
    assert!(boundary.is_empty());
}

#[test]
fn reachability_extraction_is_repeatable() {
    let mut net = build(
        6,
        0,
        5,
        &[
            (0, 1, 16),
            (0, 2, 13),
            (1, 3, 12),
            (2, 1, 4),
            (2, 4, 14),
            (3, 2, 9),
            (3, 5, 20),
            (4, 3, 7),
            (4, 5, 4),
        ],
    );
    net.solve_max_flow().unwrap();
    let first = net.residual_reachable();
    let second = net.residual_reachable();
    assert_eq!(first, second);
}

#[test]
fn terminal_state_skew_symmetry_and_capacity_respect() {
    let mut net = build(
        6,
        0,
        5,
        &[
            (0, 1, 16),
            (0, 2, 13),
            (1, 3, 12),
            (2, 1, 4),
            (2, 4, 14),
            (3, 2, 9),
            (3, 5, 20),
            (4, 3, 7),
            (4, 5, 4),
        ],
    );
    net.solve_max_flow().unwrap();
    for u in 0..6 {
        for v in 0..6 {
            assert_eq!(net.flow(u, v), -net.flow(v, u));
            assert!(net.flow(u, v) <= net.capacity(u, v));
            assert!(net.flow(u, v) >= -net.capacity(v, u));
            if net.capacity(v, u) == 0 {
                assert!(net.flow(u, v) >= 0);
                assert!(net.flow(u, v) <= net.capacity(u, v));
            }
        }
    }
}

#[test]
fn terminal_state_flow_conservation() {
    let mut net = build(
        6,
        0,
        5,
        &[
            (0, 1, 16),
            (0, 2, 13),
            (1, 3, 12),
            (2, 1, 4),
            (2, 4, 14),
            (3, 2, 9),
            (3, 5, 20),
            (4, 3, 7),
            (4, 5, 4),
        ],
    );
    net.solve_max_flow().unwrap();
    for v in 1..5 {
        let mut net_in: i64 = 0;
        for u in 0..6 {
            net_in += net.flow(u, v);
        }
        assert_eq!(net_in, 0);
    }
}

#[test]
fn max_flow_bounded_by_source_capacity() {
    let mut net = build(
        4,
        0,
        3,
        &[(0, 1, 2), (0, 2, 4), (1, 2, 3), (2, 3, 5), (1, 3, 1)],
    );
    let flow = net.solve_max_flow().unwrap();
    assert!(flow >= 0);
    let mut out_cap: i64 = 0;
    for v in 0..4 {
        out_cap += net.capacity(0, v);
    }
    assert!(flow <= out_cap);
}

#[test]
fn endpoints_are_validated() {
    assert_eq!(
        FlowNetwork::new(5, 2, 2).err(),
        Some(NetworkError::InvalidEndpoints)
    );
    assert_eq!(
        FlowNetwork::new(5, 7, 1).err(),
        Some(NetworkError::InvalidEndpoints)
    );
    assert_eq!(
        FlowNetwork::new(5, 1, 9).err(),
        Some(NetworkError::InvalidEndpoints)
    );
    assert_eq!(
        FlowNetwork::new(NODE_LIMIT + 1, 0, 1).err(),
        Some(NetworkError::InvalidEndpoints)
    );
    assert!(FlowNetwork::new(2, 0, 1).is_ok());
}

#[test]
fn capacities_and_flows_are_range_checked() {
    let mut net = FlowNetwork::new(3, 0, 2).unwrap();
    for id in 0..3 {
        net.add_node(id);
    }
    assert_eq!(
        net.add_edge(0, 1, -1, 0).err(),
        Some(NetworkError::CapacityOutOfRange)
    );
    assert_eq!(
        net.add_edge(0, 1, CAP_LIMIT + 1, 0).err(),
        Some(NetworkError::CapacityOutOfRange)
    );
    assert_eq!(
        net.add_edge(0, 1, 4, 5).err(),
        Some(NetworkError::FlowOutOfRange)
    );
    assert_eq!(
        net.add_edge(0, 1, 4, -CAP_LIMIT - 1).err(),
        Some(NetworkError::FlowOutOfRange)
    );
    assert!(net.add_edge(0, 1, 4, 2).is_ok());
}

#[test]
fn duplicate_edge_insertion_is_a_no_op() {
    let mut net = FlowNetwork::new(3, 0, 2).unwrap();
    for id in 0..3 {
        net.add_node(id);
    }
    net.add_edge(0, 1, 4, 0).unwrap();
    net.add_edge(0, 1, 9, 3).unwrap();
    assert_eq!(net.capacity(0, 1), 4);
    assert_eq!(net.flow(0, 1), 0);
}

#[test]
fn missing_endpoint_is_rejected_before_solving() {
    let mut net = FlowNetwork::new(2, 0, 1).unwrap();
    assert_eq!(net.solve_max_flow().err(), Some(SolveError::MissingEndpoint));
    net.add_node(0);
    assert_eq!(net.solve_max_flow().err(), Some(SolveError::MissingEndpoint));
    net.add_node(1);
    assert_eq!(net.solve_max_flow().ok(), Some(0));
}

#[test]
fn absent_edges_read_as_zero() {
    let net = FlowNetwork::new(3, 0, 2).unwrap();
    assert_eq!(net.capacity(0, 1), 0);
    assert_eq!(net.flow(0, 1), 0);
    assert_eq!(net.residual_capacity(0, 1), 0);
    assert_eq!(net.capacity(9, 9), 0);
}

#[test]
fn neighbors_include_pure_residual_edges() {
    let mut net = FlowNetwork::new(3, 0, 2).unwrap();
    for id in 0..3 {
        net.add_node(id);
    }
    net.add_edge(0, 1, 4, 0).unwrap();
    net.add_edge(1, 0, 0, 0).unwrap();
    assert_eq!(net.neighbors(0), vec![1]);
    assert_eq!(net.neighbors(1), vec![0]);
    assert_eq!(net.neighbors(2), Vec::<usize>::new());
}

#[test]
fn solving_again_resets_and_reaches_the_same_flow() {
    let mut net = build(
        4,
        0,
        3,
        &[(0, 1, 2), (0, 2, 4), (1, 2, 3), (2, 3, 5), (1, 3, 1)],
    );
    let first = net.solve_max_flow().unwrap();
    let second = net.solve_max_flow().unwrap();
    assert_eq!(first, 6);
    assert_eq!(second, 6);
}

#[test]
fn no_node_overflows_before_initialization() {
    let net = build(3, 0, 2, &[(0, 1, 4), (1, 2, 4)]);
    assert_eq!(net.max_flow_get_overflowing_node(), None);
}
