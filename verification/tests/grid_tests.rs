//! Tests of the grid topology: neighbor enumeration with supernode
//! collapse, the outer rim, the distance transform, and the minimum-cut
//! pipeline on a corridor room.

use gridflow::graph::ScreepsGraph;

/// Tile index from coordinates.
fn tile(x: u16, y: u16) -> u16 {
    x + y * 50
}

#[test]
fn surrounding_indices_clip_at_the_grid_edge() {
    let mut corner = ScreepsGraph::get_surrounding_indices(0);
    corner.sort();
    assert_eq!(corner, vec![1, 50, 51]);
    let mut center = ScreepsGraph::get_surrounding_indices(tile(10, 10));
    center.sort();
    assert_eq!(
        center,
        vec![
            tile(9, 9),
            tile(10, 9),
            tile(11, 9),
            tile(9, 10),
            tile(11, 10),
            tile(9, 11),
            tile(10, 11),
            tile(11, 11),
        ]
    );
}

#[test]
fn get_node_collapses_classes_and_drops_walls() {
    let graph = ScreepsGraph::new(vec![7, 8], vec![20, 21], vec![30]);
    assert_eq!(graph.get_node(7), Some(7));
    assert_eq!(graph.get_node(8), Some(7));
    assert_eq!(graph.get_node(20), Some(20));
    assert_eq!(graph.get_node(21), Some(20));
    assert_eq!(graph.get_node(30), None);
    assert_eq!(graph.get_node(40), Some(40));
}

#[test]
fn neighbors_of_a_source_cover_the_whole_class() {
    // Two source tiles on row 0; their neighbor sets merge and collapse.
    let graph = ScreepsGraph::new(vec![tile(2, 0), tile(4, 0)], vec![], vec![]);
    let neighbors = graph.get_neighbors(tile(2, 0));
    // Tile (3, 0) touches both source tiles; tile (5, 1) touches only the
    // second one.
    assert!(neighbors.contains(&tile(3, 0)));
    assert!(neighbors.contains(&tile(5, 1)));
    assert!(!neighbors.contains(&tile(7, 0)));
    // A wall never has neighbors.
    let walled = ScreepsGraph::new(vec![], vec![], vec![tile(2, 0)]);
    assert!(walled.get_neighbors(tile(2, 0)).is_empty());
}

#[test]
fn outter_nodes_are_the_rim_and_the_sink_side() {
    let graph = ScreepsGraph::new(vec![], vec![0], vec![]);
    let outters = graph.get_outter_nodes();
    // The sink itself leads the list.
    assert_eq!(outters[0], 0);
    // Grid-edge tiles have fewer than 8 neighbors.
    assert!(outters.contains(&tile(30, 0)));
    assert!(outters.contains(&tile(0, 30)));
    assert!(outters.contains(&tile(49, 49)));
    // Interior tiles next to the sink are outer nodes too.
    assert!(outters.contains(&tile(1, 1)));
    // An interior tile away from the sink is not.
    assert!(!outters.contains(&tile(2, 1)));
    assert!(!outters.contains(&tile(25, 25)));
}

#[test]
fn wall_adjacent_tiles_are_outer_nodes() {
    let graph = ScreepsGraph::new(vec![], vec![0], vec![tile(25, 25)]);
    let outters = graph.get_outter_nodes();
    assert!(outters.contains(&tile(24, 25)));
    assert!(outters.contains(&tile(26, 26)));
    assert!(!outters.contains(&tile(23, 25)));
    // The wall itself is not a node.
    assert!(!outters.contains(&tile(25, 25)));
}

#[test]
fn distance_transform_is_chebyshev_distance_on_an_open_room() {
    let graph = ScreepsGraph::new(vec![], vec![], vec![]);
    let distances = graph.distance_transform(&vec![0]);
    assert_eq!(distances.len(), 2500);
    assert_eq!(distances[0], 0);
    assert_eq!(distances[tile(1, 1) as usize], 1);
    assert_eq!(distances[tile(5, 3) as usize], 5);
    assert_eq!(distances[tile(49, 0) as usize], 49);
    assert_eq!(distances[tile(49, 49) as usize], 49);
}

#[test]
fn distance_transform_goes_around_walls() {
    // A wall at (1, 0) forces the path from (0, 0) to (2, 0) through row 1.
    let graph = ScreepsGraph::new(vec![], vec![], vec![tile(1, 0)]);
    let distances = graph.distance_transform(&vec![0]);
    assert_eq!(distances[tile(1, 0) as usize], 255);
    assert_eq!(distances[tile(1, 1) as usize], 1);
    assert_eq!(distances[tile(2, 0) as usize], 2);
}

#[test]
fn distance_transform_marks_unreachable_tiles() {
    // Walls enclose the tile (1, 1) completely.
    let walls = vec![
        tile(0, 0),
        tile(1, 0),
        tile(2, 0),
        tile(0, 1),
        tile(2, 1),
        tile(0, 2),
        tile(1, 2),
        tile(2, 2),
    ];
    let graph = ScreepsGraph::new(vec![], vec![], walls);
    let distances = graph.distance_transform(&vec![tile(1, 1)]);
    assert_eq!(distances[tile(1, 1) as usize], 0);
    assert_eq!(distances[tile(3, 1) as usize], 255);
    assert_eq!(distances[tile(25, 25) as usize], 255);
}

#[test]
fn distance_transform_from_several_boundaries() {
    let graph = ScreepsGraph::new(vec![], vec![], vec![]);
    let distances = graph.distance_transform(&vec![0, tile(49, 49)]);
    assert_eq!(distances[0], 0);
    assert_eq!(distances[tile(49, 49) as usize], 0);
    // The middle of the diagonal is 24 steps from the nearer corner.
    assert_eq!(distances[tile(25, 25) as usize], 24);
    assert_eq!(distances[tile(24, 24) as usize], 24);
}

/// A corridor room: only row 0 is free, the source sits at its left end
/// and the sink at its right end.
fn corridor() -> ScreepsGraph {
    let mut walls = Vec::new();
    for y in 1..50u16 {
        for x in 0..50u16 {
            walls.push(tile(x, y));
        }
    }
    ScreepsGraph::new(vec![0], vec![tile(49, 0)], walls)
}

#[test]
fn corridor_max_flow_is_one() {
    let graph = corridor();
    let gn = graph.create_residual_graph();
    assert_eq!(gn.max_flow, 1);
}

#[test]
fn corridor_connected_side_is_the_source() {
    let graph = corridor();
    let connected = graph.min_cut_connected_nodes();
    assert_eq!(connected, vec![0]);
}

#[test]
fn corridor_cut_boundary_is_the_first_free_tile() {
    let graph = corridor();
    let boundary = graph.min_cut_nodes();
    assert_eq!(boundary, vec![1]);
}

#[test]
fn two_lane_room_needs_two_cut_tiles() {
    // Rows 0 and 1 are free: two disjoint lanes from left to right.
    let mut walls = Vec::new();
    for y in 2..50u16 {
        for x in 0..50u16 {
            walls.push(tile(x, y));
        }
    }
    // Both left-end tiles are sources, both right-end tiles are sinks.
    let graph = ScreepsGraph::new(
        vec![tile(0, 0), tile(0, 1)],
        vec![tile(49, 0), tile(49, 1)],
        walls,
    );
    let gn = graph.create_residual_graph();
    assert_eq!(gn.max_flow, 2);
    let boundary = graph.min_cut_nodes();
    assert_eq!(boundary.len(), 2);
    assert!(boundary.contains(&tile(1, 0)));
    assert!(boundary.contains(&tile(1, 1)));
}

#[test]
fn all_surrounding_indices_concatenate_windows() {
    let around = ScreepsGraph::get_all_surrounding_indices(&vec![0, tile(10, 10)]);
    assert!(around.contains(&1));
    assert!(around.contains(&tile(9, 9)));
    assert!(around.contains(&tile(11, 11)));
    assert!(!around.contains(&tile(20, 20)));
}
