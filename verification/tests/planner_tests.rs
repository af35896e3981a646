//! Tests of the planner helpers: rectangles and windows of tile indices,
//! exit sink collection, terrain parsing, and the rim distance transform.

use gridflow::graph::ScreepsGraph;
use gridflow::planner::collect_exit_sinks;
use gridflow::planner::get_distance_transform;
use gridflow::planner::rectangle_of_pos_indices;
use gridflow::planner::surrounding_pos_indices;
use gridflow::planner::terrain_to_graph;

fn tile(x: u16, y: u16) -> u16 {
    x + y * 50
}

#[test]
fn rectangle_spans_rows_and_columns() {
    assert_eq!(rectangle_of_pos_indices(0, 51), vec![0, 1, 50, 51]);
    assert_eq!(
        rectangle_of_pos_indices(tile(3, 2), tile(5, 2)),
        vec![tile(3, 2), tile(4, 2), tile(5, 2)]
    );
    assert_eq!(rectangle_of_pos_indices(7, 7), vec![7]);
    // An inverted column range spans no tiles.
    assert!(rectangle_of_pos_indices(tile(5, 0), tile(3, 1)).is_empty());
}

#[test]
fn surrounding_includes_the_tile_and_clips() {
    assert_eq!(surrounding_pos_indices(0), vec![0, 1, 50, 51]);
    let center = surrounding_pos_indices(tile(10, 10));
    assert_eq!(center.len(), 9);
    assert!(center.contains(&tile(10, 10)));
    assert!(center.contains(&tile(9, 9)));
    assert!(center.contains(&tile(11, 11)));
    let edge = surrounding_pos_indices(tile(49, 49));
    assert_eq!(edge.len(), 4);
}

#[test]
fn exit_sinks_are_deduplicated() {
    // Two adjacent exits on the top edge share most of their windows.
    let sinks = collect_exit_sinks(&vec![tile(10, 0), tile(11, 0)]);
    let expected = vec![
        tile(9, 0),
        tile(10, 0),
        tile(11, 0),
        tile(12, 0),
        tile(9, 1),
        tile(10, 1),
        tile(11, 1),
        tile(12, 1),
    ];
    for t in &expected {
        assert!(sinks.contains(t));
    }
    assert_eq!(sinks.len(), expected.len());
}

#[test]
fn terrain_parsing_masks_walls_and_filters_lists() {
    let mut terrain = vec![0u8; 2500];
    terrain[5] = 1;
    terrain[6] = 3;
    terrain[7] = 2;
    let graph = terrain_to_graph(&terrain, &vec![4, 5], &vec![6, 8]);
    assert_eq!(graph.walls(), &vec![5, 6]);
    assert_eq!(graph.sources(), &vec![4]);
    assert_eq!(graph.sinks(), &vec![8]);
}

#[test]
fn rim_distance_transform_is_zero_on_the_rim() {
    let graph = ScreepsGraph::new(vec![], vec![0], vec![]);
    let distances = get_distance_transform(&graph);
    assert_eq!(distances.len(), 2500);
    // Grid-edge tiles are outer nodes, hence at distance zero.
    assert_eq!(distances[tile(25, 0) as usize], 0);
    assert_eq!(distances[tile(0, 25) as usize], 0);
    // Moving inward raises the distance one layer at a time.
    assert_eq!(distances[tile(25, 1) as usize], 1);
    assert_eq!(distances[tile(25, 2) as usize], 2);
    assert_eq!(distances[tile(25, 25) as usize], 24);
}
