//! Helpers that turn room terrain data into a grid graph and derive the
//! planner's inputs: rectangles and windows of tile indices, the sink tiles
//! around the map exits, and the distance transform of the outer rim.
//!
//! Reading the terrain, persisting results and drawing them belong to the
//! surrounding application; everything here works on plain tile values.

use vstd::prelude::*;
use vstd::arithmetic::div_mod::lemma_fundamental_div_mod;
use vstd::arithmetic::div_mod::lemma_fundamental_div_mod_converse;

use crate::graph::seq_has;
use crate::graph::tile_ok;
use crate::graph::tile_x;
use crate::graph::tile_y;
use crate::graph::Node;
use crate::graph::ScreepsGraph;

verus! {

/// Whether tile `b` lies in the 3 by 3 window around tile `a` (`a` itself
/// included).
pub open spec fn tile_near(a: int, b: int) -> bool {
    &&& tile_ok(a)
    &&& tile_ok(b)
    &&& -1 <= tile_x(a) - tile_x(b) <= 1
    &&& -1 <= tile_y(a) - tile_y(b) <= 1
}

/// The tiles of the axis-aligned rectangle spanned by the rows and columns
/// of the two corner tiles, in ascending index order.
pub fn rectangle_of_pos_indices(top_left: Node, bottom_right: Node) -> (r: Vec<Node>)
    requires
        top_left < 2500,
        bottom_right < 2500,
    ensures
        r@.no_duplicates(),
        forall|i: int, j: int| 0 <= i < j < r@.len() ==> r@[i] < r@[j],
        forall|t: int| #[trigger] seq_has(r@, t) <==> (tile_ok(t) && tile_y(top_left as int)
            <= tile_y(t) <= tile_y(bottom_right as int) && tile_x(top_left as int) <= tile_x(t)
            <= tile_x(bottom_right as int)),
    {
    let y0 = top_left / 50;
    let y1 = bottom_right / 50;
    let x0 = top_left % 50;
    let x1 = bottom_right % 50;
    proof {
        lemma_fundamental_div_mod(top_left as int, 50);
        lemma_fundamental_div_mod(bottom_right as int, 50);
        assert(y0 < 50 && y1 < 50 && x0 < 50 && x1 < 50);
    }
    let mut r: Vec<Node> = Vec::new();
    let mut y = y0;
    while y <= y1
        invariant
            y0 == tile_y(top_left as int),
            y1 == tile_y(bottom_right as int),
            x0 == tile_x(top_left as int),
            x1 == tile_x(bottom_right as int),
            y0 < 50,
            y1 < 50,
            x0 < 50,
            x1 < 50,
            y0 <= y,
            y <= y1 + 1 || y == y0,
            forall|i: int| 0 <= i < r@.len() ==> ((#[trigger] r@[i]) as int) < 50 * y,
            forall|i: int, j: int| 0 <= i < j < r@.len() ==> r@[i] < r@[j],
            forall|i: int|
                0 <= i < r@.len() ==> (tile_ok((#[trigger] r@[i]) as int) && y0 <= tile_y(
                    r@[i] as int,
                ) <= y1 && x0 <= tile_x(r@[i] as int) <= x1),
            forall|t: int|
                tile_ok(t) && y0 <= tile_y(t) && tile_y(t) < y && tile_y(t) <= y1 && x0 <= tile_x(t)
                    <= x1 ==> #[trigger] seq_has(r@, t),
        decreases y1 + 1 - y,
    {
        let mut x = x0;
        while x <= x1
            invariant
                y0 == tile_y(top_left as int),
                y1 == tile_y(bottom_right as int),
                x0 == tile_x(top_left as int),
                x1 == tile_x(bottom_right as int),
                y0 < 50,
                y1 < 50,
                x0 < 50,
                x1 < 50,
                y0 <= y <= y1,
                x0 <= x,
                x <= x1 + 1 || x == x0,
                forall|i: int| 0 <= i < r@.len() ==> ((#[trigger] r@[i]) as int) < 50 * y + x,
                forall|i: int, j: int| 0 <= i < j < r@.len() ==> r@[i] < r@[j],
                forall|i: int|
                    0 <= i < r@.len() ==> (tile_ok((#[trigger] r@[i]) as int) && y0 <= tile_y(
                        r@[i] as int,
                    ) <= y1 && x0 <= tile_x(r@[i] as int) <= x1),
                forall|t: int|
                    tile_ok(t) && y0 <= tile_y(t) && tile_y(t) <= y1 && x0 <= tile_x(t) <= x1 && (
                    tile_y(t) < y || (tile_y(t) == y && tile_x(t) < x)) ==> #[trigger] seq_has(
                        r@,
                        t,
                    ),
            decreases x1 + 1 - x,
        {
            let ghost prev = r@;
            let t: u16 = 50 * y + x;
            proof {
                lemma_fundamental_div_mod_converse(t as int, 50, y as int, x as int);
            }
            r.push(t);
            proof {
                assert forall|t2: int|
                    tile_ok(t2) && y0 <= tile_y(t2) && tile_y(t2) <= y1 && x0 <= tile_x(t2) <= x1
                        && (tile_y(t2) < y || (tile_y(t2) == y && tile_x(t2) < x
                        + 1)) implies #[trigger] seq_has(r@, t2) by {
                    if tile_y(t2) == y && tile_x(t2) == x {
                        lemma_fundamental_div_mod(t2, 50);
                        assert(t2 == t as int);
                        assert(r@[r@.len() - 1] == t);
                    } else {
                        assert(seq_has(prev, t2));
                        let i = choose|i: int|
                            0 <= i < prev.len() && ((#[trigger] prev[i]) as int) == t2;
                        assert(((r@[i]) as int) == t2);
                    }
                }
            }
            x = x + 1;
        }
        proof {
            assert forall|t2: int|
                tile_ok(t2) && y0 <= tile_y(t2) && tile_y(t2) < y + 1 && tile_y(t2) <= y1 && x0
                    <= tile_x(t2) <= x1 implies #[trigger] seq_has(r@, t2) by {
                if tile_y(t2) == y {
                    assert(tile_x(t2) <= x1);
                }
            }
        }
        y = y + 1;
    }
    proof {
        assert forall|t2: int| #[trigger] seq_has(r@, t2) implies (tile_ok(t2) && y0 <= tile_y(t2)
            <= y1 && x0 <= tile_x(t2) <= x1) by {
            let i = choose|i: int| 0 <= i < r@.len() && ((#[trigger] r@[i]) as int) == t2;
        }
    }
    r
}

/// The 3 by 3 window of tiles around `index` (the tile itself included),
/// clipped at the grid edge.
pub fn surrounding_pos_indices(index: Node) -> (r: Vec<Node>)
    requires
        index < 2500,
    ensures
        r@.no_duplicates(),
        forall|i: int, j: int| 0 <= i < j < r@.len() ==> r@[i] < r@[j],
        forall|t: int| #[trigger] seq_has(r@, t) <==> tile_near(index as int, t),
{
    let iy = index / 50;
    let ix = index % 50;
    proof {
        lemma_fundamental_div_mod(index as int, 50);
        assert(iy < 50 && ix < 50);
    }
    let y0 = if iy == 0 {
        0
    } else {
        iy - 1
    };
    let y1 = if iy == 49 {
        49
    } else {
        iy + 1
    };
    let x0 = if ix == 0 {
        0
    } else {
        ix - 1
    };
    let x1 = if ix == 49 {
        49
    } else {
        ix + 1
    };
    let tl: u16 = 50 * y0 + x0;
    let br: u16 = 50 * y1 + x1;
    proof {
        lemma_fundamental_div_mod_converse(tl as int, 50, y0 as int, x0 as int);
        lemma_fundamental_div_mod_converse(br as int, 50, y1 as int, x1 as int);
    }
    let r = rectangle_of_pos_indices(tl, br);
    proof {
        assert forall|t: int| #[trigger] seq_has(r@, t) <==> tile_near(index as int, t) by {}
    }
    r
}

/// The sink tiles derived from the map exits: every tile within one step of
/// some exit tile, in ascending index order, each once.
pub fn collect_exit_sinks(exits: &Vec<Node>) -> (r: Vec<Node>)
    requires
        forall|i: int| 0 <= i < exits@.len() ==> (#[trigger] exits@[i]) < 2500,
    ensures
        r@.no_duplicates(),
        forall|i: int, j: int| 0 <= i < j < r@.len() ==> r@[i] < r@[j],
        forall|t: int| #[trigger] seq_has(r@, t) <==> (exists|j: int|
            0 <= j < exits@.len() && tile_near((#[trigger] exits@[j]) as int, t)),
{
    let mut r: Vec<Node> = Vec::new();
    let mut t: u16 = 0;
    while t < 2500
        invariant
            forall|i: int| 0 <= i < exits@.len() ==> (#[trigger] exits@[i]) < 2500,
            t <= 2500,
            forall|i: int| 0 <= i < r@.len() ==> ((#[trigger] r@[i]) as int) < t,
            forall|i: int, j: int| 0 <= i < j < r@.len() ==> r@[i] < r@[j],
            forall|t2: int| #[trigger] seq_has(r@, t2) ==> (exists|j: int|
                0 <= j < exits@.len() && tile_near((#[trigger] exits@[j]) as int, t2)),
            forall|t2: int|
                0 <= t2 < t && (exists|j: int|
                    0 <= j < exits@.len() && tile_near((#[trigger] exits@[j]) as int, t2))
                    ==> #[trigger] seq_has(r@, t2),
        decreases 2500 - t,
    {
        let ghost prev = r@;
        if near_some_exit(exits, t) {
            r.push(t);
        }
        proof {
            assert forall|t2: int|
                0 <= t2 < t + 1 && (exists|j: int|
                    0 <= j < exits@.len() && tile_near(
                        (#[trigger] exits@[j]) as int,
                        t2,
                    )) implies #[trigger] seq_has(r@, t2) by {
                if t2 == t as int {
                    assert(((r@[r@.len() - 1]) as int) == t2);
                } else {
                    assert(seq_has(prev, t2));
                    let i = choose|i: int| 0 <= i < prev.len() && ((#[trigger] prev[i]) as int)
                        == t2;
                    assert(((r@[i]) as int) == t2);
                }
            }
            assert forall|t2: int| #[trigger] seq_has(r@, t2) implies (exists|j: int|
                0 <= j < exits@.len() && tile_near((#[trigger] exits@[j]) as int, t2)) by {
                let i = choose|i: int| 0 <= i < r@.len() && ((#[trigger] r@[i]) as int) == t2;
                if i < prev.len() {
                    assert(seq_has(prev, t2));
                }
            }
        }
        t = t + 1;
    }
    r
}

/// Whether `t` lies within one step of some exit tile.
fn near_some_exit(exits: &Vec<Node>, t: u16) -> (r: bool)
    requires
        forall|i: int| 0 <= i < exits@.len() ==> (#[trigger] exits@[i]) < 2500,
        t < 2500,
    ensures
        r == exists|j: int| 0 <= j < exits@.len() && tile_near((#[trigger] exits@[j]) as int, t as int),
{
    let mut j: usize = 0;
    while j < exits.len()
        invariant
            forall|i: int| 0 <= i < exits@.len() ==> (#[trigger] exits@[i]) < 2500,
            t < 2500,
            j <= exits@.len(),
            forall|i: int| 0 <= i < j ==> !tile_near((#[trigger] exits@[i]) as int, t as int),
        decreases exits@.len() - j,
    {
        if tiles_near(exits[j], t) {
            proof {
                assert(tile_near((exits@[j as int]) as int, t as int));
            }
            return true;
        }
        j = j + 1;
    }
    false
}

/// Whether two tiles lie within one step of each other.
fn tiles_near(a: u16, b: u16) -> (r: bool)
    requires
        a < 2500,
        b < 2500,
    ensures
        r == tile_near(a as int, b as int),
{
    let ax = a % 50;
    let ay = a / 50;
    let bx = b % 50;
    let by = b / 50;
    proof {
        lemma_fundamental_div_mod(a as int, 50);
        lemma_fundamental_div_mod(b as int, 50);
    }
    ax + 1 >= bx && bx + 1 >= ax && ay + 1 >= by && by + 1 >= ay
}

/// Builds the grid graph of a room: a tile whose terrain byte has the wall
/// bit set is a wall, and the declared source and sink tiles are kept in
/// order with the wall tiles filtered out.
pub fn terrain_to_graph(terrain: &Vec<u8>, sources: &Vec<Node>, sinks: &Vec<Node>) -> (r:
    ScreepsGraph)
    requires
        terrain@.len() == 2500,
        forall|i: int| 0 <= i < sources@.len() ==> (#[trigger] sources@[i]) < 2500,
        forall|i: int| 0 <= i < sinks@.len() ==> (#[trigger] sinks@[i]) < 2500,
    ensures
        r.walls_of() == wall_tiles(terrain@, 2500),
        r.sources_of() == drop_wall_tiles(sources@, terrain@, sources@.len() as int),
        r.sinks_of() == drop_wall_tiles(sinks@, terrain@, sinks@.len() as int),
        r.wf(),
{
    let mut walls: Vec<Node> = Vec::new();
    let mut i: usize = 0;
    while i < 2500
        invariant
            terrain@.len() == 2500,
            i <= 2500,
            walls@ == wall_tiles(terrain@, i as int),
        decreases 2500 - i,
    {
        if terrain[i] & 1 == 1 {
            walls.push(i as u16);
        }
        i = i + 1;
    }
    let sources_without_walls = drop_walls(sources, terrain);
    let sinks_without_walls = drop_walls(sinks, terrain);
    proof {
        lemma_wall_tiles_in_grid(terrain@, 2500);
        lemma_drop_wall_tiles_in_grid(sources@, terrain@, sources@.len() as int);
        lemma_drop_wall_tiles_in_grid(sinks@, terrain@, sinks@.len() as int);
    }
    ScreepsGraph::new(sources_without_walls, sinks_without_walls, walls)
}

/// The tiles below `i` whose terrain byte has the wall bit set, ascending.
pub open spec fn wall_tiles(terrain: Seq<u8>, i: int) -> Seq<u16>
    decreases i,
{
    if i <= 0 {
        Seq::empty()
    } else {
        let p = wall_tiles(terrain, i - 1);
        if terrain[i - 1] & 1 == 1 {
            p.push((i - 1) as u16)
        } else {
            p
        }
    }
}

/// The first `i` tiles of `s` that are not walls of the terrain, in order.
pub open spec fn drop_wall_tiles(s: Seq<u16>, terrain: Seq<u8>, i: int) -> Seq<u16>
    decreases i,
{
    if i <= 0 {
        Seq::empty()
    } else {
        let p = drop_wall_tiles(s, terrain, i - 1);
        if terrain[s[i - 1] as int] & 1 == 1 {
            p
        } else {
            p.push(s[i - 1])
        }
    }
}

/// Wall tiles lie on the grid.
proof fn lemma_wall_tiles_in_grid(terrain: Seq<u8>, i: int)
    requires
        i <= 2500,
    ensures
        forall|k: int|
            0 <= k < wall_tiles(terrain, i).len() ==> (#[trigger] wall_tiles(terrain, i)[k])
                < 2500,
    decreases i,
{
    if i > 0 {
        lemma_wall_tiles_in_grid(terrain, i - 1);
        assert forall|k: int|
            0 <= k < wall_tiles(terrain, i).len() implies (#[trigger] wall_tiles(terrain, i)[k])
            < 2500 by {
            let p = wall_tiles(terrain, i - 1);
            if k < p.len() {
                assert(p[k] < 2500);
            }
        }
    }
}

/// Filtering keeps the tiles on the grid.
proof fn lemma_drop_wall_tiles_in_grid(s: Seq<u16>, terrain: Seq<u8>, i: int)
    requires
        i <= s.len(),
        forall|k: int| 0 <= k < s.len() ==> (#[trigger] s[k]) < 2500,
    ensures
        forall|k: int|
            0 <= k < drop_wall_tiles(s, terrain, i).len() ==> (#[trigger] drop_wall_tiles(
                s,
                terrain,
                i,
            )[k]) < 2500,
    decreases i,
{
    if i > 0 {
        lemma_drop_wall_tiles_in_grid(s, terrain, i - 1);
        assert forall|k: int|
            0 <= k < drop_wall_tiles(s, terrain, i).len() implies (#[trigger] drop_wall_tiles(
                s,
                terrain,
                i,
            )[k]) < 2500 by {
            let p = drop_wall_tiles(s, terrain, i - 1);
            if k < p.len() {
                assert(p[k] < 2500);
            } else {
                assert(s[i - 1] < 2500);
            }
        }
    }
}

/// Drops the tiles whose terrain byte has the wall bit set, keeping order.
fn drop_walls(s: &Vec<Node>, terrain: &Vec<u8>) -> (r: Vec<Node>)
    requires
        terrain@.len() == 2500,
        forall|i: int| 0 <= i < s@.len() ==> (#[trigger] s@[i]) < 2500,
    ensures
        r@ == drop_wall_tiles(s@, terrain@, s@.len() as int),
{
    let mut r: Vec<Node> = Vec::new();
    let mut i: usize = 0;
    while i < s.len()
        invariant
            terrain@.len() == 2500,
            forall|k: int| 0 <= k < s@.len() ==> (#[trigger] s@[k]) < 2500,
            i <= s@.len(),
            r@ == drop_wall_tiles(s@, terrain@, i as int),
        decreases s@.len() - i,
    {
        let t = s[i];
        if terrain[t as usize] & 1 != 1 {
            r.push(t);
        }
        i = i + 1;
    }
    r
}

/// The distance transform of the graph's outer rim: the distance field
/// whose boundary set is the list of outer nodes.
pub fn get_distance_transform(graph: &ScreepsGraph) -> (r: Vec<u8>)
    requires
        graph.wf(),
        graph.sinks_of().len() >= 1,
    ensures
        exists|b: Seq<u16>|
            #[trigger] graph.is_outter_list(b) && graph.is_distance_field(b, r@),
{
    let boundaries = graph.get_outter_nodes();
    proof {
        assert forall|i: int|
            0 <= i < boundaries@.len() implies (#[trigger] boundaries@[i]) < 2500 by {
            assert(seq_has(boundaries@, boundaries@[i] as int)) by {
                assert(((boundaries@[i]) as int) == boundaries@[i] as int);
            }
            if (boundaries@[i]) as int != graph.sinks_of()[0] as int {
                assert(graph.outter_node(boundaries@[i] as int));
            } else {
                assert(graph.sinks_of()[0] < 2500);
            }
        }
    }
    let r = graph.distance_transform(&boundaries);
    proof {
        assert(graph.is_outter_list(boundaries@) && graph.is_distance_field(boundaries@, r@));
    }
    r
}

} // verus!
