//! The grid topology: a 50 by 50 room whose tiles are walls, sources,
//! sinks, or free, with 8-connected adjacency clipped at the grid edge.
//!
//! A tile is identified by its linear index `x + y * 50`.  All declared
//! source tiles collapse into one representative node (the first source),
//! all sink tiles into another; wall tiles are excluded from the graph
//! entirely.  The analyses on top — maximum flow, minimum-cut boundary and
//! the distance transform — work on this collapsed graph.

use vstd::prelude::*;
use vstd::arithmetic::div_mod::lemma_fundamental_div_mod;

use crate::cut::boundary_node;
use crate::cut::in_mask;
use crate::cut::lemma_cut_separates;
use crate::cut::reach_sound;
use crate::cut::residual_closed;
use crate::flow::FlowNetwork;


verus! {

/// Number of tiles of a room: a 50 by 50 grid.
pub const ROOM_SIZE: usize = 2500;

/// Width (and height) of a room in tiles.
pub const GRID_SIDE: u16 = 50;

/// A tile index: `x + y * 50`.
pub type Node = u16;

/// Whether `t` is a tile of the grid.
pub open spec fn tile_ok(t: int) -> bool {
    0 <= t < 2500
}

/// Column of tile `t`.
pub open spec fn tile_x(t: int) -> int {
    t % 50
}

/// Row of tile `t`.
pub open spec fn tile_y(t: int) -> int {
    t / 50
}

/// Whether distinct tiles `a` and `b` touch, diagonals included, with no
/// wraparound at the grid edge.
pub open spec fn tile_adjacent(a: int, b: int) -> bool {
    &&& tile_ok(a)
    &&& tile_ok(b)
    &&& a != b
    &&& -1 <= tile_x(a) - tile_x(b) <= 1
    &&& -1 <= tile_y(a) - tile_y(b) <= 1
}

/// Whether the tile list `s` holds tile `t`.
pub open spec fn seq_has(s: Seq<u16>, t: int) -> bool {
    exists|i: int| 0 <= i < s.len() && (#[trigger] s[i]) as int == t
}

/// The grid graph: the tiles making up the source, the tiles making up the
/// sink, and the wall tiles, which are not part of the graph.
pub struct ScreepsGraph {
    sources: Vec<Node>,
    sinks: Vec<Node>,
    walls: Vec<Node>,
}

impl ScreepsGraph {
    /// The declared source tiles.
    pub closed spec fn sources_of(self) -> Seq<u16> {
        self.sources@
    }

    /// The declared sink tiles.
    pub closed spec fn sinks_of(self) -> Seq<u16> {
        self.sinks@
    }

    /// The declared wall tiles.
    pub closed spec fn walls_of(self) -> Seq<u16> {
        self.walls@
    }

    /// Every declared tile lies on the grid.
    pub open spec fn wf(self) -> bool {
        &&& forall|i: int| 0 <= i < self.sources_of().len() ==> (#[trigger] self.sources_of()[i])
            < 2500
        &&& forall|i: int| 0 <= i < self.sinks_of().len() ==> (#[trigger] self.sinks_of()[i]) < 2500
        &&& forall|i: int| 0 <= i < self.walls_of().len() ==> (#[trigger] self.walls_of()[i]) < 2500
    }

    /// The node a tile belongs to: the source representative for a source
    /// tile, the sink representative for a sink tile, nothing for a wall,
    /// and the tile itself otherwise.
    pub open spec fn canon(self, t: int) -> Option<int> {
        if seq_has(self.sources_of(), t) {
            Some(self.sources_of()[0] as int)
        } else if seq_has(self.sinks_of(), t) {
            Some(self.sinks_of()[0] as int)
        } else if seq_has(self.walls_of(), t) {
            None
        } else {
            Some(t)
        }
    }

    /// Whether tile `c` belongs to the class of tiles collapsed into the
    /// node that `node` belongs to; walls have no class.
    pub open spec fn in_class(self, node: int, c: int) -> bool {
        if seq_has(self.walls_of(), node) {
            false
        } else if seq_has(self.sources_of(), node) {
            seq_has(self.sources_of(), c)
        } else if seq_has(self.sinks_of(), node) {
            seq_has(self.sinks_of(), c)
        } else {
            c == node
        }
    }

    /// Whether some tile of `node`'s class touches the tile `t`.
    pub open spec fn class_adjacent(self, node: int, t: int) -> bool {
        exists|c: int| self.in_class(node, c) && #[trigger] tile_adjacent(c, t)
    }

    /// Whether `t` is a neighbor node of `node`: some tile of `node`'s
    /// class touches a tile whose node is `t`.
    pub open spec fn neighbor_rel(self, node: int, t: int) -> bool {
        exists|c: int, a: int|
            self.in_class(node, c) && #[trigger] tile_adjacent(c, a) && self.canon(a) == Some(t)
    }

    /// The declared source tiles, as stored.
    pub fn sources(&self) -> (r: &Vec<Node>)
        ensures
            r@ == self.sources_of(),
    {
        &self.sources
    }

    /// The declared sink tiles, as stored.
    pub fn sinks(&self) -> (r: &Vec<Node>)
        ensures
            r@ == self.sinks_of(),
    {
        &self.sinks
    }

    /// The declared wall tiles, as stored.
    pub fn walls(&self) -> (r: &Vec<Node>)
        ensures
            r@ == self.walls_of(),
    {
        &self.walls
    }

    /// Wraps the given source, sink and wall tile lists.
    pub fn new(sources: Vec<Node>, sinks: Vec<Node>, walls: Vec<Node>) -> (r: ScreepsGraph)
        ensures
            r.sources_of() == sources@,
            r.sinks_of() == sinks@,
            r.walls_of() == walls@,
    {
        ScreepsGraph { sources, sinks, walls }
    }

    /// The node the tile `node` belongs to: the first source for a source
    /// tile, the first sink for a sink tile, `None` for a wall.
    pub fn get_node(&self, node: Node) -> (r: Option<Node>)
        requires
            self.wf(),
        ensures
            match r {
                Some(c) => self.canon(node as int) == Some(c as int),
                None => self.canon(node as int) is None,
            },
    {
        if vec_has(&self.sources, node) {
            return Some(self.sources[0]);
        }
        if vec_has(&self.sinks, node) {
            return Some(self.sinks[0]);
        }
        if vec_has(&self.walls, node) {
            return None;
        }
        Some(node)
    }

    /// The tiles touching `node`: up to 8, fewer at the grid edge.
    pub fn get_surrounding_indices(node: Node) -> (r: Vec<Node>)
        requires
            node < 2500,
        ensures
            r@.no_duplicates(),
            r@.len() <= 9,
            forall|i: int, j: int| 0 <= i < j < r@.len() ==> r@[i] < r@[j],
            forall|t: int| seq_has(r@, t) <==> tile_adjacent(node as int, t),
    {
        let node_y = node / 50;
        let node_x = node % 50;
        proof {
            lemma_fundamental_div_mod(node as int, 50);
            assert(node_y < 50 && node_x < 50);
        }
        let y0 = if node_y == 0 {
            0
        } else {
            node_y - 1
        };
        let y1 = if node_y == 49 {
            49
        } else {
            node_y + 1
        };
        let x0 = if node_x == 0 {
            0
        } else {
            node_x - 1
        };
        let x1 = if node_x == 49 {
            49
        } else {
            node_x + 1
        };
        let mut r: Vec<Node> = Vec::new();
        let mut y = y0;
        while y <= y1
            invariant
                node < 2500,
                node_y == tile_y(node as int),
                node_x == tile_x(node as int),
                node_y < 50,
                node_x < 50,
                y0 <= y <= y1 + 1,
                y0 == if node_y == 0 {
                    0
                } else {
                    (node_y - 1) as int
                },
                y1 == if node_y == 49 {
                    49
                } else {
                    (node_y + 1) as int
                },
                x0 == if node_x == 0 {
                    0
                } else {
                    (node_x - 1) as int
                },
                x1 == if node_x == 49 {
                    49
                } else {
                    (node_x + 1) as int
                },
                r@.len() <= 3 * (y - y0),
                forall|i: int| 0 <= i < r@.len() ==> tile_adjacent(
                    node as int,
                    (#[trigger] r@[i]) as int,
                ),
                forall|i: int| 0 <= i < r@.len() ==> ((#[trigger] r@[i]) as int) < 50 * y,
                forall|i: int, j: int| 0 <= i < j < r@.len() ==> r@[i] < r@[j],
                forall|t: int|
                    tile_adjacent(node as int, t) && tile_y(t) < y ==> #[trigger] seq_has(r@, t),
            decreases y1 + 1 - y,
        {
            let mut x = x0;
            while x <= x1
                invariant
                    node < 2500,
                    node_y == tile_y(node as int),
                    node_x == tile_x(node as int),
                    node_y < 50,
                    node_x < 50,
                    y0 <= y <= y1,
                    x0 <= x <= x1 + 1,
                    y0 == if node_y == 0 {
                        0
                    } else {
                        (node_y - 1) as int
                    },
                    y1 == if node_y == 49 {
                        49
                    } else {
                        (node_y + 1) as int
                    },
                    x0 == if node_x == 0 {
                        0
                    } else {
                        (node_x - 1) as int
                    },
                    x1 == if node_x == 49 {
                        49
                    } else {
                        (node_x + 1) as int
                    },
                    r@.len() <= 3 * (y - y0) + (x - x0),
                    forall|i: int| 0 <= i < r@.len() ==> tile_adjacent(
                        node as int,
                        (#[trigger] r@[i]) as int,
                    ),
                    forall|i: int| 0 <= i < r@.len() ==> ((#[trigger] r@[i]) as int) < 50 * y + x,
                    forall|i: int, j: int| 0 <= i < j < r@.len() ==> r@[i] < r@[j],
                    forall|t: int|
                        tile_adjacent(node as int, t) && (tile_y(t) < y || (tile_y(t) == y
                            && tile_x(t) < x)) ==> #[trigger] seq_has(r@, t),
                decreases x1 + 1 - x,
            {
                let ghost prev = r@;
                let t: u16 = x + y * 50;
                proof {
                    vstd::arithmetic::div_mod::lemma_fundamental_div_mod_converse(
                        t as int,
                        50,
                        y as int,
                        x as int,
                    );
                }
                if !(y == node_y && x == node_x) {
                    r.push(t);
                }
                proof {
                    assert forall|t2: int|
                        tile_adjacent(node as int, t2) && (tile_y(t2) < y || (tile_y(t2) == y
                            && tile_x(t2) < x + 1)) implies #[trigger] seq_has(r@, t2) by {
                        if tile_y(t2) == y && tile_x(t2) == x {
                            lemma_fundamental_div_mod(t2, 50);
                            assert(t2 == t as int);
                            assert(r@[r@.len() - 1] == t);
                        } else {
                            assert(seq_has(prev, t2));
                            let i = choose|i: int|
                                0 <= i < prev.len() && (#[trigger] prev[i]) as int == t2;
                            assert((r@[i]) as int == t2);
                        }
                    }
                }
                x = x + 1;
            }
            proof {
                assert forall|t2: int|
                    tile_adjacent(node as int, t2) && tile_y(t2) < y + 1 implies #[trigger] seq_has(
                    r@,
                    t2,
                ) by {
                    if tile_y(t2) == y {
                        assert(tile_x(t2) <= x1);
                    }
                }
            }
            y = y + 1;
        }
        proof {
            assert forall|t2: int| seq_has(r@, t2) implies tile_adjacent(node as int, t2) by {
                let i = choose|i: int| 0 <= i < r@.len() && (#[trigger] r@[i]) as int == t2;
            }
            assert forall|t2: int| tile_adjacent(node as int, t2) implies seq_has(r@, t2) by {
                assert(tile_y(t2) < y);
            }
            assert(r@.len() <= 3 * (y1 + 1 - y0));
        }
        r
    }

    /// The tiles touching any of the given tiles, concatenated (a tile that
    /// touches several of them occurs several times).
    pub fn get_all_surrounding_indices(nodes: &Vec<Node>) -> (r: Vec<Node>)
        requires
            forall|i: int| 0 <= i < nodes@.len() ==> (#[trigger] nodes@[i]) < 2500,
        ensures
            forall|t: int| #[trigger] seq_has(r@, t) <==> exists|j: int|
                0 <= j < nodes@.len() && tile_adjacent((#[trigger] nodes@[j]) as int, t),
    {
        let mut r: Vec<Node> = Vec::new();
        let mut j: usize = 0;
        while j < nodes.len()
            invariant
                forall|i: int| 0 <= i < nodes@.len() ==> (#[trigger] nodes@[i]) < 2500,
                j <= nodes@.len(),
                forall|t: int| #[trigger] seq_has(r@, t) <==> exists|jj: int|
                    0 <= jj < j && tile_adjacent((#[trigger] nodes@[jj]) as int, t),
            decreases nodes@.len() - j,
        {
            let around = Self::get_surrounding_indices(nodes[j]);
            let mut i: usize = 0;
            while i < around.len()
                invariant
                    forall|ii: int| 0 <= ii < nodes@.len() ==> (#[trigger] nodes@[ii]) < 2500,
                    j < nodes@.len(),
                    i <= around@.len(),
                    forall|t: int| #[trigger] seq_has(around@, t) <==> tile_adjacent(
                        nodes@[j as int] as int,
                        t,
                    ),
                    forall|t: int| #[trigger] seq_has(r@, t) <==> ((exists|jj: int|
                        0 <= jj < j && tile_adjacent((#[trigger] nodes@[jj]) as int, t)) || (
                    exists|ii: int|
                        0 <= ii < i && (#[trigger] around@[ii]) as int == t)),
                decreases around@.len() - i,
            {
                let ghost prev = r@;
                r.push(around[i]);
                proof {
                    assert forall|t: int| #[trigger] seq_has(r@, t) implies ((exists|jj: int|
                        0 <= jj < j && tile_adjacent((#[trigger] nodes@[jj]) as int, t)) || (
                    exists|ii: int|
                        0 <= ii < i + 1 && (#[trigger] around@[ii]) as int == t)) by {
                        let k = choose|k: int|
                            0 <= k < r@.len() && (#[trigger] r@[k]) as int == t;
                        if k < prev.len() {
                            assert(seq_has(prev, t));
                        } else {
                            assert(around@[i as int] as int == t);
                        }
                    }
                    assert forall|t: int|
                        ((exists|jj: int|
                            0 <= jj < j && tile_adjacent((#[trigger] nodes@[jj]) as int, t)) || (
                        exists|ii: int|
                            0 <= ii < i + 1 && (#[trigger] around@[ii]) as int
                                == t)) implies #[trigger] seq_has(r@, t) by {
                        if exists|ii: int| 0 <= ii < i + 1 && (#[trigger] around@[ii]) as int
                            == t {
                            let ii = choose|ii: int|
                                0 <= ii < i + 1 && (#[trigger] around@[ii]) as int == t;
                            if ii == i {
                                assert(r@[r@.len() - 1] as int == t);
                            } else {
                                assert(seq_has(prev, t));
                                let k = choose|k: int|
                                    0 <= k < prev.len() && (#[trigger] prev[k]) as int == t;
                                assert(r@[k] as int == t);
                            }
                        } else {
                            assert(seq_has(prev, t));
                            let k = choose|k: int|
                                0 <= k < prev.len() && (#[trigger] prev[k]) as int == t;
                            assert(r@[k] as int == t);
                        }
                    }
                }
                i = i + 1;
            }
            proof {
                assert forall|t: int| #[trigger] seq_has(r@, t) implies exists|jj: int|
                    0 <= jj < j + 1 && tile_adjacent((#[trigger] nodes@[jj]) as int, t) by {
                    if !(exists|jj: int|
                        0 <= jj < j && tile_adjacent((#[trigger] nodes@[jj]) as int, t)) {
                        assert(seq_has(around@, t));
                        assert(tile_adjacent(nodes@[j as int] as int, t));
                    }
                }
                assert forall|t: int|
                    (exists|jj: int|
                        0 <= jj < j + 1 && tile_adjacent(
                            (#[trigger] nodes@[jj]) as int,
                            t,
                        )) implies #[trigger] seq_has(r@, t) by {
                    let jj = choose|jj: int|
                        0 <= jj < j + 1 && tile_adjacent((#[trigger] nodes@[jj]) as int, t);
                    if jj == j {
                        assert(seq_has(around@, t));
                    }
                }
            }
            j = j + 1;
        }
        r
    }

    /// The neighbor nodes of the tile `node`: the nodes of all tiles
    /// touching `node`'s class, concatenated over the class (so a node may
    /// occur several times).  A wall has no neighbors.
    pub fn get_neighbors(&self, node: Node) -> (r: Vec<Node>)
        requires
            self.wf(),
            node < 2500,
        ensures
            forall|t: int| #[trigger] seq_has(r@, t) <==> self.neighbor_rel(node as int, t),
            forall|i: int| 0 <= i < r@.len() ==> (#[trigger] r@[i]) < 2500,
    {
        if vec_has(&self.walls, node) {
            let r: Vec<Node> = Vec::new();
            proof {
                assert forall|t: int| !self.neighbor_rel(node as int, t) by {}
            }
            return r;
        }
        let surrounding: Vec<Node>;
        if vec_has(&self.sources, node) {
            surrounding = Self::get_all_surrounding_indices(&self.sources);
            proof {
                assert forall|t: int| #[trigger] seq_has(surrounding@, t) <==> self.class_adjacent(
                    node as int,
                    t,
                ) by {
                    if seq_has(surrounding@, t) {
                        let j = choose|j: int|
                            0 <= j < self.sources@.len() && tile_adjacent(
                                (#[trigger] self.sources@[j]) as int,
                                t,
                            );
                        assert(seq_has(self.sources@, self.sources@[j] as int)) by {
                            assert((self.sources@[j]) as int == self.sources@[j] as int);
                        }
                        assert(self.in_class(node as int, self.sources@[j] as int)
                            && tile_adjacent(self.sources@[j] as int, t));
                    }
                    if self.class_adjacent(node as int, t) {
                        let c = choose|c: int|
                            self.in_class(node as int, c) && #[trigger] tile_adjacent(c, t);
                        let jj = choose|jj: int|
                            0 <= jj < self.sources@.len() && (#[trigger] self.sources@[jj]) as int
                                == c;
                        assert(tile_adjacent((self.sources@[jj]) as int, t));
                    }
                }
            }
        } else if vec_has(&self.sinks, node) {
            surrounding = Self::get_all_surrounding_indices(&self.sinks);
            proof {
                assert forall|t: int| #[trigger] seq_has(surrounding@, t) <==> self.class_adjacent(
                    node as int,
                    t,
                ) by {
                    if seq_has(surrounding@, t) {
                        let j = choose|j: int|
                            0 <= j < self.sinks@.len() && tile_adjacent(
                                (#[trigger] self.sinks@[j]) as int,
                                t,
                            );
                        assert(seq_has(self.sinks@, self.sinks@[j] as int)) by {
                            assert((self.sinks@[j]) as int == self.sinks@[j] as int);
                        }
                        assert(self.in_class(node as int, self.sinks@[j] as int) && tile_adjacent(
                            self.sinks@[j] as int,
                            t,
                        ));
                    }
                    if self.class_adjacent(node as int, t) {
                        let c = choose|c: int|
                            self.in_class(node as int, c) && #[trigger] tile_adjacent(c, t);
                        let jj = choose|jj: int|
                            0 <= jj < self.sinks@.len() && (#[trigger] self.sinks@[jj]) as int
                                == c;
                        assert(tile_adjacent((self.sinks@[jj]) as int, t));
                    }
                }
            }
        } else {
            surrounding = Self::get_surrounding_indices(node);
            proof {
                assert forall|t: int| #[trigger] seq_has(surrounding@, t) <==> self.class_adjacent(
                    node as int,
                    t,
                ) by {
                    if seq_has(surrounding@, t) {
                        assert(self.in_class(node as int, node as int) && tile_adjacent(
                            node as int,
                            t,
                        ));
                    }
                    if self.class_adjacent(node as int, t) {
                        let c = choose|c: int|
                            self.in_class(node as int, c) && #[trigger] tile_adjacent(c, t);
                        assert(c == node as int);
                    }
                }
            }
        }
        let mut r: Vec<Node> = Vec::new();
        let mut i: usize = 0;
        while i < surrounding.len()
            invariant
                self.wf(),
                node < 2500,
                i <= surrounding@.len(),
                forall|t: int| #[trigger] seq_has(surrounding@, t) <==> self.class_adjacent(
                    node as int,
                    t,
                ),
                forall|t: int| #[trigger] seq_has(r@, t) ==> self.neighbor_rel(node as int, t),
                forall|ii: int|
                    0 <= ii < i ==> match #[trigger] self.canon(surrounding@[ii] as int) {
                        Some(t) => seq_has(r@, t),
                        None => true,
                    },
                forall|k: int| 0 <= k < r@.len() ==> (#[trigger] r@[k]) < 2500,
            decreases surrounding@.len() - i,
        {
            let a = surrounding[i];
            proof {
                assert(seq_has(surrounding@, a as int)) by {
                    assert((surrounding@[i as int]) as int == a as int);
                }
            }
            if a < 2500 {
                let ghost prev = r@;
                match self.get_node(a) {
                    Some(c) => {
                        proof {
                            assert(self.class_adjacent(node as int, a as int));
                            let cc = choose|cc: int|
                                self.in_class(node as int, cc) && #[trigger] tile_adjacent(
                                    cc,
                                    a as int,
                                );
                            assert(self.neighbor_rel(node as int, c as int)) by {
                                assert(self.in_class(node as int, cc) && tile_adjacent(
                                    cc,
                                    a as int,
                                ) && self.canon(a as int) == Some(c as int));
                            }
                            assert(c < 2500) by {
                                if seq_has(self.sources@, a as int) {
                                    assert(self.sources@[0] < 2500);
                                } else if seq_has(self.sinks@, a as int) {
                                    assert(self.sinks@[0] < 2500);
                                }
                            }
                        }
                        r.push(c);
                        proof {
                            assert forall|ii: int| 0 <= ii < i + 1 implies match #[trigger] self
                                .canon(surrounding@[ii] as int) {
                                Some(t) => seq_has(r@, t),
                                None => true,
                            } by {
                                match self.canon(surrounding@[ii] as int) {
                                    Some(t) => {
                                        if ii == i {
                                            assert(t == c as int);
                                            assert(r@[r@.len() - 1] as int == t);
                                        } else {
                                            assert(seq_has(prev, t));
                                            let k = choose|k: int|
                                                0 <= k < prev.len() && (#[trigger] prev[k]) as int
                                                    == t;
                                            assert(r@[k] as int == t);
                                        }
                                    },
                                    None => {},
                                }
                            }
                            assert forall|t: int| #[trigger] seq_has(r@, t) implies self
                                .neighbor_rel(node as int, t) by {
                                let k = choose|k: int|
                                    0 <= k < r@.len() && (#[trigger] r@[k]) as int == t;
                                if k < prev.len() {
                                    assert(seq_has(prev, t));
                                }
                            }
                        }
                    },
                    None => {
                        proof {
                            assert forall|ii: int| 0 <= ii < i + 1 implies match #[trigger] self
                                .canon(surrounding@[ii] as int) {
                                Some(t) => seq_has(r@, t),
                                None => true,
                            } by {}
                        }
                    },
                }
            }
            i = i + 1;
        }
        proof {
            assert forall|t: int| self.neighbor_rel(node as int, t) implies #[trigger] seq_has(
                r@,
                t,
            ) by {
                let (c, a) = choose|c: int, a: int|
                    self.in_class(node as int, c) && #[trigger] tile_adjacent(c, a) && self.canon(
                        a,
                    ) == Some(t);
                assert(seq_has(surrounding@, a)) by {
                    assert(self.class_adjacent(node as int, a)) by {
                        assert(self.in_class(node as int, c) && tile_adjacent(c, a));
                    }
                }
                let ii = choose|ii: int|
                    0 <= ii < surrounding@.len() && (#[trigger] surrounding@[ii]) as int == a;
            }
        }
        r
    }

    /// Number of traversable tiles (tiles whose node exists) touching the
    /// tile `c`.
    pub open spec fn adj_mapped_card(self, c: int) -> int {
        Set::new(|a: int| tile_adjacent(c, a) && self.canon(a) is Some).len() as int
    }

    /// Sum of `adj_mapped_card` over the first `i` tiles of `cells`.
    pub open spec fn class_card_upto(self, cells: Seq<u16>, i: int) -> int
        decreases i,
    {
        if i <= 0 {
            0
        } else {
            self.class_card_upto(cells, i - 1) + self.adj_mapped_card(cells[i - 1] as int)
        }
    }

    /// Number of traversable tiles touching `node`'s class, counted per
    /// class tile: the grid degree of the node.
    pub open spec fn neighbor_len(self, node: int) -> int {
        if seq_has(self.walls_of(), node) {
            0
        } else if seq_has(self.sources_of(), node) {
            self.class_card_upto(self.sources_of(), self.sources_of().len() as int)
        } else if seq_has(self.sinks_of(), node) {
            self.class_card_upto(self.sinks_of(), self.sinks_of().len() as int)
        } else {
            self.adj_mapped_card(node)
        }
    }

    /// Whether the node `v` lies on the outer rim of the graph: it is the
    /// sink, touches the sink, or has fewer than 8 traversable tiles around
    /// its class (the grid edge or a wall is next to it).
    pub open spec fn outter_node(self, v: int) -> bool {
        &&& tile_ok(v)
        &&& self.canon(v) == Some(v)
        &&& (v == self.sinks_of()[0] as int || self.neighbor_rel(v, self.sinks_of()[0] as int)
            || self.neighbor_len(v) < 8)
    }

    /// Number of traversable tiles touching the tile `cell`.
    fn count_mapped_surroundings(&self, cell: u16) -> (r: usize)
        requires
            self.wf(),
            cell < 2500,
        ensures
            r == self.adj_mapped_card(cell as int),
            r <= 9,
    {
        let s = Self::get_surrounding_indices(cell);
        let mut cnt: usize = 0;
        let ghost mut fset: Set<int> = Set::empty();
        let mut i: usize = 0;
        while i < s.len()
            invariant
                self.wf(),
                cell < 2500,
                i <= s@.len(),
                s@.len() <= 9,
                s@.no_duplicates(),
                forall|t: int| #[trigger] seq_has(s@, t) <==> tile_adjacent(cell as int, t),
                fset.finite(),
                cnt == fset.len(),
                cnt <= i,
                forall|x: int| #[trigger] fset.contains(x) <==> exists|k: int|
                    0 <= k < i && (#[trigger] s@[k]) as int == x && self.canon(x) is Some,
            decreases s@.len() - i,
        {
            let a = s[i];
            match self.get_node(a) {
                Some(_) => {
                    proof {
                        if fset.contains(a as int) {
                            let k = choose|k: int|
                                0 <= k < i && (#[trigger] s@[k]) as int == a as int && self.canon(
                                    a as int,
                                ) is Some;
                            assert(s@[k] == s@[i as int]);
                            assert(false);
                        }
                        fset = fset.insert(a as int);
                    }
                    cnt = cnt + 1;
                },
                None => {},
            }
            proof {
                assert forall|x: int| #[trigger] fset.contains(x) implies exists|k: int|
                    0 <= k < i + 1 && (#[trigger] s@[k]) as int == x && self.canon(x) is Some by {
                    if x != a as int || !(self.canon(a as int) is Some) {
                        let k = choose|k: int|
                            0 <= k < i && (#[trigger] s@[k]) as int == x && self.canon(x) is Some;
                    } else {
                        assert((s@[i as int]) as int == x);
                    }
                }
            }
            i = i + 1;
        }
        proof {
            let target = Set::new(|a: int| tile_adjacent(cell as int, a) && self.canon(a) is Some);
            assert(fset =~= target) by {
                assert forall|x: int| #[trigger] fset.contains(x) implies target.contains(x) by {
                    let k = choose|k: int|
                        0 <= k < i && (#[trigger] s@[k]) as int == x && self.canon(x) is Some;
                    assert(seq_has(s@, x));
                }
                assert forall|x: int| #[trigger] target.contains(x) implies fset.contains(x) by {
                    assert(seq_has(s@, x));
                    let k = choose|k: int| 0 <= k < s@.len() && (#[trigger] s@[k]) as int == x;
                }
            }
        }
        cnt
    }

    /// Partial class sums only grow as more class tiles are counted.
    proof fn lemma_class_card_monotone(self, cells: Seq<u16>, i: int, j: int)
        requires
            0 <= i <= j,
        ensures
            self.class_card_upto(cells, i) <= self.class_card_upto(cells, j),
        decreases j,
    {
        if i < j {
            self.lemma_class_card_monotone(cells, i, j - 1);
        }
    }

    /// The grid degree of `node`, capped at 8: enough to decide whether the
    /// node sits on the outer rim.
    fn neighbor_count_capped(&self, node: u16) -> (r: usize)
        requires
            self.wf(),
            node < 2500,
        ensures
            self.neighbor_len(node as int) < 8 ==> r == self.neighbor_len(node as int),
            self.neighbor_len(node as int) >= 8 ==> r == 8,
    {
        if vec_has(&self.walls, node) {
            return 0;
        }
        if vec_has(&self.sources, node) {
            proof {
                assert forall|k: int|
                    0 <= k < self.sources@.len() implies (#[trigger] self.sources@[k]) < 2500 by {
                    assert(self.sources_of()[k] < 2500);
                }
            }
            self.class_count_capped(&self.sources)
        } else if vec_has(&self.sinks, node) {
            proof {
                assert forall|k: int|
                    0 <= k < self.sinks@.len() implies (#[trigger] self.sinks@[k]) < 2500 by {
                    assert(self.sinks_of()[k] < 2500);
                }
            }
            self.class_count_capped(&self.sinks)
        } else {
            let cnt = self.count_mapped_surroundings(node);
            if cnt >= 8 {
                8
            } else {
                cnt
            }
        }
    }

    /// Sum of the per-tile traversable-surroundings counts of a class,
    /// capped at 8.
    fn class_count_capped(&self, cells: &Vec<u16>) -> (r: usize)
        requires
            self.wf(),
            forall|k: int| 0 <= k < cells@.len() ==> (#[trigger] cells@[k]) < 2500,
        ensures
            self.class_card_upto(cells@, cells@.len() as int) < 8 ==> r == self.class_card_upto(
                cells@,
                cells@.len() as int,
            ),
            self.class_card_upto(cells@, cells@.len() as int) >= 8 ==> r == 8,
    {
        let mut acc: usize = 0;
        let mut i: usize = 0;
        while i < cells.len()
            invariant
                self.wf(),
                i <= cells@.len(),
                forall|k: int| 0 <= k < cells@.len() ==> (#[trigger] cells@[k]) < 2500,
                acc == self.class_card_upto(cells@, i as int),
                acc < 8,
            decreases cells@.len() - i,
        {
            let c = self.count_mapped_surroundings(cells[i]);
            acc = acc + c;
            i = i + 1;
            if acc >= 8 {
                proof {
                    self.lemma_class_card_monotone(cells@, i as int, cells@.len() as int);
                }
                return 8;
            }
        }
        acc
    }

    /// Whether `b` lists exactly the outer rim: the sink representative and
    /// every other outer node, each once.
    pub open spec fn is_outter_list(self, b: Seq<u16>) -> bool {
        &&& b.no_duplicates()
        &&& forall|t: int| #[trigger] seq_has(b, t) <==> (t == self.sinks_of()[0] as int
            || (self.outter_node(t) && t != self.sinks_of()[0] as int))
    }

    /// The outer rim of the graph: the sink node, followed by every other
    /// node that touches the sink or has fewer than 8 traversable tiles
    /// around its class, in ascending tile order.  These are the natural
    /// boundary tiles for the distance transform.
    pub fn get_outter_nodes(&self) -> (r: Vec<Node>)
        requires
            self.wf(),
            self.sinks_of().len() >= 1,
        ensures
            self.is_outter_list(r@),
            r@.len() >= 1,
            r@[0] == self.sinks_of()[0],
            forall|k: int, l: int| 1 <= k < l < r@.len() ==> r@[k] < r@[l],
    {
        let sink_rep = self.sinks[0];
        let mut r: Vec<Node> = Vec::new();
        r.push(sink_rep);
        let mut index: u16 = 0;
        while index < 2500
            invariant
                self.wf(),
                self.sinks_of().len() >= 1,
                sink_rep == self.sinks_of()[0],
                index <= 2500,
                r@.len() >= 1,
                r@[0] == sink_rep,
                forall|k: int| 1 <= k < r@.len() ==> (#[trigger] r@[k]) != sink_rep,
                forall|k: int, l: int| 1 <= k < l < r@.len() ==> r@[k] < r@[l],
                forall|k: int| 1 <= k < r@.len() ==> ((#[trigger] r@[k]) as int) < index,
                forall|k: int| 1 <= k < r@.len() ==> self.outter_node((#[trigger] r@[k]) as int),
                forall|t: int|
                    0 <= t < index && self.outter_node(t) && t != sink_rep as int ==> #[trigger] seq_has(
                        r@,
                        t,
                    ),
            decreases 2500 - index,
        {
            let keep: bool;
            match self.get_node(index) {
                Some(node) => {
                    if node == index && node != sink_rep {
                        let neighbors = self.get_neighbors(node);
                        let has_sink = vec_has(&neighbors, sink_rep);
                        proof {
                            assert(has_sink == seq_has(neighbors@, sink_rep as int));
                        }
                        if has_sink {
                            keep = true;
                        } else {
                            let cnt = self.neighbor_count_capped(node);
                            keep = cnt < 8;
                        }
                    } else {
                        keep = false;
                    }
                },
                None => {
                    keep = false;
                },
            }
            let ghost prev = r@;
            if keep {
                r.push(index);
            }
            proof {
                assert forall|t: int|
                    0 <= t < index + 1 && self.outter_node(t) && t
                        != sink_rep as int implies #[trigger] seq_has(r@, t) by {
                    if t == index as int {
                        assert(r@[r@.len() - 1] == index);
                    } else {
                        assert(seq_has(prev, t));
                        let k = choose|k: int|
                            0 <= k < prev.len() && (#[trigger] prev[k]) as int == t;
                        assert(r@[k] as int == t);
                    }
                }
            }
            index = index + 1;
        }
        proof {
            assert forall|t: int| #[trigger] seq_has(r@, t) implies (t == self.sinks_of()[0] as int
                || (self.outter_node(t) && t != self.sinks_of()[0] as int)) by {
                let k = choose|k: int| 0 <= k < r@.len() && (#[trigger] r@[k]) as int == t;
            }
            assert forall|t: int|
                (t == self.sinks_of()[0] as int || (self.outter_node(t) && t != self.sinks_of()[0]
                    as int)) implies #[trigger] seq_has(r@, t) by {
                if t == self.sinks_of()[0] as int {
                    assert(r@[0] as int == t);
                }
            }
            assert forall|k: int, l: int| 0 <= k < l < r@.len() implies r@[k] != r@[l] by {
                if k == 0 {
                    assert(r@[l] != sink_rep);
                }
            }
        }
        r
    }

    /// Whether the graph is ready for the cut pipeline: the tile lists are
    /// on the grid, a source and a sink exist, and the three roles are
    /// disjoint.
    pub open spec fn cut_ready(self) -> bool {
        &&& self.wf()
        &&& self.sources_of().len() >= 1
        &&& self.sinks_of().len() >= 1
        &&& forall|t: int|
            !(#[trigger] seq_has(self.sources_of(), t) && seq_has(self.sinks_of(), t))
        &&& forall|t: int|
            !(#[trigger] seq_has(self.sources_of(), t) && seq_has(self.walls_of(), t))
        &&& forall|t: int| !(#[trigger] seq_has(self.sinks_of(), t) && seq_has(self.walls_of(), t))
    }

    /// What a tile maps to is itself a node of the graph.
    proof fn lemma_canon_target(self, a: int, v: int)
        requires
            self.cut_ready(),
            0 <= a < 2500,
            self.canon(a) == Some(v),
        ensures
            0 <= v < 2500,
            self.canon(v) == Some(v),
    {
        if seq_has(self.sources_of(), a) {
            assert(seq_has(self.sources_of(), v)) by {
                assert((self.sources_of()[0]) as int == v);
            }
            assert(self.sources_of()[0] < 2500);
        } else if seq_has(self.sinks_of(), a) {
            assert(seq_has(self.sinks_of(), v)) by {
                assert((self.sinks_of()[0]) as int == v);
            }
            assert(self.sinks_of()[0] < 2500);
        } else if seq_has(self.walls_of(), a) {
            assert(false);
        }
    }

    /// The neighbor relation is symmetric on the graph's nodes: tiles touch
    /// each other both ways, and with disjoint roles the classes collapse
    /// consistently.
    proof fn lemma_neighbor_symmetric(self, u: int, v: int)
        requires
            self.cut_ready(),
            0 <= u < 2500,
            self.canon(u) == Some(u),
            self.neighbor_rel(u, v),
        ensures
            0 <= v < 2500,
            self.canon(v) == Some(v),
            self.neighbor_rel(v, u),
    {
        let (c, a) = choose|c: int, a: int|
            self.in_class(u, c) && #[trigger] tile_adjacent(c, a) && self.canon(a) == Some(v);
        self.lemma_canon_target(a, v);
        assert(self.canon(c) == Some(u)) by {
            if seq_has(self.sources_of(), u) {
                assert((self.sources_of()[0]) as int == u);
            } else if seq_has(self.sinks_of(), u) {
                assert((self.sinks_of()[0]) as int == u);
            }
        }
        assert(self.in_class(v, a)) by {
            if seq_has(self.sources_of(), a) {
                assert(seq_has(self.sources_of(), v)) by {
                    assert((self.sources_of()[0]) as int == v);
                }
            } else if seq_has(self.sinks_of(), a) {
                assert(seq_has(self.sinks_of(), v)) by {
                    assert((self.sinks_of()[0]) as int == v);
                }
            }
        }
        assert(self.in_class(v, a) && tile_adjacent(a, c) && self.canon(c) == Some(u));
    }

    /// Builds the unit-capacity flow network of the grid (one node per
    /// canonical tile, an edge both ways wherever two nodes touch) and runs
    /// the push-relabel solver on it, from the source representative to the
    /// sink representative.  The residual state left in the network is what
    /// the cut extraction reads.
    pub fn create_residual_graph(&self) -> (gn: GridNetwork)
        requires
            self.cut_ready(),
        ensures
            gn.solved(*self),
    {
        // Assign dense ids to the canonical tiles, in ascending order.
        let mut tile_of_id: Vec<u16> = Vec::new();
        let mut id_of_tile: Vec<usize> = Vec::new();
        let mut t: usize = 0;
        while t < 2500
            invariant
                self.cut_ready(),
                t <= 2500,
                id_of_tile@.len() == t,
                tile_of_id@.len() <= t,
                forall|id: int|
                    0 <= id < tile_of_id@.len() ==> (((#[trigger] tile_of_id@[id]) as int) < t
                        && self.canon(tile_of_id@[id] as int) == Some(tile_of_id@[id] as int)
                        && id_of_tile@[tile_of_id@[id] as int] == id),
                forall|t2: int|
                    0 <= t2 < t ==> (self.canon(t2) == Some(t2) <==> ((
                    #[trigger] id_of_tile@[t2]) as int) < tile_of_id@.len()),
                forall|t2: int|
                    0 <= t2 < t && self.canon(t2) == Some(t2)
                        ==> ((#[trigger] tile_of_id@[id_of_tile@[t2] as int]) as int) == t2,
                forall|t2: int|
                    0 <= t2 < t && self.canon(t2) != Some(t2) ==> (#[trigger] id_of_tile@[t2])
                        == 2500,
            decreases 2500 - t,
        {
            let tu = t as u16;
            let mut canonical = false;
            match self.get_node(tu) {
                Some(c) => {
                    if c == tu {
                        canonical = true;
                    }
                },
                None => {},
            }
            if canonical {
                id_of_tile.push(tile_of_id.len());
                tile_of_id.push(tu);
            } else {
                id_of_tile.push(2500);
            }
            t = t + 1;
        }
        let n = tile_of_id.len();
        let s0 = self.sources[0];
        let t0 = self.sinks[0];
        proof {
            assert(seq_has(self.sources_of(), s0 as int)) by {
                assert((self.sources_of()[0]) as int == s0 as int);
            }
            assert(seq_has(self.sinks_of(), t0 as int)) by {
                assert((self.sinks_of()[0]) as int == t0 as int);
            }
            assert(self.sources_of()[0] < 2500);
            assert(self.sinks_of()[0] < 2500);
            assert(self.canon(s0 as int) == Some(s0 as int));
            assert(self.canon(t0 as int) == Some(t0 as int));
        }
        let source_id = id_of_tile[s0 as usize];
        let sink_id = id_of_tile[t0 as usize];
        proof {
            assert(((tile_of_id@[source_id as int]) as int) == s0 as int);
            assert(((tile_of_id@[sink_id as int]) as int) == t0 as int);
            assert(source_id != sink_id);
        }
        let mut net = match FlowNetwork::new(n, source_id, sink_id) {
            Ok(net) => net,
            Err(_) => {
                proof {
                    assert(false);
                }
                vstd::pervasive::unreached()
            },
        };
        // The node set: every canonical tile.
        let mut id: usize = 0;
        while id < n
            invariant
                net.wf(),
                net.id_space() == n,
                net.source_id() == source_id,
                net.sink_id() == sink_id,
                id <= n,
                forall|u: int| #[trigger] net.node_at(u) <==> 0 <= u < id,
                forall|u: int, v: int| !(#[trigger] net.edge_at(u, v)),
                forall|u: int, v: int| #[trigger] net.cap_at(u, v) == 0,
            decreases n - id,
        {
            net.add_node(id);
            id = id + 1;
        }
        // The edges: unit capacity both ways wherever two nodes touch.
        let mut i: usize = 0;
        while i < n
            invariant
                self.cut_ready(),
                net.wf(),
                net.id_space() == n,
                net.source_id() == source_id,
                net.sink_id() == sink_id,
                i <= n,
                n == tile_of_id@.len(),
                n <= 2500,
                id_of_tile@.len() == 2500,
                forall|u: int| #[trigger] net.node_at(u) <==> 0 <= u < n,
                forall|id2: int|
                    0 <= id2 < n ==> (((#[trigger] tile_of_id@[id2]) as int) < 2500 && self.canon(
                        tile_of_id@[id2] as int,
                    ) == Some(tile_of_id@[id2] as int) && id_of_tile@[tile_of_id@[id2] as int]
                        == id2),
                forall|t2: int|
                    0 <= t2 < 2500 ==> (self.canon(t2) == Some(t2) <==> ((
                    #[trigger] id_of_tile@[t2]) as int) < n),
                forall|t2: int|
                    0 <= t2 < 2500 && self.canon(t2) == Some(t2)
                        ==> ((#[trigger] tile_of_id@[id_of_tile@[t2] as int]) as int) == t2,
                forall|x: int, j2: int|
                    #[trigger] net.edge_at(x, j2) <==> (0 <= x < i && 0 <= j2 < n && x != j2
                        && self.neighbor_rel(
                        tile_of_id@[x] as int,
                        tile_of_id@[j2] as int,
                    )),
                forall|x: int, j2: int| #[trigger] net.edge_at(x, j2) ==> net.cap_at(x, j2) == 1,
            decreases n - i,
        {
            let tile = tile_of_id[i];
            let neighbors = self.get_neighbors(tile);
            let ghost pre_row = net;
            let mut j: usize = 0;
            while j < neighbors.len()
                invariant
                    self.cut_ready(),
                    net.wf(),
                    net.id_space() == n,
                    net.source_id() == source_id,
                    net.sink_id() == sink_id,
                    i < n,
                    j <= neighbors@.len(),
                    n == tile_of_id@.len(),
                    n <= 2500,
                    id_of_tile@.len() == 2500,
                    tile == tile_of_id@[i as int],
                    tile < 2500,
                    self.canon(tile as int) == Some(tile as int),
                    forall|t2: int| #[trigger] seq_has(neighbors@, t2) <==> self.neighbor_rel(
                        tile as int,
                        t2,
                    ),
                    forall|k: int| 0 <= k < neighbors@.len() ==> (#[trigger] neighbors@[k]) < 2500,
                    forall|u: int| #[trigger] net.node_at(u) <==> 0 <= u < n,
                    forall|id2: int|
                        0 <= id2 < n ==> (((#[trigger] tile_of_id@[id2]) as int) < 2500
                            && self.canon(tile_of_id@[id2] as int) == Some(
                            tile_of_id@[id2] as int,
                        ) && id_of_tile@[tile_of_id@[id2] as int] == id2),
                    forall|t2: int|
                        0 <= t2 < 2500 ==> (self.canon(t2) == Some(t2) <==> ((
                        #[trigger] id_of_tile@[t2]) as int) < n),
                    forall|t2: int|
                        0 <= t2 < 2500 && self.canon(t2) == Some(t2)
                            ==> ((#[trigger] tile_of_id@[id_of_tile@[t2] as int]) as int) == t2,
                    forall|x: int, j2: int|
                        #[trigger] net.edge_at(x, j2) <==> ((0 <= x < i && 0 <= j2 < n && x != j2
                            && self.neighbor_rel(
                            tile_of_id@[x] as int,
                            tile_of_id@[j2] as int,
                        )) || (x == i && 0 <= j2 < n && x != j2 && self.neighbor_rel(
                            tile as int,
                            tile_of_id@[j2] as int,
                        ) && seq_has_up(neighbors@, j as int, tile_of_id@[j2] as int))),
                    forall|x: int, j2: int| #[trigger] net.edge_at(x, j2) ==> net.cap_at(x, j2)
                        == 1,
                decreases neighbors@.len() - j,
            {
                let w = neighbors[j];
                let ghost pre = net;
                if w != tile {
                    proof {
                        assert(seq_has(neighbors@, w as int)) by {
                            assert((neighbors@[j as int]) as int == w as int);
                        }
                        assert(self.neighbor_rel(tile as int, w as int));
                        let (c, a) = choose|c: int, a: int|
                            self.in_class(tile as int, c) && #[trigger] tile_adjacent(c, a)
                                && self.canon(a) == Some(w as int);
                        self.lemma_canon_target(a, w as int);
                    }
                    let wid = id_of_tile[w as usize];
                    proof {
                        assert(((tile_of_id@[wid as int]) as int) == w as int);
                        assert(wid != i);
                    }
                    match net.add_edge(i, wid, 1, 0) {
                        Ok(_) => {},
                        Err(_) => {
                            proof {
                                assert(false);
                            }
                        },
                    }
                    proof {
                        assert forall|x: int, j2: int| #[trigger] net.edge_at(x, j2) implies ((0
                            <= x < i && 0 <= j2 < n && x != j2 && self.neighbor_rel(
                            tile_of_id@[x] as int,
                            tile_of_id@[j2] as int,
                        )) || (x == i && 0 <= j2 < n && x != j2 && self.neighbor_rel(
                            tile as int,
                            tile_of_id@[j2] as int,
                        ) && seq_has_up(neighbors@, j + 1, tile_of_id@[j2] as int))) by {
                            if !pre.edge_at(x, j2) {
                                assert(x == i && j2 == wid);
                                assert((neighbors@[j as int]) as int == tile_of_id@[j2] as int);
                            } else {
                                if x == i {
                                    let k = choose|k: int|
                                        0 <= k < j && ((#[trigger] neighbors@[k]) as int)
                                            == tile_of_id@[j2] as int;
                                }
                            }
                        }
                        assert forall|x: int, j2: int|
                            ((0 <= x < i && 0 <= j2 < n && x != j2 && self.neighbor_rel(
                                tile_of_id@[x] as int,
                                tile_of_id@[j2] as int,
                            )) || (x == i && 0 <= j2 < n && x != j2 && self.neighbor_rel(
                                tile as int,
                                tile_of_id@[j2] as int,
                            ) && seq_has_up(
                                neighbors@,
                                j + 1,
                                tile_of_id@[j2] as int,
                            ))) implies #[trigger] net.edge_at(x, j2) by {
                            if x == i {
                                let k = choose|k: int|
                                    0 <= k < j + 1 && ((#[trigger] neighbors@[k]) as int)
                                        == tile_of_id@[j2] as int;
                                if k == j {
                                    assert(j2 == wid) by {
                                        assert(tile_of_id@[j2] as int == w as int);
                                        assert(id_of_tile@[w as int] == j2);
                                    }
                                } else {
                                    assert(pre.edge_at(x, j2));
                                }
                            } else {
                                assert(pre.edge_at(x, j2));
                            }
                        }
                    }
                } else {
                    proof {
                        assert forall|x: int, j2: int|
                            ((0 <= x < i && 0 <= j2 < n && x != j2 && self.neighbor_rel(
                                tile_of_id@[x] as int,
                                tile_of_id@[j2] as int,
                            )) || (x == i && 0 <= j2 < n && x != j2 && self.neighbor_rel(
                                tile as int,
                                tile_of_id@[j2] as int,
                            ) && seq_has_up(
                                neighbors@,
                                j + 1,
                                tile_of_id@[j2] as int,
                            ))) implies #[trigger] net.edge_at(x, j2) by {
                            if x == i {
                                let k = choose|k: int|
                                    0 <= k < j + 1 && ((#[trigger] neighbors@[k]) as int)
                                        == tile_of_id@[j2] as int;
                                if k == j {
                                    assert(tile_of_id@[j2] as int == tile as int);
                                    assert(id_of_tile@[tile as int] == j2);
                                    assert(j2 == i);
                                    assert(false);
                                } else {
                                    assert(net.edge_at(x, j2));
                                }
                            }
                        }
                    }
                }
                j = j + 1;
            }
            proof {
                assert forall|x: int, j2: int| #[trigger] net.edge_at(x, j2) implies (0 <= x < i + 1
                    && 0 <= j2 < n && x != j2 && self.neighbor_rel(
                    tile_of_id@[x] as int,
                    tile_of_id@[j2] as int,
                )) by {}
                assert forall|x: int, j2: int|
                    (0 <= x < i + 1 && 0 <= j2 < n && x != j2 && self.neighbor_rel(
                        tile_of_id@[x] as int,
                        tile_of_id@[j2] as int,
                    )) implies #[trigger] net.edge_at(x, j2) by {
                    if x == i {
                        assert(seq_has(neighbors@, tile_of_id@[j2] as int));
                        let k = choose|k: int|
                            0 <= k < neighbors@.len() && ((#[trigger] neighbors@[k]) as int)
                                == tile_of_id@[j2] as int;
                        assert(seq_has_up(neighbors@, neighbors@.len() as int, tile_of_id@[j2] as int));
                    }
                }
            }
            i = i + 1;
        }
        // Reverse pairs exist because the neighbor relation is symmetric.
        proof {
            assert forall|x: int, j2: int| #[trigger] net.edge_at(x, j2) implies net.edge_at(
                j2,
                x,
            ) by {
                self.lemma_neighbor_symmetric(tile_of_id@[x] as int, tile_of_id@[j2] as int);
            }
        }
        let ghost pre_solve = net;
        let flow_value = match net.solve_max_flow() {
            Ok(v) => v,
            Err(_) => {
                proof {
                    assert(false);
                }
                vstd::pervasive::unreached()
            },
        };
        let gn = GridNetwork { net, tile_of_id, id_of_tile, max_flow: flow_value };
        proof {
            assert forall|x: int, j2: int| #[trigger] gn.net.edge_at(x, j2) implies gn.net.edge_at(
                j2,
                x,
            ) by {
                assert(pre_solve.edge_at(x, j2));
                assert(gn.net.edge_at(j2, x) == pre_solve.edge_at(j2, x));
            }
            assert forall|x: int, j2: int| #[trigger] gn.net.edge_at(x, j2) implies gn.net.cap_at(
                x,
                j2,
            ) == 1 by {
                assert(pre_solve.edge_at(x, j2));
                assert(gn.net.cap_at(x, j2) == pre_solve.cap_at(x, j2));
            }
            assert forall|x: int, j2: int|
                #[trigger] gn.net.edge_at(x, j2) <==> (0 <= x < n && 0 <= j2 < n && x != j2
                    && self.neighbor_rel(
                    gn.tile_of_id@[x] as int,
                    gn.tile_of_id@[j2] as int,
                )) by {
                assert(gn.net.edge_at(x, j2) == pre_solve.edge_at(x, j2));
            }
            assert forall|u: int| 0 <= u < n implies #[trigger] gn.net.node_at(u) by {
                assert(pre_solve.node_at(u));
            }
        }
        gn
    }

    /// The connected side of the minimum cut, as tiles: every canonical
    /// tile whose node the source still reaches through positive residual
    /// capacity after solving.  Contains the source representative and
    /// never the sink representative: the connected side is a genuine cut
    /// side.
    pub fn min_cut_connected_nodes(&self) -> (rv: Vec<Node>)
        requires
            self.cut_ready(),
        ensures
            rv@.no_duplicates(),
            seq_has(rv@, self.sources_of()[0] as int),
            !seq_has(rv@, self.sinks_of()[0] as int),
            exists|gn: GridNetwork, mask: Seq<bool>| connected_tiles(*self, gn, mask, rv@),
    {
        let gn = self.create_residual_graph();
        proof {
            crate::flow::lemma_wf_facts(gn.net);
            assert(gn.tile_of_id@[gn.net.source_id()] < 2500);
            assert(gn.net.node_at(gn.net.source_id()));
        }
        let mask = gn.net.residual_reachable();
        proof {
            crate::flow::lemma_node_count_pos(gn.net, gn.net.source_id());
            lemma_cut_separates(gn.net, mask@, (gn.net.node_count() - 1) as nat);
        }
        let n = gn.net.id_space_size();
        let mut rv: Vec<Node> = Vec::new();
        let mut id: usize = 0;
        while id < n
            invariant
                gn.solved(*self),
                mask@.len() == n,
                n == gn.net.id_space(),
                id <= n,
                forall|k: int|
                    0 <= k < rv@.len() ==> (((#[trigger] rv@[k]) as int) < 2500 && ((
                    gn.id_of_tile@[rv@[k] as int]) as int) < id && mask@[gn.id_of_tile@[rv@[k] as int] as int]
                        && gn.tile_of_id@[gn.id_of_tile@[rv@[k] as int] as int] == rv@[k]),
                forall|t: int| #[trigger] seq_has(rv@, t) <==> (exists|id2: int|
                    0 <= id2 < id && mask@[id2] && ((#[trigger] gn.tile_of_id@[id2]) as int) == t),
                rv@.no_duplicates(),
            decreases n - id,
        {
            let ghost prev = rv@;
            if mask[id] {
                let tile = gn.tile_of_id[id];
                proof {
                    assert(((gn.tile_of_id@[id as int]) as int) < 2500);
                    assert(gn.id_of_tile@[gn.tile_of_id@[id as int] as int] == id as int);
                    if seq_has(prev, tile as int) {
                        let k = choose|k: int|
                            0 <= k < prev.len() && ((#[trigger] prev[k]) as int) == tile as int;
                        assert(false);
                    }
                }
                rv.push(tile);
            }
            proof {
                assert forall|t: int| #[trigger] seq_has(rv@, t) implies (exists|id2: int|
                    0 <= id2 < id + 1 && mask@[id2] && ((#[trigger] gn.tile_of_id@[id2]) as int)
                        == t) by {
                    let k = choose|k: int|
                        0 <= k < rv@.len() && ((#[trigger] rv@[k]) as int) == t;
                    if k < prev.len() {
                        assert(seq_has(prev, t));
                        let id2 = choose|id2: int|
                            0 <= id2 < id && mask@[id2] && ((#[trigger] gn.tile_of_id@[id2]) as int)
                                == t;
                    } else {
                        assert(mask@[id as int] && ((gn.tile_of_id@[id as int]) as int) == t);
                    }
                }
                assert forall|t: int|
                    (exists|id2: int|
                        0 <= id2 < id + 1 && mask@[id2] && ((#[trigger] gn.tile_of_id@[id2]) as int)
                            == t) implies #[trigger] seq_has(rv@, t) by {
                    let id2 = choose|id2: int|
                        0 <= id2 < id + 1 && mask@[id2] && ((#[trigger] gn.tile_of_id@[id2]) as int)
                            == t;
                    if id2 == id {
                        assert(((rv@[rv@.len() - 1]) as int) == t);
                    } else {
                        assert(seq_has(prev, t));
                        let k = choose|k: int|
                            0 <= k < prev.len() && ((#[trigger] prev[k]) as int) == t;
                        assert(((rv@[k]) as int) == t);
                    }
                }
            }
            id = id + 1;
        }
        proof {
            assert(seq_has(rv@, self.sources_of()[0] as int)) by {
                assert(mask@[gn.net.source_id()] && ((
                gn.tile_of_id@[gn.net.source_id()]) as int) == self.sources_of()[0] as int);
            }
            assert(!seq_has(rv@, self.sinks_of()[0] as int)) by {
                if seq_has(rv@, self.sinks_of()[0] as int) {
                    let id2 = choose|id2: int|
                        0 <= id2 < n && mask@[id2] && ((#[trigger] gn.tile_of_id@[id2]) as int)
                            == self.sinks_of()[0] as int;
                    assert(gn.id_of_tile@[gn.tile_of_id@[id2] as int] == id2);
                    assert(gn.id_of_tile@[gn.tile_of_id@[gn.net.sink_id()] as int]
                        == gn.net.sink_id());
                    assert(id2 == gn.net.sink_id());
                    assert(in_mask(mask@, gn.net.sink_id()));
                }
            }
            assert(connected_tiles(*self, gn, mask@, rv@));
        }
        rv
    }

    /// The minimum-cut boundary, as tiles: the nodes adjacent to the
    /// connected side of the cut that are not themselves in it.  This
    /// frontier is the minimal separating obstruction between the sources
    /// and the sinks.
    pub fn min_cut_nodes(&self) -> (rv: Vec<Node>)
        requires
            self.cut_ready(),
        ensures
            rv@.no_duplicates(),
            exists|gn: GridNetwork, mask: Seq<bool>| boundary_tiles(*self, gn, mask, rv@),
    {
        let gn = self.create_residual_graph();
        proof {
            crate::flow::lemma_wf_facts(gn.net);
            assert(gn.tile_of_id@[gn.net.source_id()] < 2500);
            assert(gn.net.node_at(gn.net.source_id()));
        }
        let mask = gn.net.residual_reachable();
        proof {
            crate::flow::lemma_node_count_pos(gn.net, gn.net.source_id());
            lemma_cut_separates(gn.net, mask@, (gn.net.node_count() - 1) as nat);
        }
        let ids = gn.net.min_cut_boundary(&mask);
        let mut rv: Vec<Node> = Vec::new();
        let mut k: usize = 0;
        while k < ids.len()
            invariant
                gn.solved(*self),
                mask@.len() == gn.net.id_space(),
                k <= ids@.len(),
                ids@.no_duplicates(),
                forall|i: int|
                    0 <= i < ids@.len() ==> boundary_node(gn.net, mask@, (#[trigger] ids@[i]) as int),
                forall|w: int| boundary_node(gn.net, mask@, w) ==> ids@.contains(w as usize),
                rv@.len() == k,
                forall|i: int|
                    0 <= i < k ==> ((#[trigger] rv@[i]) == gn.tile_of_id@[ids@[i] as int]),
                forall|t: int| #[trigger] seq_has(rv@, t) <==> (exists|i: int|
                    0 <= i < k && ((#[trigger] gn.tile_of_id@[ids@[i] as int]) as int) == t),
                rv@.no_duplicates(),
            decreases ids@.len() - k,
        {
            let ghost prev = rv@;
            let wid = ids[k];
            proof {
                assert(boundary_node(gn.net, mask@, ids@[k as int] as int));
                assert(((gn.tile_of_id@[wid as int]) as int) < 2500);
                if seq_has(prev, gn.tile_of_id@[wid as int] as int) {
                    let i = choose|i: int|
                        0 <= i < k && ((#[trigger] gn.tile_of_id@[ids@[i] as int]) as int)
                            == gn.tile_of_id@[wid as int] as int;
                    assert(gn.id_of_tile@[gn.tile_of_id@[ids@[i] as int] as int]
                        == ids@[i] as int);
                    assert(gn.id_of_tile@[gn.tile_of_id@[wid as int] as int] == wid as int);
                    assert(ids@[i] == ids@[k as int]);
                    assert(false);
                }
            }
            rv.push(gn.tile_of_id[wid]);
            proof {
                assert forall|t: int| #[trigger] seq_has(rv@, t) implies (exists|i: int|
                    0 <= i < k + 1 && ((#[trigger] gn.tile_of_id@[ids@[i] as int]) as int)
                        == t) by {
                    let i = choose|i: int|
                        0 <= i < rv@.len() && ((#[trigger] rv@[i]) as int) == t;
                    assert(((gn.tile_of_id@[ids@[i] as int]) as int) == t);
                }
                assert forall|t: int|
                    (exists|i: int|
                        0 <= i < k + 1 && ((#[trigger] gn.tile_of_id@[ids@[i] as int]) as int)
                            == t) implies #[trigger] seq_has(rv@, t) by {
                    let i = choose|i: int|
                        0 <= i < k + 1 && ((#[trigger] gn.tile_of_id@[ids@[i] as int]) as int)
                            == t;
                    assert(((rv@[i]) as int) == t);
                }
            }
            k = k + 1;
        }
        proof {
            assert forall|t: int| #[trigger] seq_has(rv@, t) <==> (exists|id: int|
                boundary_node(gn.net, mask@, id) && ((#[trigger] gn.tile_of_id@[id]) as int)
                    == t) by {
                if seq_has(rv@, t) {
                    let i = choose|i: int|
                        0 <= i < ids@.len() && ((#[trigger] gn.tile_of_id@[ids@[i] as int]) as int)
                            == t;
                    assert(boundary_node(gn.net, mask@, ids@[i] as int) && ((
                    gn.tile_of_id@[ids@[i] as int]) as int) == t);
                }
                if exists|id: int|
                    boundary_node(gn.net, mask@, id) && ((#[trigger] gn.tile_of_id@[id]) as int)
                        == t {
                    let id = choose|id: int|
                        boundary_node(gn.net, mask@, id) && ((#[trigger] gn.tile_of_id@[id]) as int)
                            == t;
                    assert(ids@.contains(id as usize));
                    let i = choose|i: int| 0 <= i < ids@.len() && (#[trigger] ids@[i]) == id;
                    assert(((gn.tile_of_id@[ids@[i] as int]) as int) == t);
                }
            }
            assert(boundary_tiles(*self, gn, mask@, rv@));
        }
        rv
    }

    /// The nodes within `k` expansion steps of the boundary tile set `b`.
    pub open spec fn grid_reach(self, b: Seq<u16>, k: nat) -> Set<int>
        decreases k,
    {
        if k == 0 {
            Set::new(|t: int| seq_has(b, t))
        } else {
            let prev = self.grid_reach(b, (k - 1) as nat);
            prev.union(
                Set::new(|w: int| exists|u: int| prev.contains(u) && self.neighbor_rel(u, w)),
            )
        }
    }

    /// Whether some number of expansion steps from `b` reaches `t`.
    pub open spec fn grid_reachable(self, b: Seq<u16>, t: int) -> bool {
        exists|k: nat| self.grid_reach(b, k).contains(t)
    }

    /// Whether the shortest hop distance from the boundary set `b` to `t`
    /// is exactly `d`.
    pub open spec fn grid_dist_is(self, b: Seq<u16>, t: int, d: int) -> bool {
        &&& 0 <= d
        &&& self.grid_reach(b, d as nat).contains(t)
        &&& (d == 0 || !self.grid_reach(b, (d - 1) as nat).contains(t))
    }

    /// Reachability in few steps implies reachability in more.
    proof fn lemma_grid_reach_monotone(self, b: Seq<u16>, j: nat, k: nat)
        requires
            j <= k,
        ensures
            self.grid_reach(b, j).subset_of(self.grid_reach(b, k)),
        decreases k,
    {
        if j < k {
            self.lemma_grid_reach_monotone(b, j, (k - 1) as nat);
            assert forall|u: int| self.grid_reach(b, j).contains(u) implies self.grid_reach(
                b,
                k,
            ).contains(u) by {
                assert(self.grid_reach(b, (k - 1) as nat).contains(u));
            }
        }
    }

    /// Every set that contains the boundary tiles and is closed under the
    /// neighbor relation contains everything reachable from the boundary.
    proof fn lemma_grid_reach_closed(self, b: Seq<u16>, dset: Set<int>, k: nat)
        requires
            forall|t: int| #[trigger] seq_has(b, t) ==> dset.contains(t),
            forall|u: int, w: int|
                dset.contains(u) && #[trigger] self.neighbor_rel(u, w) ==> dset.contains(w),
        ensures
            forall|t: int| self.grid_reach(b, k).contains(t) ==> dset.contains(t),
        decreases k,
    {
        if k > 0 {
            self.lemma_grid_reach_closed(b, dset, (k - 1) as nat);
            assert forall|t: int| self.grid_reach(b, k).contains(t) implies dset.contains(t) by {
                let prev = self.grid_reach(b, (k - 1) as nat);
                if !prev.contains(t) {
                    let u = choose|u: int| prev.contains(u) && self.neighbor_rel(u, t);
                    assert(dset.contains(u));
                }
            }
        }
    }

    /// Shortest distances are unique.
    proof fn lemma_grid_dist_unique(self, b: Seq<u16>, t: int, d1: int, d2: int)
        requires
            self.grid_dist_is(b, t, d1),
            self.grid_dist_is(b, t, d2),
        ensures
            d1 == d2,
    {
        if d1 < d2 {
            self.lemma_grid_reach_monotone(b, d1 as nat, (d2 - 1) as nat);
        }
        if d2 < d1 {
            self.lemma_grid_reach_monotone(b, d2 as nat, (d1 - 1) as nat);
        }
    }

    /// A neighbor node lies on the grid.
    proof fn lemma_neighbor_in_grid(self, u: int, w: int)
        requires
            self.wf(),
            self.neighbor_rel(u, w),
        ensures
            0 <= w < 2500,
    {
        let (c, a) = choose|c: int, a: int|
            self.in_class(u, c) && #[trigger] tile_adjacent(c, a) && self.canon(a) == Some(w);
        if seq_has(self.sources_of(), a) {
            assert(self.sources_of()[0] < 2500);
        } else if seq_has(self.sinks_of(), a) {
            assert(self.sinks_of()[0] < 2500);
        }
    }

    /// Whether `r` is the distance field of the boundary tile set `b`: per
    /// tile, the length of the shortest hop path from `b` (clipped at 254),
    /// or 255 where no path exists.
    pub open spec fn is_distance_field(self, b: Seq<u16>, r: Seq<u8>) -> bool {
        &&& r.len() == 2500
        &&& forall|t: int, d: int|
            0 <= t < 2500 && 0 <= d < 254 ==> ((r[t] as int) == d <==> #[trigger] self.grid_dist_is(
                b,
                t,
                d,
            ))
        &&& forall|t: int| 0 <= t < 2500 ==> ((#[trigger] r[t]) == 255 <==> !self.grid_reachable(
            b,
            t,
        ))
        &&& forall|t: int| 0 <= t < 2500 ==> ((#[trigger] r[t]) == 254 <==> (self.grid_reachable(
            b,
            t,
        ) && !self.grid_reach(b, 253nat).contains(t)))
    }

    /// The layered multi-source distance transform.  Every tile of
    /// `boundaries` starts at distance 0; each breadth-first layer gets the
    /// next distance, counted with the size of the previous frontier.  A
    /// tile's entry is the length of the shortest hop path from the
    /// boundary set to its node, clipped at 254 (a documented ceiling, so
    /// the one-byte width cannot wrap), and 255 marks a tile no path
    /// reaches.
    pub fn distance_transform(&self, boundaries: &Vec<Node>) -> (r: Vec<u8>)
        requires
            self.wf(),
            forall|i: int| 0 <= i < boundaries@.len() ==> (#[trigger] boundaries@[i]) < 2500,
        ensures
            self.is_distance_field(boundaries@, r@),
    {
        let ghost b = boundaries@;
        let mut distances: Vec<u8> = fill_255(2500);
        let mut discovered: Vec<bool> = crate::flow::falses(2500);
        let mut queue: Vec<Node> = Vec::new();
        // Seed the frontier with the boundary tiles, each once.
        let mut i: usize = 0;
        while i < boundaries.len()
            invariant
                self.wf(),
                forall|k: int| 0 <= k < b.len() ==> (#[trigger] b[k]) < 2500,
                b == boundaries@,
                i <= b.len(),
                discovered@.len() == 2500,
                queue@.no_duplicates(),
                forall|k: int| 0 <= k < queue@.len() ==> (#[trigger] queue@[k]) < 2500,
                forall|t: int|
                    0 <= t < 2500 ==> ((#[trigger] discovered@[t]) <==> seq_has_up(
                        queue@,
                        queue@.len() as int,
                        t,
                    )),
                forall|t: int|
                    0 <= t < 2500 ==> (#[trigger] discovered@[t] <==> exists|k: int|
                        0 <= k < i && (#[trigger] b[k]) as int == t),
                queue@.len() <= 2500,
            decreases b.len() - i,
        {
            let t = boundaries[i];
            let ghost prev_q = queue@;
            if !discovered[t as usize] {
                discovered[t as usize] = true;
                queue.push(t);
                proof {
                    lemma_distinct_tiles_in_range(queue@, 2500);
                }
            }
            proof {
                assert forall|t2: int|
                    0 <= t2 < 2500 implies ((#[trigger] discovered@[t2]) <==> seq_has_up(
                    queue@,
                    queue@.len() as int,
                    t2,
                )) by {
                    if discovered@[t2] {
                        if t2 == t as int && !seq_has_up(prev_q, prev_q.len() as int, t2) {
                            assert(queue@[queue@.len() - 1] as int == t2);
                        } else {
                            let k = choose|k: int|
                                0 <= k < prev_q.len() && (#[trigger] prev_q[k]) as int == t2;
                            assert(queue@[k] as int == t2);
                        }
                    } else {
                        if seq_has_up(queue@, queue@.len() as int, t2) {
                            let k = choose|k: int|
                                0 <= k < queue@.len() && (#[trigger] queue@[k]) as int == t2;
                            if k < prev_q.len() {
                                assert(seq_has_up(prev_q, prev_q.len() as int, t2));
                            }
                            assert(false);
                        }
                    }
                }
                assert forall|t2: int|
                    0 <= t2 < 2500 implies (#[trigger] discovered@[t2] <==> exists|k: int|
                    0 <= k < i + 1 && (#[trigger] b[k]) as int == t2) by {
                    if discovered@[t2] {
                        if t2 == t as int {
                            assert((b[i as int]) as int == t2);
                        }
                    } else {
                        if exists|k: int| 0 <= k < i + 1 && (#[trigger] b[k]) as int == t2 {
                            let k = choose|k: int|
                                0 <= k < i + 1 && (#[trigger] b[k]) as int == t2;
                            assert(k == i);
                            assert(false);
                        }
                    }
                }
            }
            i = i + 1;
        }
        let mut head: usize = 0;
        let mut distance: u8 = 0;
        let mut previous_class_size: usize = queue.len();
        let mut current_class_size: usize = 0;
        let ghost mut td: int = 0;
        let ghost mut lo: int = 0;
        proof {
            assert forall|t: int| #[trigger] seq_has_up(queue@, lo + previous_class_size, t)
                implies self.grid_reach(b, td as nat).contains(t) by {
                let k = choose|k: int| 0 <= k < queue@.len() && (#[trigger] queue@[k]) as int == t;
                assert(discovered@[t]);
                let j = choose|j: int| 0 <= j < b.len() && (#[trigger] b[j]) as int == t;
                assert(seq_has(b, t));
            }
            assert forall|t: int| #[trigger] self.grid_reach(b, td as nat).contains(t)
                implies seq_has_up(queue@, lo + previous_class_size, t) by {
                assert(seq_has(b, t));
                let j = choose|j: int| 0 <= j < b.len() && (#[trigger] b[j]) as int == t;
                assert(b[j] < 2500);
                assert(discovered@[t]);
            }
        }
        while head < queue.len()
            invariant
                self.wf(),
                forall|k: int| 0 <= k < b.len() ==> (#[trigger] b[k]) < 2500,
                b == boundaries@,
                discovered@.len() == 2500,
                distances@.len() == 2500,
                queue@.no_duplicates(),
                forall|k: int| 0 <= k < queue@.len() ==> (#[trigger] queue@[k]) < 2500,
                forall|t: int|
                    0 <= t < 2500 ==> ((#[trigger] discovered@[t]) <==> seq_has_up(
                        queue@,
                        queue@.len() as int,
                        t,
                    )),
                0 <= lo,
                lo <= head,
                head <= lo + previous_class_size,
                lo + previous_class_size <= queue@.len(),
                current_class_size == head - lo,
                td >= 0,
                distance as int == clip254(td),
                forall|t: int| #[trigger] seq_has_up(queue@, lo + previous_class_size, t)
                    <==> self.grid_reach(b, td as nat).contains(t),
                td == 0 ==> lo == 0,
                td > 0 ==> (forall|t: int| #[trigger] seq_has_up(queue@, lo, t) <==> self
                    .grid_reach(b, (td - 1) as nat).contains(t)),
                forall|k: int|
                    lo + previous_class_size <= k < queue@.len() ==> (self.grid_reach(
                        b,
                        (td + 1) as nat,
                    ).contains((#[trigger] queue@[k]) as int) && !self.grid_reach(
                        b,
                        td as nat,
                    ).contains(queue@[k] as int)),
                forall|k: int, w: int|
                    0 <= k < head && #[trigger] self.neighbor_rel((queue@[k]) as int, w) ==> (0 <= w
                        < 2500 && discovered@[w]),
                forall|k: int|
                    0 <= k < head ==> exists|d: int|
                        self.grid_dist_is(b, (#[trigger] queue@[k]) as int, d) && (distances@[(
                        queue@[k]) as int] as int) == clip254(d),
                forall|t: int|
                    0 <= t < 2500 && !seq_has_up(queue@, head as int, t)
                        ==> (#[trigger] distances@[t]) == 255,
                queue@.len() <= 2500,
            decreases 2500 - head,
        {
            if current_class_size == previous_class_size {
                // The previous frontier is drained: every node of the next
                // layer has been discovered, so the unprocessed remainder of
                // the queue is exactly that layer.
                proof {
                    let end = lo + previous_class_size;
                    assert(head == end);
                    assert forall|t: int| #[trigger] self.grid_reach(b, (td + 1) as nat).contains(
                        t,
                    ) implies seq_has_up(queue@, queue@.len() as int, t) by {
                        if self.grid_reach(b, td as nat).contains(t) {
                            assert(seq_has_up(queue@, end, t));
                            let k = choose|k: int|
                                0 <= k < end && (#[trigger] queue@[k]) as int == t;
                        } else {
                            let u = choose|u: int|
                                self.grid_reach(b, td as nat).contains(u) && self.neighbor_rel(
                                    u,
                                    t,
                                );
                            assert(seq_has_up(queue@, end, u));
                            let k = choose|k: int|
                                0 <= k < end && (#[trigger] queue@[k]) as int == u;
                            assert(self.neighbor_rel(queue@[k] as int, t));
                            assert(discovered@[t]);
                        }
                    }
                    assert forall|t: int| #[trigger] seq_has_up(queue@, queue@.len() as int, t)
                        implies self.grid_reach(b, (td + 1) as nat).contains(t) by {
                        let k = choose|k: int|
                            0 <= k < queue@.len() && (#[trigger] queue@[k]) as int == t;
                        if k < end {
                            assert(seq_has_up(queue@, end, t));
                            assert(self.grid_reach(b, td as nat).contains(t));
                            self.lemma_grid_reach_monotone(b, td as nat, (td + 1) as nat);
                        }
                    }
                }
                previous_class_size = queue.len() - head;
                current_class_size = 0;
                if distance < 254 {
                    distance = distance + 1;
                }
                proof {
                    lo = head as int;
                    td = td + 1;
                }
            }
            let node = queue[head];
            proof {
                assert(head < lo + previous_class_size);
                assert(seq_has_up(queue@, lo + previous_class_size, node as int)) by {
                    assert((queue@[head as int]) as int == node as int);
                }
                assert(self.grid_reach(b, td as nat).contains(node as int));
                if td > 0 {
                    if self.grid_reach(b, (td - 1) as nat).contains(node as int) {
                        assert(seq_has_up(queue@, lo, node as int));
                        let k = choose|k: int|
                            0 <= k < lo && (#[trigger] queue@[k]) as int == node as int;
                        assert(queue@[k] == queue@[head as int]);
                        assert(false);
                    }
                }
                assert(self.grid_dist_is(b, node as int, td));
            }
            let ghost pre_distances = distances@;
            distances[node as usize] = distance;
            proof {
                assert forall|k: int| 0 <= k < head + 1 implies exists|d: int|
                    self.grid_dist_is(b, (#[trigger] queue@[k]) as int, d) && (distances@[(
                    queue@[k]) as int] as int) == clip254(d) by {
                    if k == head {
                        assert(self.grid_dist_is(b, queue@[k] as int, td) && (distances@[(
                        queue@[k]) as int] as int) == clip254(td));
                    } else {
                        let d0 = choose|d0: int|
                            self.grid_dist_is(b, (queue@[k]) as int, d0) && (pre_distances[(
                            queue@[k]) as int] as int) == clip254(d0);
                        assert(queue@[k] != queue@[head as int]);
                        assert(self.grid_dist_is(b, (queue@[k]) as int, d0) && (distances@[(
                        queue@[k]) as int] as int) == clip254(d0));
                    }
                }
                assert forall|t: int|
                    0 <= t < 2500 && !seq_has_up(queue@, head + 1, t)
                        implies (#[trigger] distances@[t]) == 255 by {
                    assert(!seq_has_up(queue@, head as int, t));
                    assert(t != node as int) by {
                        if t == node as int {
                            assert((queue@[head as int]) as int == t);
                        }
                    }
                }
            }
            current_class_size = current_class_size + 1;
            head = head + 1;
            let neighbors = self.get_neighbors(node);
            let mut j: usize = 0;
            while j < neighbors.len()
                invariant
                    self.wf(),
                    forall|k: int| 0 <= k < b.len() ==> (#[trigger] b[k]) < 2500,
                    b == boundaries@,
                    discovered@.len() == 2500,
                    distances@.len() == 2500,
                    queue@.no_duplicates(),
                    forall|k: int| 0 <= k < queue@.len() ==> (#[trigger] queue@[k]) < 2500,
                    forall|t: int|
                        0 <= t < 2500 ==> ((#[trigger] discovered@[t]) <==> seq_has_up(
                            queue@,
                            queue@.len() as int,
                            t,
                        )),
                    j <= neighbors@.len(),
                    forall|t: int| #[trigger] seq_has(neighbors@, t) <==> self.neighbor_rel(
                        node as int,
                        t,
                    ),
                    forall|k: int| 0 <= k < neighbors@.len() ==> (#[trigger] neighbors@[k]) < 2500,
                    1 <= head,
                    node == queue@[head - 1],
                    self.grid_dist_is(b, node as int, td),
                    0 <= lo,
                    lo <= head,
                    head <= lo + previous_class_size,
                    lo + previous_class_size <= queue@.len(),
                    current_class_size == head - lo,
                    td >= 0,
                    distance as int == clip254(td),
                    forall|t: int| #[trigger] seq_has_up(queue@, lo + previous_class_size, t)
                        <==> self.grid_reach(b, td as nat).contains(t),
                    td == 0 ==> lo == 0,
                    td > 0 ==> (forall|t: int| #[trigger] seq_has_up(queue@, lo, t) <==> self
                        .grid_reach(b, (td - 1) as nat).contains(t)),
                    forall|k: int|
                        lo + previous_class_size <= k < queue@.len() ==> (self.grid_reach(
                            b,
                            (td + 1) as nat,
                        ).contains((#[trigger] queue@[k]) as int) && !self.grid_reach(
                            b,
                            td as nat,
                        ).contains(queue@[k] as int)),
                    forall|k: int, w: int|
                        0 <= k < head - 1 && #[trigger] self.neighbor_rel((queue@[k]) as int, w)
                            ==> (0 <= w < 2500 && discovered@[w]),
                    forall|w: int|
                        #[trigger] self.neighbor_rel(node as int, w) && seq_has_up(
                            neighbors@,
                            j as int,
                            w,
                        ) ==> (0 <= w < 2500 && discovered@[w]),
                    forall|k: int|
                        0 <= k < head ==> exists|d: int|
                            self.grid_dist_is(b, (#[trigger] queue@[k]) as int, d) && (distances@[(
                            queue@[k]) as int] as int) == clip254(d),
                    forall|t: int|
                        0 <= t < 2500 && !seq_has_up(queue@, head as int, t)
                            ==> (#[trigger] distances@[t]) == 255,
                    queue@.len() <= 2500,
                decreases neighbors@.len() - j,
            {
                let w = neighbors[j];
                let ghost prev_q = queue@;
                if !discovered[w as usize] {
                    proof {
                        assert(seq_has(neighbors@, w as int)) by {
                            assert((neighbors@[j as int]) as int == w as int);
                        }
                        assert(self.neighbor_rel(node as int, w as int));
                        assert(self.grid_reach(b, (td + 1) as nat).contains(w as int)) by {
                            let prev = self.grid_reach(b, td as nat);
                            assert(prev.contains(node as int) && self.neighbor_rel(
                                node as int,
                                w as int,
                            ));
                        }
                        assert(!self.grid_reach(b, td as nat).contains(w as int)) by {
                            if self.grid_reach(b, td as nat).contains(w as int) {
                                assert(seq_has_up(queue@, lo + previous_class_size, w as int));
                                let k = choose|k: int|
                                    0 <= k < queue@.len() && (#[trigger] queue@[k]) as int
                                        == w as int;
                                assert(discovered@[w as int]);
                            }
                        }
                    }
                    discovered[w as usize] = true;
                    queue.push(w);
                    proof {
                        lemma_distinct_tiles_in_range(queue@, 2500);
                        assert forall|t2: int|
                            0 <= t2 < 2500 implies ((#[trigger] discovered@[t2]) <==> seq_has_up(
                            queue@,
                            queue@.len() as int,
                            t2,
                        )) by {
                            if discovered@[t2] {
                                if t2 == w as int {
                                    assert(queue@[queue@.len() - 1] as int == t2);
                                } else {
                                    let k = choose|k: int|
                                        0 <= k < prev_q.len() && (#[trigger] prev_q[k]) as int
                                            == t2;
                                    assert(queue@[k] as int == t2);
                                }
                            } else {
                                if seq_has_up(queue@, queue@.len() as int, t2) {
                                    let k = choose|k: int|
                                        0 <= k < queue@.len() && (#[trigger] queue@[k]) as int
                                            == t2;
                                    if k < prev_q.len() {
                                        assert(seq_has_up(prev_q, prev_q.len() as int, t2));
                                    }
                                    assert(false);
                                }
                            }
                        }
                        assert forall|t: int| #[trigger] seq_has_up(
                            queue@,
                            lo + previous_class_size,
                            t,
                        ) implies self.grid_reach(b, td as nat).contains(t) by {
                            assert(seq_has_up(prev_q, lo + previous_class_size, t));
                        }
                        assert forall|t: int|
                            #[trigger] self.grid_reach(b, td as nat).contains(t) implies seq_has_up(
                            queue@,
                            lo + previous_class_size,
                            t,
                        ) by {
                            assert(seq_has_up(prev_q, lo + previous_class_size, t));
                            let k = choose|k: int|
                                0 <= k < lo + previous_class_size && (#[trigger] prev_q[k]) as int
                                    == t;
                            assert((queue@[k]) as int == t);
                        }
                        if td > 0 {
                            assert forall|t: int| #[trigger] seq_has_up(queue@, lo, t) <==> self
                                .grid_reach(b, (td - 1) as nat).contains(t) by {
                                if seq_has_up(queue@, lo, t) {
                                    assert(seq_has_up(prev_q, lo, t));
                                }
                                if self.grid_reach(b, (td - 1) as nat).contains(t) {
                                    assert(seq_has_up(prev_q, lo, t));
                                    let k = choose|k: int|
                                        0 <= k < lo && (#[trigger] prev_q[k]) as int == t;
                                    assert((queue@[k]) as int == t);
                                }
                            }
                        }
                        assert forall|t: int|
                            0 <= t < 2500 && !seq_has_up(queue@, head as int, t)
                                implies (#[trigger] distances@[t]) == 255 by {
                            assert(!seq_has_up(prev_q, head as int, t)) by {
                                if seq_has_up(prev_q, head as int, t) {
                                    let k = choose|k: int|
                                        0 <= k < head && (#[trigger] prev_q[k]) as int == t;
                                    assert((queue@[k]) as int == t);
                                }
                            }
                        }
                    }
                }
                proof {
                    assert forall|w2: int|
                        #[trigger] self.neighbor_rel(node as int, w2) && seq_has_up(
                            neighbors@,
                            j + 1,
                            w2,
                        ) implies (0 <= w2 < 2500 && discovered@[w2]) by {
                        if !seq_has_up(neighbors@, j as int, w2) {
                            let k = choose|k: int|
                                0 <= k < j + 1 && (#[trigger] neighbors@[k]) as int == w2;
                            assert(k == j);
                            assert(w2 == w as int);
                        }
                    }
                }
                j = j + 1;
            }
            proof {
                assert forall|k: int, w: int|
                    0 <= k < head && #[trigger] self.neighbor_rel((queue@[k]) as int, w) implies (0
                        <= w < 2500 && discovered@[w]) by {
                    if k == head - 1 {
                        assert(seq_has(neighbors@, w));
                        let jj = choose|jj: int|
                            0 <= jj < neighbors@.len() && (#[trigger] neighbors@[jj]) as int == w;
                        assert(seq_has_up(neighbors@, neighbors@.len() as int, w));
                    }
                }
            }
        }
        proof {
            let dset = Set::new(|t: int| 0 <= t < 2500 && discovered@[t]);
            assert forall|t: int| #[trigger] seq_has(b, t) implies dset.contains(t) by {
                let j = choose|j: int| 0 <= j < b.len() && (#[trigger] b[j]) as int == t;
                assert(b[j] < 2500);
                assert(self.grid_reach(b, 0nat).contains(t));
                self.lemma_grid_reach_monotone(b, 0nat, td as nat);
                assert(seq_has_up(queue@, lo + previous_class_size, t));
                let k = choose|k: int| 0 <= k < queue@.len() && (#[trigger] queue@[k]) as int == t;
                assert(discovered@[t]);
            }
            assert forall|u: int, w: int|
                dset.contains(u) && #[trigger] self.neighbor_rel(u, w) implies dset.contains(
                w,
            ) by {
                assert(discovered@[u]);
                assert(seq_has_up(queue@, queue@.len() as int, u));
                let k = choose|k: int| 0 <= k < queue@.len() && (#[trigger] queue@[k]) as int == u;
                assert(self.neighbor_rel(queue@[k] as int, w));
            }
            // Everything reachable is discovered, everything discovered is
            // in the queue and has its exact (clipped) distance recorded.
            assert forall|t: int, d: int|
                0 <= t < 2500 && 0 <= d < 254 implies ((distances@[t] as int) == d
                <==> #[trigger] self.grid_dist_is(b, t, d)) by {
                if self.grid_dist_is(b, t, d) {
                    self.lemma_grid_reach_closed(b, dset, d as nat);
                    assert(dset.contains(t));
                    assert(seq_has_up(queue@, queue@.len() as int, t));
                    let k = choose|k: int|
                        0 <= k < queue@.len() && (#[trigger] queue@[k]) as int == t;
                    let d0 = choose|d0: int|
                        self.grid_dist_is(b, (queue@[k]) as int, d0) && (distances@[(
                        queue@[k]) as int] as int) == clip254(d0);
                    self.lemma_grid_dist_unique(b, t, d, d0);
                }
                if (distances@[t] as int) == d {
                    assert(seq_has_up(queue@, head as int, t)) by {
                        if !seq_has_up(queue@, head as int, t) {
                            assert(distances@[t] == 255);
                        }
                    }
                    let k = choose|k: int|
                        0 <= k < head && (#[trigger] queue@[k]) as int == t;
                    let d0 = choose|d0: int|
                        self.grid_dist_is(b, (queue@[k]) as int, d0) && (distances@[(
                        queue@[k]) as int] as int) == clip254(d0);
                    assert(clip254(d0) == d);
                    assert(d0 == d);
                }
            }
            assert forall|t: int|
                0 <= t < 2500 implies ((#[trigger] distances@[t]) == 255 <==> !self.grid_reachable(
                b,
                t,
            )) by {
                if distances@[t] == 255 {
                    if self.grid_reachable(b, t) {
                        let k0 = choose|k0: nat| self.grid_reach(b, k0).contains(t);
                        self.lemma_grid_reach_closed(b, dset, k0);
                        assert(dset.contains(t));
                        assert(seq_has_up(queue@, queue@.len() as int, t));
                        let k = choose|k: int|
                            0 <= k < queue@.len() && (#[trigger] queue@[k]) as int == t;
                        let d0 = choose|d0: int|
                            self.grid_dist_is(b, (queue@[k]) as int, d0) && (distances@[(
                            queue@[k]) as int] as int) == clip254(d0);
                        assert(clip254(d0) <= 254);
                        assert(false);
                    }
                } else {
                    assert(seq_has_up(queue@, head as int, t)) by {
                        if !seq_has_up(queue@, head as int, t) {
                            assert(distances@[t] == 255);
                        }
                    }
                    let k = choose|k: int|
                        0 <= k < head && (#[trigger] queue@[k]) as int == t;
                    let d0 = choose|d0: int|
                        self.grid_dist_is(b, (queue@[k]) as int, d0) && (distances@[(
                        queue@[k]) as int] as int) == clip254(d0);
                    assert(self.grid_reach(b, d0 as nat).contains(t));
                    assert(self.grid_reachable(b, t));
                }
            }
            assert forall|t: int|
                0 <= t < 2500 implies ((#[trigger] distances@[t]) == 254 <==> (self.grid_reachable(
                b,
                t,
            ) && !self.grid_reach(b, 253nat).contains(t))) by {
                if distances@[t] == 254 {
                    assert(seq_has_up(queue@, head as int, t)) by {
                        if !seq_has_up(queue@, head as int, t) {
                            assert(distances@[t] == 255);
                        }
                    }
                    let k = choose|k: int|
                        0 <= k < head && (#[trigger] queue@[k]) as int == t;
                    let d0 = choose|d0: int|
                        self.grid_dist_is(b, (queue@[k]) as int, d0) && (distances@[(
                        queue@[k]) as int] as int) == clip254(d0);
                    assert(d0 >= 254);
                    assert(self.grid_reach(b, d0 as nat).contains(t));
                    assert(self.grid_reachable(b, t));
                    if self.grid_reach(b, 253nat).contains(t) {
                        self.lemma_grid_reach_monotone(b, 253nat, (d0 - 1) as nat);
                        assert(false);
                    }
                } else {
                    if self.grid_reachable(b, t) && !self.grid_reach(b, 253nat).contains(t) {
                        let k0 = choose|k0: nat| self.grid_reach(b, k0).contains(t);
                        self.lemma_grid_reach_closed(b, dset, k0);
                        assert(dset.contains(t));
                        assert(seq_has_up(queue@, queue@.len() as int, t));
                        let k = choose|k: int|
                            0 <= k < queue@.len() && (#[trigger] queue@[k]) as int == t;
                        let d0 = choose|d0: int|
                            self.grid_dist_is(b, (queue@[k]) as int, d0) && (distances@[(
                            queue@[k]) as int] as int) == clip254(d0);
                        if d0 <= 253 {
                            self.lemma_grid_reach_monotone(b, d0 as nat, 253nat);
                            assert(false);
                        }
                        assert(clip254(d0) == 254);
                        assert(false);
                    }
                }
            }
        }
        distances
    }
}

/// Distinct tiles below `n` are at most `n` in number.
proof fn lemma_distinct_tiles_in_range(s: Seq<u16>, n: int)
    requires
        s.no_duplicates(),
        0 <= n,
        forall|i: int| 0 <= i < s.len() ==> ((#[trigger] s[i]) as int) < n,
    ensures
        s.len() <= n,
{
    let t = s.map_values(|x: u16| x as int);
    assert(t.no_duplicates()) by {
        assert forall|i: int, j: int|
            0 <= i < t.len() && 0 <= j < t.len() && i != j implies t[i] != t[j] by {
            assert(s[i] != s[j]);
        }
    }
    t.unique_seq_to_set();
    assert(t.to_set().subset_of(vstd::set_lib::set_int_range(0, n))) by {
        assert forall|e: int| t.to_set().contains(e) implies vstd::set_lib::set_int_range(
            0,
            n,
        ).contains(e) by {
            let i = choose|i: int| 0 <= i < t.len() && t[i] == e;
            assert((s[i] as int) < n);
        }
    }
    vstd::set_lib::lemma_int_range(0, n);
    vstd::set_lib::lemma_len_subset(t.to_set(), vstd::set_lib::set_int_range(0, n));
}

/// A flow network derived from a grid graph, with the maps between
/// canonical tiles and the dense node ids of the network.
pub struct GridNetwork {
    /// The flow network over the canonical nodes, solved in place.
    pub net: FlowNetwork,
    /// The canonical tile of each node id.
    pub tile_of_id: Vec<u16>,
    /// The node id of each canonical tile; other tiles map out of range.
    pub id_of_tile: Vec<usize>,
    /// The value of the maximum flow from source to sink.
    pub max_flow: i64,
}

impl GridNetwork {
    /// The maps are mutually inverse bijections between the canonical tiles
    /// of `g` and the node ids, the network's unit-capacity edges mirror the
    /// grid's neighbor relation, and the endpoints are the representatives.
    pub open spec fn wf(self, g: ScreepsGraph) -> bool {
        &&& self.net.wf()
        &&& self.net.edges_paired()
        &&& self.tile_of_id@.len() == self.net.id_space()
        &&& self.id_of_tile@.len() == 2500
        &&& forall|id: int|
            0 <= id < self.net.id_space() ==> ((#[trigger] self.tile_of_id@[id]) < 2500 && g.canon(
                self.tile_of_id@[id] as int,
            ) == Some(self.tile_of_id@[id] as int) && self.id_of_tile@[self.tile_of_id@[id] as int]
                == id && self.net.node_at(id))
        &&& forall|t: int|
            0 <= t < 2500 ==> (g.canon(t) == Some(t) <==> ((#[trigger] self.id_of_tile@[t]) as int)
                < self.net.id_space())
        &&& forall|t: int|
            0 <= t < 2500 && g.canon(t) == Some(t) ==> ((#[trigger] self.tile_of_id@[self.id_of_tile@[t] as int]) as int) == t
        &&& forall|i: int, j: int|
            #[trigger] self.net.edge_at(i, j) <==> (0 <= i < self.net.id_space() && 0 <= j
                < self.net.id_space() && i != j && g.neighbor_rel(
                self.tile_of_id@[i] as int,
                self.tile_of_id@[j] as int,
            ))
        &&& forall|i: int, j: int| #[trigger] self.net.edge_at(i, j) ==> self.net.cap_at(i, j) == 1
        &&& g.sources_of().len() >= 1
        &&& g.sinks_of().len() >= 1
        &&& self.tile_of_id@[self.net.source_id()] == g.sources_of()[0]
        &&& self.tile_of_id@[self.net.sink_id()] == g.sinks_of()[0]
    }

    /// The network holds a terminal state of the push-relabel solver: skew
    /// symmetry, capacity respect, conservation, a valid labeling with the
    /// source lifted to the node count, and the recorded maximum flow value.
    pub open spec fn solved(self, g: ScreepsGraph) -> bool {
        &&& self.wf(g)
        &&& self.net.skew_symmetric()
        &&& self.net.flow_bounded()
        &&& self.net.excess_binding()
        &&& self.net.excess_nonneg()
        &&& self.net.conserved()
        &&& self.net.valid_labeling()
        &&& self.net.height_at(self.net.source_id()) == self.net.node_count()
        &&& self.net.height_at(self.net.sink_id()) == 0
        &&& self.max_flow == self.net.flow_out_of(self.net.source_id())
        &&& self.max_flow == self.net.excess_at(self.net.sink_id())
        &&& 0 <= self.max_flow <= self.net.cap_out_of(self.net.source_id())
    }
}

/// The connected side of the grid's minimum cut, as tiles: `r` is the image
/// of a residual-reachable mask of the solved network `gn`.
pub open spec fn connected_tiles(g: ScreepsGraph, gn: GridNetwork, mask: Seq<bool>, r: Seq<u16>) -> bool {
    &&& gn.solved(g)
    &&& mask.len() == gn.net.id_space()
    &&& in_mask(mask, gn.net.source_id())
    &&& residual_closed(gn.net, mask)
    &&& reach_sound(gn.net, mask, (gn.net.node_count() - 1) as nat)
    &&& forall|t: int| #[trigger] seq_has(r, t) <==> (exists|id: int|
        0 <= id < mask.len() && mask[id] && ((#[trigger] gn.tile_of_id@[id]) as int) == t)
}

/// The cut boundary of the grid, as tiles: `r` is the image of the boundary
/// of a residual-reachable mask of the solved network `gn`.
pub open spec fn boundary_tiles(g: ScreepsGraph, gn: GridNetwork, mask: Seq<bool>, r: Seq<u16>) -> bool {
    &&& gn.solved(g)
    &&& mask.len() == gn.net.id_space()
    &&& in_mask(mask, gn.net.source_id())
    &&& residual_closed(gn.net, mask)
    &&& reach_sound(gn.net, mask, (gn.net.node_count() - 1) as nat)
    &&& forall|t: int| #[trigger] seq_has(r, t) <==> (exists|id: int|
        boundary_node(gn.net, mask, id) && ((#[trigger] gn.tile_of_id@[id]) as int) == t)
}

/// Whether a prefix of the tile list holds the tile `t`.
pub open spec fn seq_has_up(s: Seq<u16>, end: int, t: int) -> bool {
    exists|k: int| 0 <= k < end && (#[trigger] s[k]) as int == t
}

/// Distances are reported clipped at 254, a deliberate ceiling that keeps
/// the one-byte width from wrapping; 255 is the unreached sentinel.
pub open spec fn clip254(d: int) -> int {
    if d < 254 {
        d
    } else {
        254
    }
}

/// A vector of `n` entries of 255.
fn fill_255(n: usize) -> (r: Vec<u8>)
    ensures
        r@.len() == n,
        forall|i: int| 0 <= i < n ==> #[trigger] r@[i] == 255,
{
    let mut r: Vec<u8> = Vec::new();
    let mut i: usize = 0;
    while i < n
        invariant
            i <= n,
            r@.len() == i,
            forall|j: int| 0 <= j < i ==> #[trigger] r@[j] == 255,
        decreases n - i,
    {
        r.push(255);
        i = i + 1;
    }
    r
}

/// Whether the tile list holds the tile `t`, by a scan.
pub(crate) fn vec_has(v: &Vec<u16>, t: u16) -> (r: bool)
    ensures
        r == seq_has(v@, t as int),
{
    let mut i: usize = 0;
    while i < v.len()
        invariant
            i <= v@.len(),
            forall|k: int| 0 <= k < i ==> (#[trigger] v@[k]) != t,
        decreases v@.len() - i,
    {
        if v[i] == t {
            proof {
                assert((v@[i as int]) as int == t as int);
            }
            return true;
        }
        i = i + 1;
    }
    proof {
        if seq_has(v@, t as int) {
            let k = choose|k: int| 0 <= k < v@.len() && (#[trigger] v@[k]) as int == t as int;
            assert(v@[k] != t);
            assert(false);
        }
    }
    false
}

} // verus!
