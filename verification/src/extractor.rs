//! Topology extraction from a thinned occupancy grid.
//!
//! Interior skeleton pixels are scored by the number of foreground arcs
//! around them; endpoints and intersections become graph nodes and seed a
//! multi-source breadth-first search.  Frontiers from different seeds meet
//! along the one-pixel-wide paths; each collision walks both frontiers back
//! to their seeds and emits an edge carrying the full pixel polyline.
//! Skeleton pixels on closed loops, which no feature pixel reaches, are
//! covered afterwards by seeding a waypoint on each loop, so that no
//! foreground pixel stays unvisited.  Nodes that end up with no incident
//! edge are classified as islands.

use vstd::prelude::*;

use std::collections::VecDeque;

use crate::bool_grid::BoolGrid;
use crate::graph::Graph;
use crate::grid_map::{GridMap, GridMapCellState};
use crate::seq_util;
use crate::thinning::{ring_dx, ring_dy, ZhangSuenThinningAlgorithm};
use crate::topology::{TopologyEdge, TopologyNode, TopologyNodeType};
use crate::vector2i::Vector2I;

verus! {

/// Exploration progress of one skeleton cell.
#[derive(Clone, Copy, Debug, PartialEq, Eq, Structural)]
pub enum CellState {
    Unvisited,
    Visited,
    Merged,
}

/// Per-cell record of the breadth-first search.
#[derive(Clone, Copy)]
pub struct ExplorationData {
    pub cell_state: CellState,
    pub root_node: Option<u32>,
    pub prev_pos: (usize, usize),
    pub depth: Ghost<nat>,
}

/// One queued frontier entry: a cell, the cell it was reached from, and the
/// seed node that owns the frontier.
#[derive(Clone, Copy, Debug)]
pub struct BfsData {
    pub root_node: u32,
    pub pos: (usize, usize),
    pub prev_pos: (usize, usize),
}

/// A row-major grid of exploration records.
pub struct ExplorationGrid {
    cells: Vec<ExplorationData>,
    width: usize,
    height: usize,
}

/// The record of cell `(x, y)` in a raw record sequence of width `w`.
pub open spec fn expl_cell_at(g: Seq<ExplorationData>, w: int, x: int, y: int) -> ExplorationData {
    g[y * w + x]
}

/// The record of cell `(x, y)`.
pub open spec fn expl_cell(e: &ExplorationGrid, x: int, y: int) -> ExplorationData {
    expl_cell_at(e.grid(), e.spec_width() as int, x, y)
}

/// Number of cells still unvisited.
pub open spec fn count_unvisited(e: &ExplorationGrid) -> nat {
    seq_util::count_if(e.grid(), |c: ExplorationData| c.cell_state == CellState::Unvisited)
}

impl ExplorationGrid {
    pub closed spec fn grid(&self) -> Seq<ExplorationData> {
        self.cells@
    }

    pub closed spec fn spec_width(&self) -> usize {
        self.width
    }

    pub closed spec fn spec_height(&self) -> usize {
        self.height
    }

    pub open spec fn wf(&self) -> bool {
        self.grid().len() == self.spec_height() * self.spec_width()
    }

    /// Grid of the given dimensions with every cell unvisited.
    pub fn unvisited(width: usize, height: usize) -> (r: Self)
        requires
            height * width <= usize::MAX,
        ensures
            r.wf(),
            r.spec_width() == width,
            r.spec_height() == height,
            forall|k: int|
                0 <= k < r.grid().len() ==> (#[trigger] r.grid()[k]).cell_state
                    == CellState::Unvisited,
    {
        let total: usize = height * width;
        let mut cells: Vec<ExplorationData> = Vec::new();
        let mut i: usize = 0;
        while i < total
            invariant
                i <= total,
                cells@.len() == i,
                forall|j: int|
                    0 <= j < i ==> (#[trigger] cells@[j]).cell_state == CellState::Unvisited,
            decreases total - i,
        {
            cells.push(
                ExplorationData {
                    cell_state: CellState::Unvisited,
                    root_node: None,
                    prev_pos: (0, 0),
                    depth: Ghost(0),
                },
            );
            i += 1;
        }
        ExplorationGrid { cells, width, height }
    }

    pub fn width(&self) -> (r: usize)
        ensures
            r == self.spec_width(),
    {
        self.width
    }

    pub fn height(&self) -> (r: usize)
        ensures
            r == self.spec_height(),
    {
        self.height
    }

    /// Read the record of cell `(x, y)`.
    pub fn get(&self, x: usize, y: usize) -> (r: ExplorationData)
        requires
            self.wf(),
            x < self.spec_width(),
            y < self.spec_height(),
        ensures
            r == expl_cell(self, x as int, y as int),
    {
        proof {
            GridMap::lemma_row_major(
                y as int,
                x as int,
                self.spec_height() as int,
                self.spec_width() as int,
            );
        }
        let _n: usize = self.cells.len();
        self.cells[y * self.width + x]
    }

    /// Replace the record of cell `(x, y)`.
    pub fn set(&mut self, x: usize, y: usize, value: ExplorationData)
        requires
            old(self).wf(),
            x < old(self).spec_width(),
            y < old(self).spec_height(),
        ensures
            final(self).wf(),
            final(self).spec_width() == old(self).spec_width(),
            final(self).spec_height() == old(self).spec_height(),
            final(self).grid() == old(self).grid().update(
                y * old(self).spec_width() + x,
                value,
            ),
    {
        proof {
            GridMap::lemma_row_major(
                y as int,
                x as int,
                self.spec_height() as int,
                self.spec_width() as int,
            );
        }
        let _n: usize = self.cells.len();
        let k: usize = y * self.width + x;
        self.cells.set(k, value);
    }
}

/// Number of foreground arcs around the interior pixel `(x, y)`: its
/// foreground neighbors, less the adjacent foreground pairs on the ring.
pub open spec fn spec_pixel_score(s: Seq<bool>, w: int, x: int, y: int) -> int {
    let a0: int = if ring_fg(s, w, x, y, 0) { 1 } else { 0 };
    let a1: int = if ring_fg(s, w, x, y, 1) { 1 } else { 0 };
    let a2: int = if ring_fg(s, w, x, y, 2) { 1 } else { 0 };
    let a3: int = if ring_fg(s, w, x, y, 3) { 1 } else { 0 };
    let a4: int = if ring_fg(s, w, x, y, 4) { 1 } else { 0 };
    let a5: int = if ring_fg(s, w, x, y, 5) { 1 } else { 0 };
    let a6: int = if ring_fg(s, w, x, y, 6) { 1 } else { 0 };
    let a7: int = if ring_fg(s, w, x, y, 7) { 1 } else { 0 };
    let c0: int = if ring_fg(s, w, x, y, 0) && ring_fg(s, w, x, y, 1) { 1 } else { 0 };
    let c1: int = if ring_fg(s, w, x, y, 1) && ring_fg(s, w, x, y, 2) { 1 } else { 0 };
    let c2: int = if ring_fg(s, w, x, y, 2) && ring_fg(s, w, x, y, 3) { 1 } else { 0 };
    let c3: int = if ring_fg(s, w, x, y, 3) && ring_fg(s, w, x, y, 4) { 1 } else { 0 };
    let c4: int = if ring_fg(s, w, x, y, 4) && ring_fg(s, w, x, y, 5) { 1 } else { 0 };
    let c5: int = if ring_fg(s, w, x, y, 5) && ring_fg(s, w, x, y, 6) { 1 } else { 0 };
    let c6: int = if ring_fg(s, w, x, y, 6) && ring_fg(s, w, x, y, 7) { 1 } else { 0 };
    let c7: int = if ring_fg(s, w, x, y, 7) && ring_fg(s, w, x, y, 0) { 1 } else { 0 };
    (a0 + a1 + a2 + a3 + a4 + a5 + a6 + a7) - (c0 + c1 + c2 + c3 + c4 + c5 + c6 + c7)
}

/// The ring neighbor `k` of `(x, y)`, as a foreground flag.
pub open spec fn ring_fg(s: Seq<bool>, w: int, x: int, y: int, k: int) -> bool {
    BoolGrid::at(s, w, y + ring_dy(k), x + ring_dx(k))
}

/// The node sits on a foreground pixel of the skeleton.
pub open spec fn node_on_skeleton(info: TopologyNode, s: Seq<bool>, w: int, h: int) -> bool {
    &&& 0 <= info.position.x < w
    &&& 0 <= info.position.y < h
    &&& BoolGrid::at(s, w, info.position.y as int, info.position.x as int)
}

/// The vacant cells of a grid map, as the thinner's foreground.
pub open spec fn spec_vacancy(g: &GridMap) -> Seq<bool> {
    Seq::new(g.occupancy().len(), |k: int| !g.occupancy()[k])
}

/// The skeleton the extractor traces: the grid's vacancy, thinned.
pub open spec fn spec_skeleton(g: &GridMap) -> Seq<bool> {
    crate::thinning::spec_thin(spec_vacancy(g), g.spec_rows() as int, g.spec_columns() as int)
}

/// The pixel is an endpoint or an intersection, so it seeds the search.
pub open spec fn is_feature_score(score: int) -> bool {
    score <= 1 || score >= 3
}

/// A claimed cell is a foreground pixel whose record is sound: its root
/// node exists, its predecessor lies in bounds, and following predecessors
/// strictly descends toward a seed (a cell that is its own predecessor).
pub open spec fn claimed_ok(
    g: Seq<ExplorationData>,
    w: int,
    h: int,
    s: Seq<bool>,
    dom: Set<u32>,
    x: int,
    y: int,
) -> bool {
    let c = expl_cell_at(g, w, x, y);
    &&& BoolGrid::at(s, w, y, x)
    &&& c.root_node is Some
    &&& dom.contains(c.root_node->0)
    &&& c.prev_pos.0 < w
    &&& c.prev_pos.1 < h
    &&& (c.prev_pos.0 == x && c.prev_pos.1 == y || {
        let p = expl_cell_at(g, w, c.prev_pos.0 as int, c.prev_pos.1 as int);
        p.cell_state != CellState::Unvisited && p.depth@ < c.depth@ && p.root_node == c.root_node
    })
}

/// Soundness of a raw record sequence with respect to a skeleton and the
/// set of existing node IDs.
pub open spec fn expl_inv_raw(
    g: Seq<ExplorationData>,
    w: int,
    h: int,
    s: Seq<bool>,
    dom: Set<u32>,
) -> bool {
    &&& g.len() == h * w
    &&& s.len() == h * w
    &&& forall|x: int, y: int|
        0 <= x < w && 0 <= y < h && (#[trigger] expl_cell_at(g, w, x, y)).cell_state
            != CellState::Unvisited ==> claimed_ok(g, w, h, s, dom, x, y)
}

/// Soundness of the whole exploration map.
pub open spec fn expl_inv(e: &ExplorationGrid, s: Seq<bool>, dom: Set<u32>) -> bool {
    &&& e.wf()
    &&& expl_inv_raw(e.grid(), e.spec_width() as int, e.spec_height() as int, s, dom)
}

/// The chain of cells leading to `pos`: its seed first, then each cell
/// reached from the one before it, following the recorded predecessors
/// backwards from `pos` (recursion bounded by the given fuel).
pub open spec fn chain_seq(
    g: Seq<ExplorationData>,
    w: int,
    pos: (int, int),
    fuel: nat,
) -> Seq<(int, int)>
    decreases fuel,
{
    let c = expl_cell_at(g, w, pos.0, pos.1);
    if fuel == 0 || (c.prev_pos.0 as int, c.prev_pos.1 as int) == pos {
        seq![pos]
    } else {
        chain_seq(g, w, (c.prev_pos.0 as int, c.prev_pos.1 as int), (fuel - 1) as nat)
            + seq![pos]
    }
}

/// The chain of `pos`, with its own recorded depth as fuel: under the
/// exploration invariant the depth bounds the walk back to the seed.
pub open spec fn chain_of(g: Seq<ExplorationData>, w: int, pos: (int, int)) -> Seq<(int, int)> {
    chain_seq(g, w, pos, expl_cell_at(g, w, pos.0, pos.1).depth@)
}

/// Pixel pairs as integer vectors.
pub open spec fn to_vector2(s: Seq<(int, int)>) -> Seq<Vector2I> {
    s.map_values(|p: (int, int)| Vector2I { x: p.0 as i64, y: p.1 as i64 })
}

/// Position pairs of a pixel queue.
pub open spec fn pos_pairs(s: Seq<(usize, usize)>) -> Seq<(int, int)> {
    s.map_values(|p: (usize, usize)| (p.0 as int, p.1 as int))
}

/// Any fuel at least the cell's depth yields the same chain.
proof fn lemma_chain_fuel(
    g: Seq<ExplorationData>,
    w: int,
    h: int,
    skel: Seq<bool>,
    dom: Set<u32>,
    pos: (int, int),
    fuel: nat,
)
    requires
        expl_inv_raw(g, w, h, skel, dom),
        0 <= pos.0 < w,
        0 <= pos.1 < h,
        expl_cell_at(g, w, pos.0, pos.1).cell_state != CellState::Unvisited,
        fuel >= expl_cell_at(g, w, pos.0, pos.1).depth@,
    ensures
        chain_seq(g, w, pos, fuel) == chain_of(g, w, pos),
    decreases fuel,
{
    let c = expl_cell_at(g, w, pos.0, pos.1);
    assert(claimed_ok(g, w, h, skel, dom, pos.0, pos.1));
    if !((c.prev_pos.0 as int, c.prev_pos.1 as int) == pos) {
        let prev = (c.prev_pos.0 as int, c.prev_pos.1 as int);
        let p = expl_cell_at(g, w, prev.0, prev.1);
        assert(p.cell_state != CellState::Unvisited && p.depth@ < c.depth@);
        lemma_chain_fuel(g, w, h, skel, dom, prev, (fuel - 1) as nat);
        lemma_chain_fuel(g, w, h, skel, dom, prev, (c.depth@ - 1) as nat);
    }
}

/// Every claimed seed cell (its own predecessor) carries the position of
/// its root node: the node stands exactly on the seed pixel.
pub open spec fn seeds_have_nodes(
    g: Seq<ExplorationData>,
    w: int,
    h: int,
    nodes: Map<u32, crate::graph::Node<TopologyNode>>,
) -> bool {
    forall|x: int, y: int|
        0 <= x < w && 0 <= y < h && (#[trigger] expl_cell_at(g, w, x, y)).cell_state
            != CellState::Unvisited && expl_cell_at(g, w, x, y).prev_pos.0 == x && expl_cell_at(
            g,
            w,
            x,
            y,
        ).prev_pos.1 == y ==> {
            let c = expl_cell_at(g, w, x, y);
            &&& c.root_node is Some
            &&& nodes.contains_key(c.root_node->0)
            &&& nodes[c.root_node->0].spec_info().position == (Vector2I {
                x: x as i64,
                y: y as i64,
            })
        }
}

/// Every queued seed entry (its own predecessor) names a root node that
/// stands exactly on the seeded pixel.
pub open spec fn seed_entries_have_nodes(
    q: Seq<BfsData>,
    nodes: Map<u32, crate::graph::Node<TopologyNode>>,
) -> bool {
    forall|i: int|
        0 <= i < q.len() && (#[trigger] q[i]).prev_pos == q[i].pos ==> nodes.contains_key(
            q[i].root_node,
        ) && nodes[q[i].root_node].spec_info().position == (Vector2I {
            x: q[i].pos.0 as i64,
            y: q[i].pos.1 as i64,
        })
}

/// Every merged cell's pixel appears on some stored edge's polyline.
pub open spec fn merged_on_polylines(
    g: Seq<ExplorationData>,
    w: int,
    h: int,
    tm: &Graph<TopologyNode, TopologyEdge>,
) -> bool {
    forall|x: int, y: int|
        0 <= x < w && 0 <= y < h && (#[trigger] expl_cell_at(g, w, x, y)).cell_state
            == CellState::Merged ==> exists|eid: u32|
            #[trigger] tm.spec_edges().contains_key(eid) && tm.spec_edges()[eid].spec_info()
                .spec_waypoints().contains(Vector2I { x: x as i64, y: y as i64 })
}

/// Along a chain every cell carries the walk's root, and the chain starts
/// at a claimed seed cell.
proof fn lemma_chain_props(
    g: Seq<ExplorationData>,
    w: int,
    h: int,
    skel: Seq<bool>,
    dom: Set<u32>,
    pos: (int, int),
)
    requires
        expl_inv_raw(g, w, h, skel, dom),
        0 <= pos.0 < w,
        0 <= pos.1 < h,
        expl_cell_at(g, w, pos.0, pos.1).cell_state != CellState::Unvisited,
    ensures
        chain_of(g, w, pos).len() >= 1,
        chain_of(g, w, pos).last() == pos,
        ({
            let seed = chain_of(g, w, pos)[0];
            &&& 0 <= seed.0 < w
            &&& 0 <= seed.1 < h
            &&& expl_cell_at(g, w, seed.0, seed.1).cell_state != CellState::Unvisited
            &&& expl_cell_at(g, w, seed.0, seed.1).prev_pos.0 == seed.0
            &&& expl_cell_at(g, w, seed.0, seed.1).prev_pos.1 == seed.1
            &&& expl_cell_at(g, w, seed.0, seed.1).root_node == expl_cell_at(
                g,
                w,
                pos.0,
                pos.1,
            ).root_node
        }),
    decreases expl_cell_at(g, w, pos.0, pos.1).depth@,
{
    let c = expl_cell_at(g, w, pos.0, pos.1);
    assert(claimed_ok(g, w, h, skel, dom, pos.0, pos.1));
    if !(c.prev_pos.0 as int == pos.0 && c.prev_pos.1 as int == pos.1) {
        let prev = (c.prev_pos.0 as int, c.prev_pos.1 as int);
        assert(expl_cell_at(g, w, pos.0, pos.1).depth@ >= 1);
        lemma_chain_fuel(g, w, h, skel, dom, prev, (c.depth@ - 1) as nat);
        assert(chain_of(g, w, pos) == chain_of(g, w, prev) + seq![pos]);
        lemma_chain_props(g, w, h, skel, dom, prev);
        assert(chain_of(g, w, pos)[0] == chain_of(g, w, prev)[0]);
    } else {
        assert(chain_of(g, w, pos) =~= seq![pos]);
    }
}

/// A record only ever advances: it stays put, or a visited cell becomes
/// merged with the rest of its record kept.
pub open spec fn record_advanced(a: ExplorationData, b: ExplorationData) -> bool {
    b == a || (a.cell_state == CellState::Visited && b == ExplorationData {
        cell_state: CellState::Merged,
        ..a
    })
}

/// Advancing records cell by cell keeps the number of unvisited cells.
proof fn lemma_advanced_keeps_unvisited(g1: Seq<ExplorationData>, g2: Seq<ExplorationData>)
    requires
        g1.len() == g2.len(),
        forall|k: int| 0 <= k < g1.len() ==> record_advanced(#[trigger] g1[k], g2[k]),
    ensures
        seq_util::count_if(g2, |c: ExplorationData| c.cell_state == CellState::Unvisited)
            == seq_util::count_if(g1, |c: ExplorationData| c.cell_state == CellState::Unvisited),
{
    let f = |c: ExplorationData| c.cell_state == CellState::Unvisited;
    seq_util::lemma_count_if_pointwise_le(g1, g2, f);
    seq_util::lemma_count_if_pointwise_le(g2, g1, f);
}

/// The node payload records a feature pixel: an interior foreground pixel
/// whose score classifies it as an endpoint (score at most 1) or an
/// intersection (score at least 3), with the node placed on that pixel.
pub open spec fn node_is_feature(info: TopologyNode, s: Seq<bool>, w: int, h: int) -> bool {
    exists|x: int, y: int|
        {
            &&& 1 <= x < w - 1
            &&& 1 <= y < h - 1
            &&& #[trigger] BoolGrid::at(s, w, y, x)
            &&& info.position == (Vector2I { x: x as i64, y: y as i64 })
            &&& is_feature_score(spec_pixel_score(s, w, x, y))
            &&& info.node_type == (if spec_pixel_score(s, w, x, y) <= 1 {
                TopologyNodeType::Endpoint
            } else {
                TopologyNodeType::Intersection
            })
        }
}

/// Seed entries stay sound under any exploration map and any larger node
/// set: a seed is its own predecessor.
proof fn lemma_queue_ok_seeds(
    q: Seq<BfsData>,
    g2: Seq<ExplorationData>,
    w: int,
    h: int,
    s: Seq<bool>,
    dom1: Set<u32>,
    dom2: Set<u32>,
)
    requires
        queue_ok(q, Seq::<ExplorationData>::empty(), w, h, s, dom1),
        forall|i: int| 0 <= i < q.len() ==> (#[trigger] q[i]).prev_pos == q[i].pos,
        dom1.subset_of(dom2),
    ensures
        queue_ok(q, g2, w, h, s, dom2),
{
    assert forall|i: int| 0 <= i < q.len() implies entry_ok(#[trigger] q[i], g2, w, h, s, dom2) by {
        assert(entry_ok(q[i], Seq::<ExplorationData>::empty(), w, h, s, dom1));
    }
}

/// Growing the node set keeps the exploration map sound.
proof fn lemma_expl_inv_dom_monotone(
    e: &ExplorationGrid,
    s: Seq<bool>,
    dom1: Set<u32>,
    dom2: Set<u32>,
)
    requires
        expl_inv(e, s, dom1),
        dom1.subset_of(dom2),
    ensures
        expl_inv(e, s, dom2),
{
    let w = e.spec_width() as int;
    let h = e.spec_height() as int;
    assert forall|x: int, y: int|
        0 <= x < w && 0 <= y < h && (#[trigger] expl_cell_at(e.grid(), w, x, y)).cell_state
            != CellState::Unvisited implies claimed_ok(e.grid(), w, h, s, dom2, x, y) by {
        assert(claimed_ok(e.grid(), w, h, s, dom1, x, y));
    }
}

/// Number of unvisited records in a raw sequence.
pub open spec fn count_unvisited_of(g: Seq<ExplorationData>) -> nat {
    seq_util::count_if(g, |c: ExplorationData| c.cell_state == CellState::Unvisited)
}

/// A queued frontier entry is sound: its cell is an in-bounds foreground
/// pixel, its owning root exists, and it was reached from itself (a seed)
/// or from an already claimed cell.
pub open spec fn entry_ok(
    b: BfsData,
    g: Seq<ExplorationData>,
    w: int,
    h: int,
    s: Seq<bool>,
    dom: Set<u32>,
) -> bool {
    &&& b.pos.0 < w
    &&& b.pos.1 < h
    &&& BoolGrid::at(s, w, b.pos.1 as int, b.pos.0 as int)
    &&& dom.contains(b.root_node)
    &&& b.prev_pos.0 < w
    &&& b.prev_pos.1 < h
    &&& (b.prev_pos == b.pos || {
        let p = expl_cell_at(g, w, b.prev_pos.0 as int, b.prev_pos.1 as int);
        p.cell_state != CellState::Unvisited && p.root_node == Some(b.root_node)
    })
}

/// Every queued entry is sound.
pub open spec fn queue_ok(
    q: Seq<BfsData>,
    g: Seq<ExplorationData>,
    w: int,
    h: int,
    s: Seq<bool>,
    dom: Set<u32>,
) -> bool {
    forall|i: int| 0 <= i < q.len() ==> entry_ok(#[trigger] q[i], g, w, h, s, dom)
}

/// Every stored edge carries a non-empty polyline of in-bounds pixels
/// that starts at its first endpoint's node position and ends at its
/// second endpoint's.
pub open spec fn edges_prop(g: &Graph<TopologyNode, TopologyEdge>, w: int, h: int) -> bool {
    forall|eid: u32|
        #[trigger] g.spec_edges().contains_key(eid) ==> {
            let e = g.spec_edges()[eid];
            let wps = e.spec_info().spec_waypoints();
            &&& wps.len() >= 1
            &&& forall|k: int| 0 <= k < wps.len() ==> 0 <= (#[trigger] wps[k]).x < w && 0 <= wps[k].y < h
            &&& g.spec_nodes().contains_key(e.spec_node1())
            &&& g.spec_nodes().contains_key(e.spec_node2())
            &&& wps[0] == g.spec_nodes()[e.spec_node1()].spec_info().position
            &&& wps[wps.len() - 1] == g.spec_nodes()[e.spec_node2()].spec_info().position
        }
}

/// Claiming more cells and adding nodes never unsettles queued entries.
proof fn lemma_queue_ok_monotone(
    q: Seq<BfsData>,
    g1: Seq<ExplorationData>,
    g2: Seq<ExplorationData>,
    w: int,
    h: int,
    s: Seq<bool>,
    dom1: Set<u32>,
    dom2: Set<u32>,
)
    requires
        queue_ok(q, g1, w, h, s, dom1),
        g1.len() == h * w,
        g1.len() == g2.len(),
        forall|k: int|
            0 <= k < g1.len() && (#[trigger] g1[k]).cell_state != CellState::Unvisited
                ==> g2[k].cell_state != CellState::Unvisited && g2[k].root_node == g1[k].root_node,
        dom1.subset_of(dom2),
    ensures
        queue_ok(q, g2, w, h, s, dom2),
{
    assert forall|i: int| 0 <= i < q.len() implies entry_ok(#[trigger] q[i], g2, w, h, s, dom2) by {
        assert(entry_ok(q[i], g1, w, h, s, dom1));
        let b = q[i];
        if !(b.prev_pos == b.pos) {
            assert(0 <= b.prev_pos.1 * w + b.prev_pos.0 < g1.len()) by {
                crate::grid_map::GridMap::lemma_row_major(
                    b.prev_pos.1 as int,
                    b.prev_pos.0 as int,
                    h,
                    w,
                );
            }
        }
    }
}

/// Claiming an unvisited cell for a sound frontier entry keeps the
/// exploration map sound.
proof fn lemma_visit_preserves(
    gpre: Seq<ExplorationData>,
    gpost: Seq<ExplorationData>,
    w: int,
    h: int,
    skel: Seq<bool>,
    dom: Set<u32>,
    data: BfsData,
    new_cell: ExplorationData,
)
    requires
        expl_inv_raw(gpre, w, h, skel, dom),
        entry_ok(data, gpre, w, h, skel, dom),
        gpre[data.pos.1 * w + data.pos.0].cell_state == CellState::Unvisited,
        new_cell.cell_state == CellState::Visited,
        new_cell.root_node == Some(data.root_node),
        new_cell.prev_pos == data.prev_pos,
        new_cell.depth@ == if data.prev_pos == data.pos {
            0nat
        } else {
            expl_cell_at(gpre, w, data.prev_pos.0 as int, data.prev_pos.1 as int).depth@ + 1
        },
        gpost == gpre.update(data.pos.1 * w + data.pos.0, new_cell),
    ensures
        expl_inv_raw(gpost, w, h, skel, dom),
        forall|k: int|
            0 <= k < gpre.len() && (#[trigger] gpre[k]).cell_state != CellState::Unvisited
                ==> gpost[k].cell_state != CellState::Unvisited,
{
    let x = data.pos.0 as int;
    let y = data.pos.1 as int;
    crate::grid_map::GridMap::lemma_row_major(y, x, h, w);
    seq_util::lemma_row_major_divmod(y, x, w);
    if !(data.prev_pos == data.pos) {
        crate::grid_map::GridMap::lemma_row_major(
            data.prev_pos.1 as int,
            data.prev_pos.0 as int,
            h,
            w,
        );
        seq_util::lemma_row_major_divmod(y, x, w);
        seq_util::lemma_row_major_divmod(data.prev_pos.1 as int, data.prev_pos.0 as int, w);
        assert(data.prev_pos.1 * w + data.prev_pos.0 != y * w + x);
    }
    assert forall|x2: int, y2: int|
        0 <= x2 < w && 0 <= y2 < h && (#[trigger] expl_cell_at(gpost, w, x2, y2)).cell_state
            != CellState::Unvisited implies claimed_ok(gpost, w, h, skel, dom, x2, y2) by {
        crate::grid_map::GridMap::lemma_row_major(y2, x2, h, w);
        seq_util::lemma_row_major_divmod(y2, x2, w);
        if y2 * w + x2 == y * w + x {
            // The newly claimed cell.
            assert(x2 == x && y2 == y);
            if !(data.prev_pos == data.pos) {
                assert(expl_cell_at(gpost, w, data.prev_pos.0 as int, data.prev_pos.1 as int)
                    == expl_cell_at(gpre, w, data.prev_pos.0 as int, data.prev_pos.1 as int));
            }
        } else {
            assert(expl_cell_at(gpost, w, x2, y2) == expl_cell_at(gpre, w, x2, y2));
            assert(claimed_ok(gpre, w, h, skel, dom, x2, y2));
            let c = expl_cell_at(gpre, w, x2, y2);
            if !(c.prev_pos.0 == x2 && c.prev_pos.1 == y2) {
                crate::grid_map::GridMap::lemma_row_major(
                    c.prev_pos.1 as int,
                    c.prev_pos.0 as int,
                    h,
                    w,
                );
                if c.prev_pos.1 * w + c.prev_pos.0 == y * w + x {
                    // Its predecessor cannot be the newly claimed cell: that
                    // cell was unvisited.
                    assert(expl_cell_at(gpre, w, c.prev_pos.0 as int, c.prev_pos.1 as int)
                        .cell_state == CellState::Unvisited);
                    assert(false);
                }
            }
        }
    }
}

/// Marking one claimed cell merged keeps the exploration map sound and
/// advances every record.
proof fn lemma_merge_set_preserves(
    gpre: Seq<ExplorationData>,
    gpost: Seq<ExplorationData>,
    w: int,
    h: int,
    skel: Seq<bool>,
    dom: Set<u32>,
    x: int,
    y: int,
)
    requires
        0 <= x < w,
        0 <= y < h,
        gpre.len() == h * w,
        gpost == gpre.update(
            y * w + x,
            ExplorationData { cell_state: CellState::Merged, ..gpre[y * w + x] },
        ),
        gpre[y * w + x].cell_state != CellState::Unvisited,
        expl_inv_raw(gpre, w, h, skel, dom),
    ensures
        expl_inv_raw(gpost, w, h, skel, dom),
        forall|k: int| 0 <= k < gpre.len() ==> record_advanced(#[trigger] gpre[k], gpost[k]),
{
    crate::grid_map::GridMap::lemma_row_major(y, x, h, w);
    assert forall|k: int| 0 <= k < gpre.len() implies record_advanced(
        #[trigger] gpre[k],
        gpost[k],
    ) by {
        if k != y * w + x {
            assert(gpost[k] == gpre[k]);
        } else {
            if gpre[k].cell_state == CellState::Merged {
                assert(gpost[k] == gpre[k]);
            } else {
                assert(gpre[k].cell_state == CellState::Visited);
            }
        }
    }
    assert forall|x2: int, y2: int|
        0 <= x2 < w && 0 <= y2 < h && (#[trigger] expl_cell_at(gpost, w, x2, y2)).cell_state
            != CellState::Unvisited implies claimed_ok(gpost, w, h, skel, dom, x2, y2) by {
        crate::grid_map::GridMap::lemma_row_major(y2, x2, h, w);
        assert(expl_cell_at(gpre, w, x2, y2).cell_state != CellState::Unvisited);
        assert(claimed_ok(gpre, w, h, skel, dom, x2, y2));
        let c = expl_cell_at(gpre, w, x2, y2);
        if !(c.prev_pos.0 == x2 && c.prev_pos.1 == y2) {
            crate::grid_map::GridMap::lemma_row_major(c.prev_pos.1 as int, c.prev_pos.0 as int, h, w);
        }
    }
}

pub struct TopologyExtractor {}

impl TopologyExtractor {
    pub fn new() -> (r: Self) {
        TopologyExtractor {}
    }

    /// Extract the topology graph of a grid map: thin the vacant space to
    /// the skeleton `spec_skeleton` (the deterministic thinning of the
    /// vacancy), node and seed the skeleton's feature pixels, trace all
    /// edges, and classify nodes that gained no edge as islands.  Every
    /// feature pixel gets a node and every node sits on the skeleton.
    pub fn extract(&self, grid_map: &GridMap) -> (r: Graph<TopologyNode, TopologyEdge>)
        requires
            grid_map.wf(),
            grid_map.spec_rows() <= 16384,
            grid_map.spec_columns() <= 16384,
        ensures
            r.wf(),
            edges_prop(&r, grid_map.spec_columns() as int, grid_map.spec_rows() as int),
            forall|nid: u32|
                #[trigger] r.spec_nodes().contains_key(nid) ==> r.spec_nodes()[nid].spec_connected()
                    .len() > 0 || r.spec_nodes()[nid].spec_info().node_type
                    == TopologyNodeType::Island,
            forall|nid: u32|
                #[trigger] r.spec_nodes().contains_key(nid) && r.spec_nodes()[nid].spec_info()
                    .node_type == TopologyNodeType::Island ==> r.spec_nodes()[nid].spec_connected()
                    .len() == 0,
            ({
                let w = grid_map.spec_columns() as int;
                let h = grid_map.spec_rows() as int;
                let skel = spec_skeleton(grid_map);
                // Every feature pixel of the skeleton has a node on it, and
                // every node sits on the skeleton; endpoint and intersection
                // nodes sit on feature pixels of the matching class.
                &&& forall|x: int, y: int|
                    1 <= x < w - 1 && 1 <= y < h - 1 && BoolGrid::at(skel, w, y, x)
                        && is_feature_score(spec_pixel_score(skel, w, x, y)) ==> exists|nid: u32|
                        #[trigger] r.spec_nodes().contains_key(nid)
                            && r.spec_nodes()[nid].spec_info().position == (Vector2I {
                            x: x as i64,
                            y: y as i64,
                        })
                &&& forall|nid: u32|
                    #[trigger] r.spec_nodes().contains_key(nid) ==> node_on_skeleton(
                        r.spec_nodes()[nid].spec_info(),
                        skel,
                        w,
                        h,
                    ) && ((r.spec_nodes()[nid].spec_info().node_type == TopologyNodeType::Endpoint
                        || r.spec_nodes()[nid].spec_info().node_type
                        == TopologyNodeType::Intersection) ==> node_is_feature(
                        r.spec_nodes()[nid].spec_info(),
                        skel,
                        w,
                        h,
                    ))
            }),
    {
        let rows = grid_map.vertical_cells();
        let columns = grid_map.horizontal_cells();
        let ghost w = columns as int;
        let ghost h = rows as int;
        proof {
            assert(h * w <= 16384 * 16384) by (nonlinear_arith)
                requires
                    0 <= h <= 16384,
                    0 <= w <= 16384,
            ;
        }

        // The thinning target is the vacant region.
        let mut occupancy: Vec<bool> = Vec::new();
        let mut rr: usize = 0;
        while rr < rows
            invariant
                grid_map.wf(),
                grid_map.spec_rows() == rows,
                grid_map.spec_columns() == columns,
                w == columns as int,
                h == rows as int,
                rr <= rows,
                occupancy@.len() == rr * columns,
                forall|k: int|
                    0 <= k < rr * columns ==> #[trigger] occupancy@[k]
                        == !grid_map.occupancy()[k],
            decreases rows - rr,
        {
            let mut cc: usize = 0;
            while cc < columns
                invariant
                    grid_map.wf(),
                    grid_map.spec_rows() == rows,
                    grid_map.spec_columns() == columns,
                    w == columns as int,
                    h == rows as int,
                    rr < rows,
                    cc <= columns,
                    occupancy@.len() == rr * columns + cc,
                    forall|k: int|
                        0 <= k < rr * columns + cc ==> #[trigger] occupancy@[k]
                            == !grid_map.occupancy()[k],
                decreases columns - cc,
            {
                proof {
                    GridMap::lemma_row_major(rr as int, cc as int, h, w);
                    seq_util::lemma_row_major_divmod(rr as int, cc as int, w);
                }
                let vacant: bool = match grid_map.get_by_cell(rr, cc) {
                    Some(cell) => *cell.state() == GridMapCellState::Vacant,
                    None => {
                        proof {
                            assert(false);
                        }
                        false
                    },
                };
                occupancy.push(vacant);
                cc += 1;
            }
            rr += 1;
            proof {
                assert((rr - 1) * columns + columns == rr * columns) by (nonlinear_arith);
            }
        }
        let occupancy_grid = BoolGrid::from_vec_grid(columns, rows, occupancy);

        let mut thinning = ZhangSuenThinningAlgorithm::new();
        let skeleton = thinning.thin_grid(&occupancy_grid);

        let mut topology_map: Graph<TopologyNode, TopologyEdge> = Graph::new(true, false);
        let mut bfs_queue: VecDeque<BfsData> = VecDeque::new();
        self.find_nodes(&skeleton, &mut topology_map, &mut bfs_queue);
        let ghost g1 = topology_map;
        let _exploration_map = self.find_edges(&skeleton, &mut topology_map, &mut bfs_queue);
        let ghost g2 = topology_map;

        proof {
            // Before classification no node is an island: the seeded nodes
            // are typed by their feature score, the coverage nodes are
            // waypoints.
            assert forall|m: u32|
                #[trigger] topology_map.spec_nodes().contains_key(m) implies topology_map
                .spec_nodes()[m].spec_info().node_type != TopologyNodeType::Island by {
                if g1.spec_nodes().contains_key(m) {
                    assert(node_is_feature(
                        g1.spec_nodes()[m].spec_info(),
                        skeleton.grid(),
                        w,
                        h,
                    ));
                    assert(topology_map.spec_nodes()[m].spec_info() == g1.spec_nodes()[m]
                        .spec_info());
                } else {
                    assert(topology_map.spec_nodes()[m].spec_info().node_type
                        == TopologyNodeType::Waypoint);
                }
            }
        }
        // Classify nodes without any incident edge as islands.
        let bound: u32 = topology_map.next_node_id();
        let mut nid: u32 = 0;
        while nid < bound
            invariant
                topology_map.wf(),
                topology_map.spec_node_id_alloc() == bound,
                edges_prop(&topology_map, w, h),
                topology_map.spec_nodes().dom() == g2.spec_nodes().dom(),
                forall|m: u32|
                    #[trigger] topology_map.spec_nodes().contains_key(m) ==> topology_map
                        .spec_nodes()[m].spec_info().position == g2.spec_nodes()[m].spec_info()
                        .position && (topology_map.spec_nodes()[m].spec_info().node_type
                        == g2.spec_nodes()[m].spec_info().node_type || topology_map.spec_nodes()[m]
                        .spec_info().node_type == TopologyNodeType::Island),
                forall|m: u32|
                    #[trigger] topology_map.spec_nodes().contains_key(m) && m < nid
                        ==> topology_map.spec_nodes()[m].spec_connected().len() > 0
                        || topology_map.spec_nodes()[m].spec_info().node_type
                        == TopologyNodeType::Island,
                forall|m: u32|
                    #[trigger] topology_map.spec_nodes().contains_key(m) && topology_map
                        .spec_nodes()[m].spec_info().node_type == TopologyNodeType::Island
                        ==> m < nid && topology_map.spec_nodes()[m].spec_connected().len() == 0,
            decreases bound - nid,
        {
            let mut island_info: Option<TopologyNode> = None;
            match topology_map.get_node_by_id(&nid) {
                Some(node) => {
                    if node.degree() == 0 {
                        let info = *node.node_info();
                        island_info = Some(
                            TopologyNode {
                                node_type: TopologyNodeType::Island,
                                position: info.position,
                            },
                        );
                    }
                },
                None => {},
            }
            let ghost tm_pre = topology_map;
            match island_info {
                Some(info) => {
                    topology_map.set_node_info(nid, info);
                    proof {
                        assert forall|m: u32|
                            #[trigger] topology_map.spec_nodes().contains_key(m) && m < nid + 1
                                implies topology_map.spec_nodes()[m].spec_connected().len() > 0
                            || topology_map.spec_nodes()[m].spec_info().node_type
                                == TopologyNodeType::Island by {
                            if m != nid {
                                assert(tm_pre.spec_nodes().contains_key(m));
                                assert(topology_map.spec_nodes()[m] == tm_pre.spec_nodes()[m]);
                            }
                        }
                        assert forall|m: u32|
                            #[trigger] topology_map.spec_nodes().contains_key(m) implies topology_map
                            .spec_nodes()[m].spec_info().position == g2.spec_nodes()[m].spec_info()
                            .position && (topology_map.spec_nodes()[m].spec_info().node_type
                            == g2.spec_nodes()[m].spec_info().node_type || topology_map
                            .spec_nodes()[m].spec_info().node_type == TopologyNodeType::Island) by {
                            if m != nid {
                                assert(tm_pre.spec_nodes().contains_key(m));
                                assert(topology_map.spec_nodes()[m] == tm_pre.spec_nodes()[m]);
                            }
                        }
                    }
                },
                None => {},
            }
            nid += 1;
        }
        proof {
            assert(forall|m: u32|
                #[trigger] topology_map.spec_nodes().contains_key(m) ==> m < bound);
            // The traced skeleton is the thinned vacancy of the grid.
            assert(occupancy_grid.grid() =~= spec_vacancy(grid_map));
            let skel = skeleton.grid();
            assert(skel == spec_skeleton(grid_map));
            assert(skel.len() == h * w);
            // Every node still sits on the skeleton; typed feature nodes
            // kept their classification unless islanded.
            assert forall|nid: u32| #[trigger] topology_map.spec_nodes().contains_key(nid) implies
                node_on_skeleton(topology_map.spec_nodes()[nid].spec_info(), skel, w, h) && ((
            topology_map.spec_nodes()[nid].spec_info().node_type == TopologyNodeType::Endpoint
                || topology_map.spec_nodes()[nid].spec_info().node_type
                == TopologyNodeType::Intersection) ==> node_is_feature(
                topology_map.spec_nodes()[nid].spec_info(),
                skel,
                w,
                h,
            )) by {
                assert(g2.spec_nodes().contains_key(nid));
                let info2 = g2.spec_nodes()[nid].spec_info();
                let info3 = topology_map.spec_nodes()[nid].spec_info();
                assert(info3.position == info2.position);
                if g1.spec_nodes().contains_key(nid) {
                    assert(info2 == g1.spec_nodes()[nid].spec_info());
                    assert(node_is_feature(info2, skel, w, h));
                    let (fx, fy) = choose|fx: int, fy: int|
                        {
                            &&& 1 <= fx < w - 1
                            &&& 1 <= fy < h - 1
                            &&& #[trigger] BoolGrid::at(skel, w, fy, fx)
                            &&& info2.position == (Vector2I { x: fx as i64, y: fy as i64 })
                            &&& is_feature_score(spec_pixel_score(skel, w, fx, fy))
                            &&& info2.node_type == (if spec_pixel_score(skel, w, fx, fy) <= 1 {
                                TopologyNodeType::Endpoint
                            } else {
                                TopologyNodeType::Intersection
                            })
                        };
                    assert(node_on_skeleton(info3, skel, w, h));
                    if info3.node_type == TopologyNodeType::Endpoint || info3.node_type
                        == TopologyNodeType::Intersection {
                        assert(info3.node_type == info2.node_type);
                        assert(info3 == info2);
                        assert(node_is_feature(info3, skel, w, h));
                    }
                } else {
                    assert(info2.node_type == TopologyNodeType::Waypoint);
                    assert(node_on_skeleton(info2, skel, w, h));
                    assert(node_on_skeleton(info3, skel, w, h));
                    assert(info3.node_type == TopologyNodeType::Waypoint || info3.node_type
                        == TopologyNodeType::Island);
                }
            }
            // Every feature pixel of the skeleton kept its node, whose
            // position survived tracing and reclassification.
            assert forall|x: int, y: int|
                1 <= x < w - 1 && 1 <= y < h - 1 && BoolGrid::at(skel, w, y, x)
                    && is_feature_score(spec_pixel_score(skel, w, x, y)) implies exists|nid: u32|
                #[trigger] topology_map.spec_nodes().contains_key(nid)
                    && topology_map.spec_nodes()[nid].spec_info().position == (Vector2I {
                    x: x as i64,
                    y: y as i64,
                }) by {
                let nid = choose|nid: u32|
                    #[trigger] g1.spec_nodes().contains_key(nid)
                        && g1.spec_nodes()[nid].spec_info().position == (Vector2I {
                        x: x as i64,
                        y: y as i64,
                    });
                assert(g2.spec_nodes().contains_key(nid));
                assert(g2.spec_nodes()[nid].spec_info() == g1.spec_nodes()[nid].spec_info());
                assert(topology_map.spec_nodes().contains_key(nid));
                assert(topology_map.spec_nodes()[nid].spec_info().position
                    == g2.spec_nodes()[nid].spec_info().position);
            }
        }
        topology_map
    }

    /// Scan the interior in row-major order (rows outer), add an Endpoint
    /// or Intersection node for every feature pixel, and enqueue a seed for
    /// each node added.
    #[verifier::rlimit(100)]
    pub fn find_nodes(
        &self,
        skeleton: &BoolGrid,
        topology_map: &mut Graph<TopologyNode, TopologyEdge>,
        bfs_queue: &mut VecDeque<BfsData>,
    )
        requires
            skeleton.wf(),
            skeleton.spec_width() <= 16384,
            skeleton.spec_height() <= 16384,
            old(topology_map).wf(),
            old(topology_map).spec_nodes() == Map::<u32, crate::graph::Node<TopologyNode>>::empty(),
            old(topology_map).spec_edges() == Map::<u32, crate::graph::Edge<TopologyEdge>>::empty(),
            old(topology_map).spec_node_id_alloc() == 1,
            old(topology_map).spec_edge_id_alloc() == 1,
            old(bfs_queue)@ == Seq::<BfsData>::empty(),
        ensures
            final(topology_map).wf(),
            final(topology_map).spec_edges() == old(topology_map).spec_edges(),
            final(topology_map).spec_edge_id_alloc() == 1,
            final(topology_map).spec_node_id_alloc() == final(bfs_queue)@.len() + 1,
            final(topology_map).spec_node_id_alloc() <= 1 + skeleton.spec_height()
                * skeleton.spec_width(),
            queue_ok(
                final(bfs_queue)@,
                Seq::<ExplorationData>::empty(),
                skeleton.spec_width() as int,
                skeleton.spec_height() as int,
                skeleton.grid(),
                final(topology_map).spec_nodes().dom(),
            ),
            forall|i: int|
                0 <= i < final(bfs_queue)@.len() ==> (#[trigger] final(bfs_queue)@[i]).prev_pos
                    == final(bfs_queue)@[i].pos,
            seed_entries_have_nodes(final(bfs_queue)@, final(topology_map).spec_nodes()),
            forall|nid: u32|
                #[trigger] final(topology_map).spec_nodes().contains_key(nid)
                    ==> node_is_feature(
                    final(topology_map).spec_nodes()[nid].spec_info(),
                    skeleton.grid(),
                    skeleton.spec_width() as int,
                    skeleton.spec_height() as int,
                ),
            forall|x: int, y: int|
                1 <= x < skeleton.spec_width() - 1 && 1 <= y < skeleton.spec_height() - 1
                    && BoolGrid::at(skeleton.grid(), skeleton.spec_width() as int, y, x)
                    && is_feature_score(
                    spec_pixel_score(skeleton.grid(), skeleton.spec_width() as int, x, y),
                ) ==> exists|nid: u32|
                    #[trigger] final(topology_map).spec_nodes().contains_key(nid) && final(topology_map).spec_nodes()[nid].spec_info().position == (Vector2I {
                        x: x as i64,
                        y: y as i64,
                    }),
    {
        let width = skeleton.width();
        let height = skeleton.height();
        let ghost w = width as int;
        let ghost h = height as int;
        let ghost skel = skeleton.grid();
        if height < 3 || width < 3 {
            return ;
        }
        let mut y: usize = 1;
        while y < height - 1
            invariant
                skeleton.wf(),
                skeleton.spec_width() == width,
                skeleton.spec_height() == height,
                3 <= width <= 16384,
                3 <= height <= 16384,
                w == width as int,
                h == height as int,
                skel == skeleton.grid(),
                1 <= y <= height - 1,
                topology_map.wf(),
                topology_map.spec_edges() == old(topology_map).spec_edges(),
                topology_map.spec_edge_id_alloc() == 1,
                topology_map.spec_node_id_alloc() == bfs_queue@.len() + 1,
                topology_map.spec_node_id_alloc() <= 1 + (y - 1) * width + 1,
                topology_map.spec_node_id_alloc() <= 1 + h * w,
                queue_ok(
                    bfs_queue@,
                    Seq::<ExplorationData>::empty(),
                    w,
                    h,
                    skel,
                    topology_map.spec_nodes().dom(),
                ),
                forall|i: int|
                    0 <= i < bfs_queue@.len() ==> (#[trigger] bfs_queue@[i]).prev_pos
                        == bfs_queue@[i].pos,
                seed_entries_have_nodes(bfs_queue@, topology_map.spec_nodes()),
                forall|nid: u32|
                    #[trigger] topology_map.spec_nodes().contains_key(nid) ==> node_is_feature(
                        topology_map.spec_nodes()[nid].spec_info(),
                        skel,
                        w,
                        h,
                    ),
                forall|x2: int, y2: int|
                    1 <= x2 < w - 1 && 1 <= y2 < y && BoolGrid::at(skel, w, y2, x2)
                        && is_feature_score(spec_pixel_score(skel, w, x2, y2)) ==> exists|nid: u32|
                        #[trigger] topology_map.spec_nodes().contains_key(nid) && topology_map
                            .spec_nodes()[nid].spec_info().position == (Vector2I {
                            x: x2 as i64,
                            y: y2 as i64,
                        }),
            decreases height - 1 - y,
        {
            let mut x: usize = 1;
            while x < width - 1
                invariant
                    skeleton.wf(),
                    skeleton.spec_width() == width,
                    skeleton.spec_height() == height,
                    3 <= width <= 16384,
                    3 <= height <= 16384,
                    w == width as int,
                    h == height as int,
                    skel == skeleton.grid(),
                    1 <= y < height - 1,
                    1 <= x <= width - 1,
                    topology_map.wf(),
                    topology_map.spec_edges() == old(topology_map).spec_edges(),
                    topology_map.spec_edge_id_alloc() == 1,
                    topology_map.spec_node_id_alloc() == bfs_queue@.len() + 1,
                    topology_map.spec_node_id_alloc() <= 1 + (y - 1) * width + x,
                    topology_map.spec_node_id_alloc() <= 1 + h * w,
                    queue_ok(
                        bfs_queue@,
                        Seq::<ExplorationData>::empty(),
                        w,
                        h,
                        skel,
                        topology_map.spec_nodes().dom(),
                    ),
                    forall|i: int|
                        0 <= i < bfs_queue@.len() ==> (#[trigger] bfs_queue@[i]).prev_pos
                            == bfs_queue@[i].pos,
                    seed_entries_have_nodes(bfs_queue@, topology_map.spec_nodes()),
                    forall|nid: u32|
                        #[trigger] topology_map.spec_nodes().contains_key(nid) ==> node_is_feature(
                            topology_map.spec_nodes()[nid].spec_info(),
                            skel,
                            w,
                            h,
                        ),
                    forall|x2: int, y2: int|
                        1 <= x2 < w - 1 && 1 <= y2 < h - 1 && (y2 < y || (y2 == y && x2 < x))
                            && BoolGrid::at(skel, w, y2, x2) && is_feature_score(
                            spec_pixel_score(skel, w, x2, y2),
                        ) ==> exists|nid: u32|
                            #[trigger] topology_map.spec_nodes().contains_key(nid) && topology_map
                                .spec_nodes()[nid].spec_info().position == (Vector2I {
                                x: x2 as i64,
                                y: y2 as i64,
                            }),
                decreases width - 1 - x,
            {
                proof {
                    crate::grid_map::GridMap::lemma_row_major(y as int, x as int, h, w);
                    assert((y - 1) * width + x + 1 <= height * width) by (nonlinear_arith)
                        requires
                            1 <= y < height,
                            1 <= x < width,
                    ;
                    assert(h * w == height * width);
                    assert(height * width <= 16384 * 16384) by (nonlinear_arith)
                        requires
                            0 <= height <= 16384,
                            0 <= width <= 16384,
                    ;
                }
                let ghost dom_pre = topology_map.spec_nodes().dom();
                let ghost nodes_pre = topology_map.spec_nodes();
                if skeleton.get(y, x) {
                    let score = Self::compute_pixel_score(skeleton, x, y);
                    if score <= 1 || score >= 3 {
                        let node_type = if score <= 1 {
                            TopologyNodeType::Endpoint
                        } else {
                            TopologyNodeType::Intersection
                        };
                        let node_id = topology_map.add_node(
                            TopologyNode {
                                node_type,
                                position: Vector2I { x: x as i64, y: y as i64 },
                            },
                        );
                        bfs_queue.push_back(
                            BfsData { root_node: node_id, pos: (x, y), prev_pos: (x, y) },
                        );
                        proof {
                            assert(seed_entries_have_nodes(
                                bfs_queue@,
                                topology_map.spec_nodes(),
                            )) by {
                                assert forall|qi: int|
                                    0 <= qi < bfs_queue@.len() && (#[trigger] bfs_queue@[qi])
                                        .prev_pos == bfs_queue@[qi].pos implies topology_map
                                    .spec_nodes().contains_key(bfs_queue@[qi].root_node)
                                    && topology_map.spec_nodes()[bfs_queue@[qi].root_node]
                                    .spec_info().position == (Vector2I {
                                    x: bfs_queue@[qi].pos.0 as i64,
                                    y: bfs_queue@[qi].pos.1 as i64,
                                }) by {
                                    if qi < bfs_queue@.len() - 1 {
                                        assert(nodes_pre.contains_key(bfs_queue@[qi].root_node));
                                    }
                                }
                            }
                            assert forall|x2: int, y2: int|
                                1 <= x2 < w - 1 && 1 <= y2 < h - 1 && (y2 < y || (y2 == y && x2 < x
                                    + 1)) && BoolGrid::at(skel, w, y2, x2) && is_feature_score(
                                    spec_pixel_score(skel, w, x2, y2),
                                ) implies exists|nid: u32|
                                #[trigger] topology_map.spec_nodes().contains_key(nid)
                                    && topology_map.spec_nodes()[nid].spec_info().position
                                    == (Vector2I { x: x2 as i64, y: y2 as i64 }) by {
                                if y2 == y && x2 == x {
                                    assert(topology_map.spec_nodes().contains_key(node_id)
                                        && topology_map.spec_nodes()[node_id].spec_info().position
                                        == (Vector2I { x: x2 as i64, y: y2 as i64 }));
                                } else {
                                    let nid = choose|nid: u32|
                                        #[trigger] nodes_pre.contains_key(nid)
                                            && nodes_pre[nid].spec_info().position == (Vector2I {
                                            x: x2 as i64,
                                            y: y2 as i64,
                                        });
                                    assert(topology_map.spec_nodes().contains_key(nid)
                                        && topology_map.spec_nodes()[nid].spec_info().position
                                        == (Vector2I { x: x2 as i64, y: y2 as i64 }));
                                }
                            }
                        }
                    }
                }
                x += 1;
            }
            y += 1;
            proof {
                assert((y - 2) * width + width <= (y - 1) * width + 1) by (nonlinear_arith)
                    requires
                        1 <= y,
                        width >= 1,
                ;
            }
        }
        proof {
            assert((height - 2) * width + 1 <= height * width) by (nonlinear_arith)
                requires
                    2 <= height,
                    1 <= width,
            ;
            assert(h * w == height * width);
        }
    }

    /// Trace all edges: run the seeded breadth-first search to exhaustion,
    /// then repeatedly seed a Waypoint node on a still unvisited foreground
    /// pixel (a closed loop) and search again, until every foreground pixel
    /// has been claimed.  Returns the final exploration map.
    pub fn find_edges(
        &self,
        skeleton: &BoolGrid,
        topology_map: &mut Graph<TopologyNode, TopologyEdge>,
        bfs_queue: &mut VecDeque<BfsData>,
    ) -> (exploration_map: ExplorationGrid)
        requires
            skeleton.wf(),
            skeleton.spec_width() <= 16384,
            skeleton.spec_height() <= 16384,
            old(topology_map).wf(),
            old(topology_map).spec_edges() == Map::<u32, crate::graph::Edge<TopologyEdge>>::empty(),
            old(topology_map).spec_edge_id_alloc() == 1,
            old(topology_map).spec_node_id_alloc() <= 1 + skeleton.spec_height()
                * skeleton.spec_width(),
            old(bfs_queue)@.len() <= skeleton.spec_height() * skeleton.spec_width(),
            queue_ok(
                old(bfs_queue)@,
                Seq::<ExplorationData>::empty(),
                skeleton.spec_width() as int,
                skeleton.spec_height() as int,
                skeleton.grid(),
                old(topology_map).spec_nodes().dom(),
            ),
            forall|i: int|
                0 <= i < old(bfs_queue)@.len() ==> (#[trigger] old(bfs_queue)@[i]).prev_pos == old(
                    bfs_queue,
                )@[i].pos,
            seed_entries_have_nodes(old(bfs_queue)@, old(topology_map).spec_nodes()),
        ensures
            final(topology_map).wf(),
            edges_prop(
                final(topology_map),
                skeleton.spec_width() as int,
                skeleton.spec_height() as int,
            ),
            old(topology_map).spec_nodes().dom().subset_of(final(topology_map).spec_nodes().dom()),
            forall|nid: u32|
                #[trigger] old(topology_map).spec_nodes().contains_key(nid) ==> final(topology_map)
                    .spec_nodes()[nid].spec_id() == old(topology_map).spec_nodes()[nid].spec_id()
                    && final(topology_map).spec_nodes()[nid].spec_info() == old(topology_map)
                    .spec_nodes()[nid].spec_info(),
            forall|nid: u32|
                #[trigger] final(topology_map).spec_nodes().contains_key(nid) && !old(topology_map)
                    .spec_nodes().contains_key(nid) ==> final(topology_map).spec_nodes()[nid]
                    .spec_info().node_type == TopologyNodeType::Waypoint && node_on_skeleton(
                    final(topology_map).spec_nodes()[nid].spec_info(),
                    skeleton.grid(),
                    skeleton.spec_width() as int,
                    skeleton.spec_height() as int,
                ),
            exploration_map.wf(),
            exploration_map.spec_width() == skeleton.spec_width(),
            exploration_map.spec_height() == skeleton.spec_height(),
            expl_inv(
                &exploration_map,
                skeleton.grid(),
                final(topology_map).spec_nodes().dom(),
            ),
            seeds_have_nodes(
                exploration_map.grid(),
                skeleton.spec_width() as int,
                skeleton.spec_height() as int,
                final(topology_map).spec_nodes(),
            ),
            merged_on_polylines(
                exploration_map.grid(),
                skeleton.spec_width() as int,
                skeleton.spec_height() as int,
                final(topology_map),
            ),
            forall|x: int, y: int|
                0 <= x < skeleton.spec_width() && 0 <= y < skeleton.spec_height() && BoolGrid::at(
                    skeleton.grid(),
                    skeleton.spec_width() as int,
                    y,
                    x,
                ) ==> (#[trigger] expl_cell(&exploration_map, x, y)).cell_state
                    != CellState::Unvisited,
    {
        let width = skeleton.width();
        let height = skeleton.height();
        let ghost w = width as int;
        let ghost h = height as int;
        let ghost skel = skeleton.grid();
        proof {
            assert(h * w <= 16384 * 16384) by (nonlinear_arith)
                requires
                    0 <= h <= 16384,
                    0 <= w <= 16384,
            ;
        }
        let total: usize = height * width;
        let mut exploration_map = ExplorationGrid::unvisited(width, height);
        proof {
            seq_util::lemma_count_if_le_len(
                exploration_map.grid(),
                |c: ExplorationData| c.cell_state == CellState::Unvisited,
            );
            assert forall|x: int, y: int|
                0 <= x < w && 0 <= y < h && (#[trigger] expl_cell_at(
                    exploration_map.grid(),
                    w,
                    x,
                    y,
                )).cell_state != CellState::Unvisited implies claimed_ok(
                exploration_map.grid(),
                w,
                h,
                skel,
                topology_map.spec_nodes().dom(),
                x,
                y,
            ) by {
                crate::grid_map::GridMap::lemma_row_major(y, x, h, w);
            }
            lemma_queue_ok_seeds(
                bfs_queue@,
                exploration_map.grid(),
                w,
                h,
                skel,
                topology_map.spec_nodes().dom(),
                topology_map.spec_nodes().dom(),
            );
            assert forall|x: int, y: int|
                0 <= x < w && 0 <= y < h implies (#[trigger] expl_cell_at(
                exploration_map.grid(),
                w,
                x,
                y,
            )).cell_state == CellState::Unvisited by {
                crate::grid_map::GridMap::lemma_row_major(y, x, h, w);
            }
            assert(seeds_have_nodes(exploration_map.grid(), w, h, topology_map.spec_nodes()));
            assert(merged_on_polylines(exploration_map.grid(), w, h, topology_map));
        }
        Self::drain(skeleton, topology_map, bfs_queue, &mut exploration_map);
        loop
            invariant
                skeleton.wf(),
                skeleton.spec_width() == width,
                skeleton.spec_height() == height,
                width <= 16384,
                height <= 16384,
                w == width as int,
                h == height as int,
                skel == skeleton.grid(),
                topology_map.wf(),
                bfs_queue@.len() == 0,
                exploration_map.wf(),
                exploration_map.spec_width() == width,
                exploration_map.spec_height() == height,
                expl_inv(&exploration_map, skel, topology_map.spec_nodes().dom()),
                seeds_have_nodes(exploration_map.grid(), w, h, topology_map.spec_nodes()),
                merged_on_polylines(exploration_map.grid(), w, h, topology_map),
                edges_prop(topology_map, w, h),
                old(topology_map).spec_nodes().dom().subset_of(topology_map.spec_nodes().dom()),
                forall|nid: u32|
                    #[trigger] old(topology_map).spec_nodes().contains_key(nid) ==> topology_map
                        .spec_nodes()[nid].spec_id() == old(topology_map).spec_nodes()[nid]
                        .spec_id() && topology_map.spec_nodes()[nid].spec_info() == old(topology_map).spec_nodes()[nid].spec_info(),
                forall|nid: u32|
                    #[trigger] topology_map.spec_nodes().contains_key(nid) && !old(topology_map)
                        .spec_nodes().contains_key(nid) ==> topology_map.spec_nodes()[nid]
                        .spec_info().node_type == TopologyNodeType::Waypoint && node_on_skeleton(
                        topology_map.spec_nodes()[nid].spec_info(),
                        skel,
                        w,
                        h,
                    ),
                topology_map.spec_edge_id_alloc() + 10 * count_unvisited(&exploration_map) <= 1
                    + 11 * (h * w),
                topology_map.spec_node_id_alloc() + count_unvisited(&exploration_map) <= 1 + 2 * (h
                    * w),
            ensures
                topology_map.wf(),
                bfs_queue@.len() == 0,
                exploration_map.wf(),
                exploration_map.spec_width() == width,
                exploration_map.spec_height() == height,
                expl_inv(&exploration_map, skel, topology_map.spec_nodes().dom()),
                seeds_have_nodes(exploration_map.grid(), w, h, topology_map.spec_nodes()),
                merged_on_polylines(exploration_map.grid(), w, h, topology_map),
                edges_prop(topology_map, w, h),
                old(topology_map).spec_nodes().dom().subset_of(topology_map.spec_nodes().dom()),
                forall|nid: u32|
                    #[trigger] old(topology_map).spec_nodes().contains_key(nid) ==> topology_map
                        .spec_nodes()[nid].spec_id() == old(topology_map).spec_nodes()[nid]
                        .spec_id() && topology_map.spec_nodes()[nid].spec_info() == old(topology_map).spec_nodes()[nid].spec_info(),
                forall|nid: u32|
                    #[trigger] topology_map.spec_nodes().contains_key(nid) && !old(topology_map)
                        .spec_nodes().contains_key(nid) ==> topology_map.spec_nodes()[nid]
                        .spec_info().node_type == TopologyNodeType::Waypoint && node_on_skeleton(
                        topology_map.spec_nodes()[nid].spec_info(),
                        skel,
                        w,
                        h,
                    ),
                forall|x: int, y: int|
                    0 <= x < w && 0 <= y < h && BoolGrid::at(skel, w, y, x) ==> (
                    #[trigger] expl_cell(&exploration_map, x, y)).cell_state
                        != CellState::Unvisited,
            decreases count_unvisited(&exploration_map),
        {
            let found = Self::find_first_unvisited(skeleton, &exploration_map);
            match found {
                None => {
                    break ;
                },
                Some(seed_pos) => {
                    proof {
                        crate::grid_map::GridMap::lemma_row_major(
                            seed_pos.1 as int,
                            seed_pos.0 as int,
                            h,
                            w,
                        );
                        seq_util::lemma_count_if_zero(
                            exploration_map.grid(),
                            |c: ExplorationData| c.cell_state == CellState::Unvisited,
                        );
                        assert(count_unvisited(&exploration_map) > 0);
                        assert(h * w <= 16384 * 16384) by (nonlinear_arith)
                            requires
                                0 <= h <= 16384,
                                0 <= w <= 16384,
                        ;
                    }
                    let ghost nodes_pre = topology_map.spec_nodes();
                    let ghost cu_pre = count_unvisited(&exploration_map);
                    let node_id = topology_map.add_node(
                        TopologyNode {
                            node_type: TopologyNodeType::Waypoint,
                            position: Vector2I { x: seed_pos.0 as i64, y: seed_pos.1 as i64 },
                        },
                    );
                    bfs_queue.push_back(
                        BfsData { root_node: node_id, pos: seed_pos, prev_pos: seed_pos },
                    );
                    proof {
                        assert(nodes_pre.dom().subset_of(topology_map.spec_nodes().dom()));
                        lemma_expl_inv_dom_monotone(
                            &exploration_map,
                            skel,
                            nodes_pre.dom(),
                            topology_map.spec_nodes().dom(),
                        );
                        assert(queue_ok(
                            bfs_queue@,
                            exploration_map.grid(),
                            w,
                            h,
                            skel,
                            topology_map.spec_nodes().dom(),
                        ));
                        assert(seeds_have_nodes(
                            exploration_map.grid(),
                            w,
                            h,
                            topology_map.spec_nodes(),
                        )) by {
                            assert forall|x: int, y: int|
                                0 <= x < w && 0 <= y < h && (#[trigger] expl_cell_at(
                                    exploration_map.grid(),
                                    w,
                                    x,
                                    y,
                                )).cell_state != CellState::Unvisited && expl_cell_at(
                                    exploration_map.grid(),
                                    w,
                                    x,
                                    y,
                                ).prev_pos.0 == x && expl_cell_at(
                                    exploration_map.grid(),
                                    w,
                                    x,
                                    y,
                                ).prev_pos.1 == y implies {
                                let c = expl_cell_at(exploration_map.grid(), w, x, y);
                                &&& c.root_node is Some
                                &&& topology_map.spec_nodes().contains_key(c.root_node->0)
                                &&& topology_map.spec_nodes()[c.root_node->0].spec_info().position
                                    == (Vector2I { x: x as i64, y: y as i64 })
                            } by {
                                assert(nodes_pre.contains_key(expl_cell_at(
                                    exploration_map.grid(),
                                    w,
                                    x,
                                    y,
                                ).root_node->0));
                            }
                        }
                        assert(seed_entries_have_nodes(bfs_queue@, topology_map.spec_nodes()));
                        assert(merged_on_polylines(
                            exploration_map.grid(),
                            w,
                            h,
                            topology_map,
                        )) by {
                            assert forall|x: int, y: int|
                                0 <= x < w && 0 <= y < h && (#[trigger] expl_cell_at(
                                    exploration_map.grid(),
                                    w,
                                    x,
                                    y,
                                )).cell_state == CellState::Merged implies exists|eid: u32|
                                #[trigger] topology_map.spec_edges().contains_key(eid)
                                    && topology_map.spec_edges()[eid].spec_info().spec_waypoints()
                                    .contains(Vector2I { x: x as i64, y: y as i64 }) by {}
                        }
                    }
                    let ghost g_before = exploration_map.grid();
                    let ghost alloc_before = topology_map.spec_edge_id_alloc();
                    Self::drain(skeleton, topology_map, bfs_queue, &mut exploration_map);
                    proof {
                        assert(count_unvisited(&exploration_map) < cu_pre);
                        assert(topology_map.spec_edge_id_alloc() + 9 * count_unvisited(
                            &exploration_map,
                        ) <= alloc_before + 1 + 9 * cu_pre);
                    }
                },
            }
        }
        exploration_map
    }

    /// The first still unvisited foreground pixel in row-major order.
    fn find_first_unvisited(skeleton: &BoolGrid, exploration_map: &ExplorationGrid) -> (r: Option<
        (usize, usize),
    >)
        requires
            skeleton.wf(),
            exploration_map.wf(),
            exploration_map.spec_width() == skeleton.spec_width(),
            exploration_map.spec_height() == skeleton.spec_height(),
        ensures
            r matches Some(p) ==> p.0 < skeleton.spec_width() && p.1 < skeleton.spec_height()
                && BoolGrid::at(
                skeleton.grid(),
                skeleton.spec_width() as int,
                p.1 as int,
                p.0 as int,
            ) && expl_cell(exploration_map, p.0 as int, p.1 as int).cell_state
                == CellState::Unvisited,
            r is None ==> forall|x: int, y: int|
                0 <= x < skeleton.spec_width() && 0 <= y < skeleton.spec_height() && BoolGrid::at(
                    skeleton.grid(),
                    skeleton.spec_width() as int,
                    y,
                    x,
                ) ==> (#[trigger] expl_cell(exploration_map, x, y)).cell_state
                    != CellState::Unvisited,
    {
        let width = skeleton.width();
        let height = skeleton.height();
        let ghost w = width as int;
        let ghost h = height as int;
        let mut y: usize = 0;
        while y < height
            invariant
                skeleton.wf(),
                exploration_map.wf(),
                exploration_map.spec_width() == width,
                exploration_map.spec_height() == height,
                skeleton.spec_width() == width,
                skeleton.spec_height() == height,
                w == width as int,
                h == height as int,
                y <= height,
                forall|x2: int, y2: int|
                    0 <= x2 < w && 0 <= y2 < y && BoolGrid::at(skeleton.grid(), w, y2, x2) ==> (
                    #[trigger] expl_cell(exploration_map, x2, y2)).cell_state
                        != CellState::Unvisited,
            decreases height - y,
        {
            let mut x: usize = 0;
            while x < width
                invariant
                    skeleton.wf(),
                    exploration_map.wf(),
                    exploration_map.spec_width() == width,
                    exploration_map.spec_height() == height,
                    skeleton.spec_width() == width,
                    skeleton.spec_height() == height,
                    w == width as int,
                    h == height as int,
                    y < height,
                    x <= width,
                    forall|x2: int, y2: int|
                        0 <= x2 < w && 0 <= y2 < y && BoolGrid::at(skeleton.grid(), w, y2, x2)
                            ==> (#[trigger] expl_cell(exploration_map, x2, y2)).cell_state
                            != CellState::Unvisited,
                    forall|x2: int|
                        0 <= x2 < x && BoolGrid::at(skeleton.grid(), w, y as int, x2) ==> (
                        #[trigger] expl_cell(exploration_map, x2, y as int)).cell_state
                            != CellState::Unvisited,
                decreases width - x,
            {
                if skeleton.get(y, x) {
                    let cell = exploration_map.get(x, y);
                    if cell.cell_state == CellState::Unvisited {
                        return Some((x, y));
                    }
                }
                x += 1;
            }
            y += 1;
        }
        None
    }

    /// Process queued frontier entries until the queue is empty: claim
    /// unvisited cells and expand their frontier, and merge colliding
    /// frontiers into edges.
    #[verifier::rlimit(100)]
    fn drain(
        skeleton: &BoolGrid,
        topology_map: &mut Graph<TopologyNode, TopologyEdge>,
        bfs_queue: &mut VecDeque<BfsData>,
        exploration_map: &mut ExplorationGrid,
    )
        requires
            skeleton.wf(),
            skeleton.spec_width() <= 16384,
            skeleton.spec_height() <= 16384,
            old(topology_map).wf(),
            old(exploration_map).spec_width() == skeleton.spec_width(),
            old(exploration_map).spec_height() == skeleton.spec_height(),
            expl_inv(old(exploration_map), skeleton.grid(), old(topology_map).spec_nodes().dom()),
            queue_ok(
                old(bfs_queue)@,
                old(exploration_map).grid(),
                skeleton.spec_width() as int,
                skeleton.spec_height() as int,
                skeleton.grid(),
                old(topology_map).spec_nodes().dom(),
            ),
            seeds_have_nodes(
                old(exploration_map).grid(),
                skeleton.spec_width() as int,
                skeleton.spec_height() as int,
                old(topology_map).spec_nodes(),
            ),
            seed_entries_have_nodes(
                old(bfs_queue)@,
                old(topology_map).spec_nodes(),
            ),
            merged_on_polylines(
                old(exploration_map).grid(),
                skeleton.spec_width() as int,
                skeleton.spec_height() as int,
                old(topology_map),
            ),
            edges_prop(
                old(topology_map),
                skeleton.spec_width() as int,
                skeleton.spec_height() as int,
            ),
            old(topology_map).spec_edge_id_alloc() + old(bfs_queue)@.len() + 9 * count_unvisited(
                old(exploration_map),
            ) <= 1 + 11 * (skeleton.spec_height() * skeleton.spec_width()),
        ensures
            final(topology_map).wf(),
            final(bfs_queue)@.len() == 0,
            final(exploration_map).spec_width() == old(exploration_map).spec_width(),
            final(exploration_map).spec_height() == old(exploration_map).spec_height(),
            expl_inv(final(exploration_map), skeleton.grid(), final(topology_map).spec_nodes().dom()),
            seeds_have_nodes(
                final(exploration_map).grid(),
                skeleton.spec_width() as int,
                skeleton.spec_height() as int,
                final(topology_map).spec_nodes(),
            ),
            merged_on_polylines(
                final(exploration_map).grid(),
                skeleton.spec_width() as int,
                skeleton.spec_height() as int,
                final(topology_map),
            ),
            edges_prop(
                final(topology_map),
                skeleton.spec_width() as int,
                skeleton.spec_height() as int,
            ),
            final(topology_map).spec_nodes().dom() == old(topology_map).spec_nodes().dom(),
            final(topology_map).spec_node_id_alloc() == old(topology_map).spec_node_id_alloc(),
            forall|nid: u32|
                #[trigger] old(topology_map).spec_nodes().contains_key(nid) ==> final(topology_map)
                    .spec_nodes()[nid].spec_id() == old(topology_map).spec_nodes()[nid].spec_id()
                    && final(topology_map).spec_nodes()[nid].spec_info() == old(topology_map)
                    .spec_nodes()[nid].spec_info(),
            forall|k: int|
                0 <= k < old(exploration_map).grid().len() && (#[trigger] old(exploration_map).grid()[k]).cell_state != CellState::Unvisited ==> final(exploration_map).grid()[k].cell_state != CellState::Unvisited,
            final(topology_map).spec_edge_id_alloc() + 9 * count_unvisited(final(exploration_map))
                <= old(topology_map).spec_edge_id_alloc() + old(bfs_queue)@.len() + 9
                * count_unvisited(old(exploration_map)),
            count_unvisited(final(exploration_map)) <= count_unvisited(old(exploration_map)),
            old(bfs_queue)@.len() > 0 && expl_cell_at(
                old(exploration_map).grid(),
                skeleton.spec_width() as int,
                old(bfs_queue)@[0].pos.0 as int,
                old(bfs_queue)@[0].pos.1 as int,
            ).cell_state == CellState::Unvisited ==> count_unvisited(final(exploration_map))
                < count_unvisited(old(exploration_map)),
    {
        let width = skeleton.width();
        let height = skeleton.height();
        let ghost w = width as int;
        let ghost h = height as int;
        let ghost skel = skeleton.grid();
        let ghost dom = topology_map.spec_nodes().dom();
        let ghost q0 = bfs_queue@;
        let ghost g0 = exploration_map.grid();
        let ghost psi0 = topology_map.spec_edge_id_alloc() + q0.len() + 9 * count_unvisited(
            exploration_map,
        );
        let ghost hyp = q0.len() > 0 && expl_cell_at(
            g0,
            w,
            q0[0].pos.0 as int,
            q0[0].pos.1 as int,
        ).cell_state == CellState::Unvisited;
        while bfs_queue.len() != 0
            invariant
                skeleton.wf(),
                skeleton.spec_width() == width,
                skeleton.spec_height() == height,
                width <= 16384,
                height <= 16384,
                w == width as int,
                h == height as int,
                skel == skeleton.grid(),
                q0 == old(bfs_queue)@,
                g0 == old(exploration_map).grid(),
                dom == old(topology_map).spec_nodes().dom(),
                psi0 == old(topology_map).spec_edge_id_alloc() + q0.len() + 9
                    * count_unvisited_of(g0),
                hyp == (q0.len() > 0 && expl_cell_at(
                    g0,
                    w,
                    q0[0].pos.0 as int,
                    q0[0].pos.1 as int,
                ).cell_state == CellState::Unvisited),
                topology_map.wf(),
                exploration_map.spec_width() == width,
                exploration_map.spec_height() == height,
                expl_inv(exploration_map, skel, topology_map.spec_nodes().dom()),
                queue_ok(bfs_queue@, exploration_map.grid(), w, h, skel, topology_map.spec_nodes().dom()),
                seeds_have_nodes(exploration_map.grid(), w, h, topology_map.spec_nodes()),
                seed_entries_have_nodes(bfs_queue@, topology_map.spec_nodes()),
                merged_on_polylines(exploration_map.grid(), w, h, topology_map),
                edges_prop(topology_map, w, h),
                topology_map.spec_nodes().dom() == dom,
                topology_map.spec_node_id_alloc() == old(topology_map).spec_node_id_alloc(),
                forall|nid: u32|
                    #[trigger] old(topology_map).spec_nodes().contains_key(nid) ==> topology_map
                        .spec_nodes()[nid].spec_id() == old(topology_map).spec_nodes()[nid]
                        .spec_id() && topology_map.spec_nodes()[nid].spec_info() == old(topology_map).spec_nodes()[nid].spec_info(),
                g0.len() == exploration_map.grid().len(),
                forall|k: int|
                    0 <= k < g0.len() && (#[trigger] g0[k]).cell_state != CellState::Unvisited
                        ==> exploration_map.grid()[k].cell_state != CellState::Unvisited,
                topology_map.spec_edge_id_alloc() + bfs_queue@.len() + 9 * count_unvisited(
                    exploration_map,
                ) <= psi0,
                psi0 <= 1 + 11 * (h * w),
                count_unvisited(exploration_map) <= count_unvisited_of(g0),
                hyp ==> (bfs_queue@ == q0 && exploration_map.grid() == g0) || count_unvisited(
                    exploration_map,
                ) < count_unvisited_of(g0),
            decreases count_unvisited(exploration_map), bfs_queue@.len(),
        {
            let ghost gpre = exploration_map.grid();
            let ghost qpre = bfs_queue@;
            let data = bfs_queue.pop_front().unwrap();
            proof {
                assert(entry_ok(data, gpre, w, h, skel, dom));
                assert(data.prev_pos == data.pos ==> topology_map.spec_nodes().contains_key(
                    data.root_node,
                ) && topology_map.spec_nodes()[data.root_node].spec_info().position == (Vector2I {
                    x: data.pos.0 as i64,
                    y: data.pos.1 as i64,
                }));
                assert forall|i: int|
                    0 <= i < bfs_queue@.len() && (#[trigger] bfs_queue@[i]).prev_pos
                        == bfs_queue@[i].pos implies topology_map.spec_nodes().contains_key(
                    bfs_queue@[i].root_node,
                ) && topology_map.spec_nodes()[bfs_queue@[i].root_node].spec_info().position
                    == (Vector2I { x: bfs_queue@[i].pos.0 as i64, y: bfs_queue@[i].pos.1 as i64 }) by {
                    assert(qpre[i + 1] == bfs_queue@[i]);
                }
                crate::grid_map::GridMap::lemma_row_major(
                    data.pos.1 as int,
                    data.pos.0 as int,
                    h,
                    w,
                );
            }
            let pos = data.pos;
            let cell = exploration_map.get(pos.0, pos.1);
            if cell.cell_state == CellState::Merged {
                // Already merged into an edge: discard.  (In the untouched
                // initial state the first entry's cell is still unvisited,
                // so this branch never comes first.)
                proof {
                    assert(cell == expl_cell_at(gpre, w, pos.0 as int, pos.1 as int));
                    if hyp && qpre == q0 && gpre == g0 {
                        assert(data == q0[0]);
                        assert(cell.cell_state == CellState::Unvisited);
                        assert(false);
                    }
                }
                continue ;
            }
            if cell.cell_state == CellState::Visited {
                // Collision with another frontier: merge and emit an edge.
                proof {
                    if hyp && qpre == q0 && gpre == g0 {
                        assert(data == q0[0]);
                        assert(false);
                    }
                    assert(expl_cell_at(
                        exploration_map.grid(),
                        w,
                        data.prev_pos.0 as int,
                        data.prev_pos.1 as int,
                    ).cell_state != CellState::Unvisited) by {
                        if data.prev_pos == data.pos {
                            crate::grid_map::GridMap::lemma_row_major(
                                data.pos.1 as int,
                                data.pos.0 as int,
                                h,
                                w,
                            );
                        }
                    }
                    assert(h * w <= 16384 * 16384) by (nonlinear_arith)
                        requires
                            0 <= h <= 16384,
                            0 <= w <= 16384,
                    ;
                    assert(topology_map.spec_edge_id_alloc() < u32::MAX);
                }
                let ghost tm_pre = *topology_map;
                Self::merge_and_add_edge(
                    topology_map,
                    exploration_map,
                    data.prev_pos,
                    pos,
                    Ghost(skel),
                );
                proof {
                    assert forall|k: int|
                        0 <= k < gpre.len() && (#[trigger] gpre[k]).cell_state
                            != CellState::Unvisited implies exploration_map.grid()[k].cell_state
                        != CellState::Unvisited && exploration_map.grid()[k].root_node
                        == gpre[k].root_node by {
                        assert(record_advanced(gpre[k], exploration_map.grid()[k]));
                    }
                    lemma_queue_ok_monotone(
                        bfs_queue@,
                        gpre,
                        exploration_map.grid(),
                        w,
                        h,
                        skel,
                        dom,
                        dom,
                    );
                    assert forall|nid: u32|
                        #[trigger] old(topology_map).spec_nodes().contains_key(nid) implies topology_map
                        .spec_nodes()[nid].spec_id() == old(topology_map).spec_nodes()[nid]
                        .spec_id() && topology_map.spec_nodes()[nid].spec_info() == old(topology_map).spec_nodes()[nid].spec_info() by {
                        assert(tm_pre.spec_nodes().contains_key(nid));
                    }
                    assert forall|nid: u32|
                        #[trigger] tm_pre.spec_nodes().contains_key(nid) implies topology_map
                        .spec_nodes().contains_key(nid) && topology_map.spec_nodes()[nid]
                        .spec_info() == tm_pre.spec_nodes()[nid].spec_info() by {}
                    assert(seeds_have_nodes(
                        exploration_map.grid(),
                        w,
                        h,
                        topology_map.spec_nodes(),
                    )) by {
                        assert forall|x: int, y: int|
                            0 <= x < w && 0 <= y < h && (#[trigger] expl_cell_at(
                                exploration_map.grid(),
                                w,
                                x,
                                y,
                            )).cell_state != CellState::Unvisited && expl_cell_at(
                                exploration_map.grid(),
                                w,
                                x,
                                y,
                            ).prev_pos.0 == x && expl_cell_at(
                                exploration_map.grid(),
                                w,
                                x,
                                y,
                            ).prev_pos.1 == y implies {
                            let c = expl_cell_at(exploration_map.grid(), w, x, y);
                            &&& c.root_node is Some
                            &&& topology_map.spec_nodes().contains_key(c.root_node->0)
                            &&& topology_map.spec_nodes()[c.root_node->0].spec_info().position
                                == (Vector2I { x: x as i64, y: y as i64 })
                        } by {
                            crate::grid_map::GridMap::lemma_row_major(y, x, h, w);
                            assert(record_advanced(gpre[y * w + x], exploration_map.grid()[y * w
                                + x]));
                            let c_old = gpre[y * w + x];
                            assert(expl_cell_at(gpre, w, x, y) == c_old);
                            assert(c_old.cell_state != CellState::Unvisited);
                            assert(c_old.prev_pos.0 == x && c_old.prev_pos.1 == y);
                            assert(tm_pre.spec_nodes().contains_key(c_old.root_node->0)
                                && tm_pre.spec_nodes()[c_old.root_node->0].spec_info().position
                                == (Vector2I { x: x as i64, y: y as i64 }));
                        }
                    }
                    assert(seed_entries_have_nodes(bfs_queue@, topology_map.spec_nodes()));
                    // A merged cell is either an old one, still on its old
                    // edge, or a cell of the new edge's polyline.
                    let new_eid = tm_pre.spec_edge_id_alloc();
                    let this_chain = chain_of(
                        gpre,
                        w,
                        (data.prev_pos.0 as int, data.prev_pos.1 as int),
                    );
                    let other_chain = chain_of(gpre, w, (pos.0 as int, pos.1 as int));
                    let combined = this_chain + other_chain.reverse();
                    let wps = topology_map.spec_edges()[new_eid].spec_info().spec_waypoints();
                    assert(merged_on_polylines(
                        exploration_map.grid(),
                        w,
                        h,
                        topology_map,
                    )) by {
                        assert forall|x: int, y: int|
                            0 <= x < w && 0 <= y < h && (#[trigger] expl_cell_at(
                                exploration_map.grid(),
                                w,
                                x,
                                y,
                            )).cell_state == CellState::Merged implies exists|eid: u32|
                            #[trigger] topology_map.spec_edges().contains_key(eid)
                                && topology_map.spec_edges()[eid].spec_info().spec_waypoints()
                                .contains(Vector2I { x: x as i64, y: y as i64 }) by {
                            crate::grid_map::GridMap::lemma_row_major(y, x, h, w);
                            let k = y * w + x;
                            if exploration_map.grid()[k] == gpre[k] {
                                assert(expl_cell_at(gpre, w, x, y).cell_state == CellState::Merged);
                                let eid0 = choose|eid0: u32|
                                    #[trigger] tm_pre.spec_edges().contains_key(eid0)
                                        && tm_pre.spec_edges()[eid0].spec_info().spec_waypoints()
                                        .contains(Vector2I { x: x as i64, y: y as i64 });
                                assert(topology_map.spec_edges().contains_key(eid0)
                                    && topology_map.spec_edges()[eid0] == tm_pre.spec_edges()[eid0]);
                            } else {
                                seq_util::lemma_row_major_divmod(y, x, w);
                                assert(combined.contains((x, y)));
                                let ci = choose|ci: int|
                                    0 <= ci < combined.len() && combined[ci] == (x, y);
                                assert(to_vector2(combined)[ci] == (Vector2I {
                                    x: x as i64,
                                    y: y as i64,
                                }));
                                assert(to_vector2(combined).contains(Vector2I {
                                    x: x as i64,
                                    y: y as i64,
                                }));
                                assert(to_vector2(combined).reverse()[to_vector2(combined).len()
                                    - 1 - ci] == (Vector2I { x: x as i64, y: y as i64 }));
                                assert(to_vector2(combined).reverse().contains(Vector2I {
                                    x: x as i64,
                                    y: y as i64,
                                }));
                                assert(wps.contains(Vector2I { x: x as i64, y: y as i64 }));
                                assert(topology_map.spec_edges().contains_key(new_eid));
                            }
                        }
                    }
                }
                continue ;
            }
            // Unvisited: claim the cell for this frontier.
            let ghost new_depth: nat = if data.prev_pos == data.pos {
                0
            } else {
                expl_cell_at(gpre, w, data.prev_pos.0 as int, data.prev_pos.1 as int).depth@ + 1
            };
            let new_cell = ExplorationData {
                cell_state: CellState::Visited,
                root_node: Some(data.root_node),
                prev_pos: data.prev_pos,
                depth: Ghost(new_depth),
            };
            exploration_map.set(pos.0, pos.1, new_cell);
            proof {
                lemma_visit_preserves(gpre, exploration_map.grid(), w, h, skel, dom, data, new_cell);
                assert forall|k: int|
                    0 <= k < gpre.len() && (#[trigger] gpre[k]).cell_state != CellState::Unvisited
                        implies exploration_map.grid()[k].cell_state != CellState::Unvisited
                    && exploration_map.grid()[k].root_node == gpre[k].root_node by {
                    assert(gpre[pos.1 * w + pos.0].cell_state == CellState::Unvisited);
                    assert(k != pos.1 * w + pos.0);
                }
                lemma_queue_ok_monotone(
                    bfs_queue@,
                    gpre,
                    exploration_map.grid(),
                    w,
                    h,
                    skel,
                    dom,
                    dom,
                );
                seq_util::lemma_count_if_update(
                    gpre,
                    |c: ExplorationData| c.cell_state == CellState::Unvisited,
                    pos.1 * w + pos.0,
                    new_cell,
                );
                assert(merged_on_polylines(
                    exploration_map.grid(),
                    w,
                    h,
                    topology_map,
                )) by {
                    assert forall|x: int, y: int|
                        0 <= x < w && 0 <= y < h && (#[trigger] expl_cell_at(
                            exploration_map.grid(),
                            w,
                            x,
                            y,
                        )).cell_state == CellState::Merged implies exists|eid: u32|
                        #[trigger] topology_map.spec_edges().contains_key(eid)
                            && topology_map.spec_edges()[eid].spec_info().spec_waypoints().contains(
                            Vector2I { x: x as i64, y: y as i64 },
                        ) by {
                        crate::grid_map::GridMap::lemma_row_major(y, x, h, w);
                        assert(y * w + x != pos.1 * w + pos.0);
                        assert(expl_cell_at(gpre, w, x, y).cell_state == CellState::Merged);
                    }
                }
                assert(seeds_have_nodes(
                    exploration_map.grid(),
                    w,
                    h,
                    topology_map.spec_nodes(),
                )) by {
                    assert forall|x: int, y: int|
                        0 <= x < w && 0 <= y < h && (#[trigger] expl_cell_at(
                            exploration_map.grid(),
                            w,
                            x,
                            y,
                        )).cell_state != CellState::Unvisited && expl_cell_at(
                            exploration_map.grid(),
                            w,
                            x,
                            y,
                        ).prev_pos.0 == x && expl_cell_at(
                            exploration_map.grid(),
                            w,
                            x,
                            y,
                        ).prev_pos.1 == y implies {
                        let c = expl_cell_at(exploration_map.grid(), w, x, y);
                        &&& c.root_node is Some
                        &&& topology_map.spec_nodes().contains_key(c.root_node->0)
                        &&& topology_map.spec_nodes()[c.root_node->0].spec_info().position
                            == (Vector2I { x: x as i64, y: y as i64 })
                    } by {
                        crate::grid_map::GridMap::lemma_row_major(y, x, h, w);
                        if y * w + x == pos.1 * w + pos.0 {
                            seq_util::lemma_row_major_divmod(y, x, w);
                            seq_util::lemma_row_major_divmod(pos.1 as int, pos.0 as int, w);
                            assert(x == pos.0 && y == pos.1);
                            assert(expl_cell_at(exploration_map.grid(), w, x, y) == new_cell);
                        } else {
                            assert(expl_cell_at(exploration_map.grid(), w, x, y) == gpre[y * w
                                + x]);
                            assert(expl_cell_at(gpre, w, x, y) == gpre[y * w + x]);
                        }
                    }
                }
            }
            // Expand: mark the foreground neighbors, suppress the diagonals
            // beside each foreground cardinal, and enqueue what remains.
            let mut visit_mask: Vec<bool> = Vec::new();
            let mut i: usize = 0;
            while i < 8
                invariant
                    skeleton.wf(),
                    skeleton.spec_width() == width,
                    skeleton.spec_height() == height,
                    width <= 16384,
                    height <= 16384,
                    w == width as int,
                    h == height as int,
                    skel == skeleton.grid(),
                    pos.0 < width,
                    pos.1 < height,
                    i <= 8,
                    visit_mask@.len() == i,
                    forall|k: int|
                        0 <= k < i && (#[trigger] visit_mask@[k]) ==> {
                            let nx = pos.0 + ring_dx(k);
                            let ny = pos.1 + ring_dy(k);
                            &&& 0 <= nx < w
                            &&& 0 <= ny < h
                            &&& BoolGrid::at(skel, w, ny, nx)
                        },
                decreases 8 - i,
            {
                let mut fg = false;
                match Self::get_neighboring_pos(pos, (width, height), i) {
                    Some(p) => {
                        if skeleton.get(p.1, p.0) {
                            fg = true;
                        }
                    },
                    None => {},
                }
                visit_mask.push(fg);
                i += 1;
            }
            let mut i2: usize = 0;
            while i2 < 4
                invariant
                    skeleton.wf(),
                    skeleton.spec_width() == width,
                    skeleton.spec_height() == height,
                    width <= 16384,
                    height <= 16384,
                    w == width as int,
                    h == height as int,
                    skel == skeleton.grid(),
                    pos.0 < width,
                    pos.1 < height,
                    i2 <= 4,
                    visit_mask@.len() == 8,
                    forall|k: int|
                        0 <= k < 8 && (#[trigger] visit_mask@[k]) ==> {
                            let nx = pos.0 + ring_dx(k);
                            let ny = pos.1 + ring_dy(k);
                            &&& 0 <= nx < w
                            &&& 0 <= ny < h
                            &&& BoolGrid::at(skel, w, ny, nx)
                        },
                decreases 4 - i2,
            {
                match Self::get_neighboring_pos(pos, (width, height), 2 * i2) {
                    Some(p) => {
                        if skeleton.get(p.1, p.0) {
                            visit_mask.set((8 + 2 * i2 - 1) % 8, false);
                            visit_mask.set((8 + 2 * i2 + 1) % 8, false);
                        }
                    },
                    None => {},
                }
                i2 += 1;
            }
            let ghost qlen_before = bfs_queue@.len();
            let mut neighbor: usize = 0;
            while neighbor < 8
                invariant
                    skeleton.wf(),
                    skeleton.spec_width() == width,
                    skeleton.spec_height() == height,
                    width <= 16384,
                    height <= 16384,
                    w == width as int,
                    h == height as int,
                    skel == skeleton.grid(),
                    pos.0 < width,
                    pos.1 < height,
                    neighbor <= 8,
                    visit_mask@.len() == 8,
                    forall|k: int|
                        0 <= k < 8 && (#[trigger] visit_mask@[k]) ==> {
                            let nx = pos.0 + ring_dx(k);
                            let ny = pos.1 + ring_dy(k);
                            &&& 0 <= nx < w
                            &&& 0 <= ny < h
                            &&& BoolGrid::at(skel, w, ny, nx)
                        },
                    expl_cell_at(exploration_map.grid(), w, pos.0 as int, pos.1 as int).cell_state
                        != CellState::Unvisited,
                    expl_cell_at(exploration_map.grid(), w, pos.0 as int, pos.1 as int).root_node
                        == Some(data.root_node),
                    dom.contains(data.root_node),
                    exploration_map.spec_width() == width,
                    exploration_map.spec_height() == height,
                    exploration_map.wf(),
                    queue_ok(bfs_queue@, exploration_map.grid(), w, h, skel, dom),
                    seed_entries_have_nodes(bfs_queue@, topology_map.spec_nodes()),
                    bfs_queue@.len() <= qlen_before + neighbor,
                decreases 8 - neighbor,
            {
                if visit_mask[neighbor] {
                    match Self::get_neighboring_pos(pos, (width, height), neighbor) {
                        Some(neighbor_pos) => {
                            if !(neighbor_pos.0 == data.prev_pos.0 && neighbor_pos.1
                                == data.prev_pos.1) {
                                let ncell = exploration_map.get(neighbor_pos.0, neighbor_pos.1);
                                if ncell.cell_state == CellState::Unvisited {
                                    bfs_queue.push_back(
                                        BfsData {
                                            root_node: data.root_node,
                                            pos: neighbor_pos,
                                            prev_pos: pos,
                                        },
                                    );
                                    proof {
                                        crate::grid_map::GridMap::lemma_row_major(
                                            pos.1 as int,
                                            pos.0 as int,
                                            h,
                                            w,
                                        );
                                        // An expansion entry is never its
                                        // own predecessor: the ring offsets
                                        // are non-zero.
                                        assert(ring_dx(neighbor as int) != 0 || ring_dy(
                                            neighbor as int,
                                        ) != 0);
                                        assert(neighbor_pos.0 != pos.0 || neighbor_pos.1
                                            != pos.1);
                                        assert(seed_entries_have_nodes(
                                            bfs_queue@,
                                            topology_map.spec_nodes(),
                                        ));
                                    }
                                }
                            }
                        },
                        None => {},
                    }
                }
                neighbor += 1;
            }
        }
    }

    /// Walk both colliding frontiers back to their seeds, marking the
    /// traversed cells (all but the seeds) merged, and add one edge whose
    /// polyline is exactly this side's chain joined with the other side's
    /// chain reversed, oriented to run from the lower root ID to the upper.
    #[verifier::rlimit(100)]
    fn merge_and_add_edge(
        topology_map: &mut Graph<TopologyNode, TopologyEdge>,
        exploration_map: &mut ExplorationGrid,
        this_side_prev_pos: (usize, usize),
        other_side_pos: (usize, usize),
        Ghost(skel): Ghost<Seq<bool>>,
    )
        requires
            old(topology_map).wf(),
            old(topology_map).spec_edge_id_alloc() < u32::MAX,
            expl_inv(old(exploration_map), skel, old(topology_map).spec_nodes().dom()),
            old(exploration_map).spec_width() <= 16384,
            old(exploration_map).spec_height() <= 16384,
            this_side_prev_pos.0 < old(exploration_map).spec_width(),
            this_side_prev_pos.1 < old(exploration_map).spec_height(),
            other_side_pos.0 < old(exploration_map).spec_width(),
            other_side_pos.1 < old(exploration_map).spec_height(),
            expl_cell(
                old(exploration_map),
                this_side_prev_pos.0 as int,
                this_side_prev_pos.1 as int,
            ).cell_state != CellState::Unvisited,
            expl_cell(
                old(exploration_map),
                other_side_pos.0 as int,
                other_side_pos.1 as int,
            ).cell_state != CellState::Unvisited,
            seeds_have_nodes(
                old(exploration_map).grid(),
                old(exploration_map).spec_width() as int,
                old(exploration_map).spec_height() as int,
                old(topology_map).spec_nodes(),
            ),
        ensures
            final(topology_map).wf(),
            expl_inv(final(exploration_map), skel, final(topology_map).spec_nodes().dom()),
            final(exploration_map).spec_width() == old(exploration_map).spec_width(),
            final(exploration_map).spec_height() == old(exploration_map).spec_height(),
            forall|k: int|
                0 <= k < old(exploration_map).grid().len() ==> record_advanced(
                    #[trigger] old(exploration_map).grid()[k],
                    final(exploration_map).grid()[k],
                ),
            count_unvisited(final(exploration_map)) == count_unvisited(old(exploration_map)),
            final(topology_map).spec_nodes().dom() == old(topology_map).spec_nodes().dom(),
            forall|nid: u32|
                #[trigger] old(topology_map).spec_nodes().contains_key(nid) ==> final(topology_map).spec_nodes()[nid].spec_id() == old(topology_map).spec_nodes()[nid].spec_id()
                    && final(topology_map).spec_nodes()[nid].spec_info() == old(topology_map).spec_nodes()[nid].spec_info(),
            final(topology_map).spec_node_id_alloc() == old(topology_map).spec_node_id_alloc(),
            final(topology_map).spec_edge_id_alloc() == old(topology_map).spec_edge_id_alloc() + 1,
            final(topology_map).spec_edges().dom() == old(topology_map).spec_edges().dom().insert(
                old(topology_map).spec_edge_id_alloc(),
            ),
            forall|e: u32|
                e != old(topology_map).spec_edge_id_alloc() && old(topology_map).spec_edges().contains_key(e) ==> #[trigger] final(topology_map).spec_edges()[e]
                    == old(topology_map).spec_edges()[e],
            ({
                let wps = final(topology_map).spec_edges()[old(topology_map).spec_edge_id_alloc()].spec_info().spec_waypoints();
                &&& wps.len() >= 1
                &&& forall|k: int|
                    0 <= k < wps.len() ==> 0 <= (#[trigger] wps[k]).x < old(exploration_map).spec_width() && 0 <= wps[k].y < old(exploration_map).spec_height()
            }),
            ({
                let g0v = old(exploration_map).grid();
                let wi = old(exploration_map).spec_width() as int;
                let this_chain = chain_of(
                    g0v,
                    wi,
                    (this_side_prev_pos.0 as int, this_side_prev_pos.1 as int),
                );
                let other_chain = chain_of(
                    g0v,
                    wi,
                    (other_side_pos.0 as int, other_side_pos.1 as int),
                );
                let r1 = expl_cell_at(
                    g0v,
                    wi,
                    this_side_prev_pos.0 as int,
                    this_side_prev_pos.1 as int,
                ).root_node->0;
                let r2 = expl_cell_at(
                    g0v,
                    wi,
                    other_side_pos.0 as int,
                    other_side_pos.1 as int,
                ).root_node->0;
                let e = final(topology_map).spec_edges()[old(topology_map).spec_edge_id_alloc()];
                &&& e.spec_node1() == (if r1 < r2 {
                    r1
                } else {
                    r2
                })
                &&& e.spec_node2() == (if r1 < r2 {
                    r2
                } else {
                    r1
                })
                &&& e.spec_info().spec_waypoints() == (if r1 < r2 {
                    to_vector2(this_chain + other_chain.reverse())
                } else {
                    to_vector2(this_chain + other_chain.reverse()).reverse()
                })
                &&& forall|k: int|
                    0 <= k < g0v.len() ==> final(exploration_map).grid()[k] == #[trigger] g0v[k]
                        || (this_chain + other_chain.reverse()).contains((k % wi, k / wi))
                &&& e.spec_info().spec_waypoints()[0] == final(topology_map).spec_nodes()[e.spec_node1()].spec_info().position
                &&& e.spec_info().spec_waypoints()[e.spec_info().spec_waypoints().len() - 1]
                    == final(topology_map).spec_nodes()[e.spec_node2()].spec_info().position
                &&& forall|i: int|
                    1 <= i < this_chain.len() ==> expl_cell_at(
                        final(exploration_map).grid(),
                        wi,
                        (#[trigger] this_chain[i]).0,
                        this_chain[i].1,
                    ).cell_state == CellState::Merged
                &&& forall|i: int|
                    1 <= i < other_chain.len() ==> expl_cell_at(
                        final(exploration_map).grid(),
                        wi,
                        (#[trigger] other_chain[i]).0,
                        other_chain[i].1,
                    ).cell_state == CellState::Merged
            }),
    {
        let ghost g0 = exploration_map.grid();
        let ghost dom = topology_map.spec_nodes().dom();
        let width = exploration_map.width();
        let height = exploration_map.height();
        let ghost wi = width as int;
        let ghost hi = height as int;
        let ghost this_start = (this_side_prev_pos.0 as int, this_side_prev_pos.1 as int);
        let ghost other_start = (other_side_pos.0 as int, other_side_pos.1 as int);
        let ghost this_chain = chain_of(g0, wi, this_start);
        let ghost other_chain = chain_of(g0, wi, other_start);
        let mut waypoints_temp: VecDeque<(usize, usize)> = VecDeque::new();

        // Walk this side back to its seed.
        let mut this_side_pos = this_side_prev_pos;
        let this_side_root: u32 = match exploration_map.get(this_side_pos.0, this_side_pos.1)
            .root_node {
            Some(rid) => rid,
            None => 0,
        };
        proof {
            assert(claimed_ok(g0, wi, hi, skel, dom, this_start.0, this_start.1));
            assert(this_side_root == expl_cell_at(g0, wi, this_start.0, this_start.1).root_node->0);
        }
        loop
            invariant_except_break
                this_chain == chain_of(
                    g0,
                    wi,
                    (this_side_pos.0 as int, this_side_pos.1 as int),
                ) + pos_pairs(waypoints_temp@),
                forall|i: int|
                    0 <= i < waypoints_temp@.len() ==> expl_cell_at(
                        exploration_map.grid(),
                        wi,
                        (#[trigger] waypoints_temp@[i]).0 as int,
                        waypoints_temp@[i].1 as int,
                    ).cell_state == CellState::Merged,
            invariant
                exploration_map.wf(),
                exploration_map.spec_width() == width,
                exploration_map.spec_height() == height,
                wi == width as int,
                hi == height as int,
                skel.len() == height * width,
                expl_inv(exploration_map, skel, dom),
                expl_inv_raw(g0, wi, hi, skel, dom),
                this_chain == chain_of(g0, wi, this_start),
                this_side_pos.0 < width,
                this_side_pos.1 < height,
                expl_cell(exploration_map, this_side_pos.0 as int, this_side_pos.1 as int)
                    .cell_state != CellState::Unvisited,
                g0.len() == exploration_map.grid().len(),
                forall|k: int|
                    0 <= k < g0.len() ==> record_advanced(
                        #[trigger] g0[k],
                        exploration_map.grid()[k],
                    ),
                forall|k: int|
                    0 <= k < g0.len() ==> exploration_map.grid()[k] == #[trigger] g0[k]
                        || pos_pairs(waypoints_temp@).contains((k % wi, k / wi)),
                forall|i: int|
                    0 <= i < waypoints_temp@.len() ==> (#[trigger] waypoints_temp@[i]).0 < width
                        && waypoints_temp@[i].1 < height,
            ensures
                exploration_map.wf(),
                exploration_map.spec_width() == width,
                exploration_map.spec_height() == height,
                expl_inv(exploration_map, skel, dom),
                g0.len() == exploration_map.grid().len(),
                forall|k: int|
                    0 <= k < g0.len() ==> record_advanced(
                        #[trigger] g0[k],
                        exploration_map.grid()[k],
                    ),
                forall|k: int|
                    0 <= k < g0.len() ==> exploration_map.grid()[k] == #[trigger] g0[k]
                        || pos_pairs(waypoints_temp@).contains((k % wi, k / wi)),
                waypoints_temp@.len() >= 1,
                pos_pairs(waypoints_temp@) == this_chain,
                forall|i: int|
                    0 <= i < waypoints_temp@.len() ==> (#[trigger] waypoints_temp@[i]).0 < width
                        && waypoints_temp@[i].1 < height,
                forall|i: int|
                    1 <= i < waypoints_temp@.len() ==> expl_cell_at(
                        exploration_map.grid(),
                        wi,
                        (#[trigger] waypoints_temp@[i]).0 as int,
                        waypoints_temp@[i].1 as int,
                    ).cell_state == CellState::Merged,
            decreases expl_cell(exploration_map, this_side_pos.0 as int, this_side_pos.1 as int)
                .depth@,
        {
            let ghost cur = (this_side_pos.0 as int, this_side_pos.1 as int);
            let ghost deque_pre = waypoints_temp@;
            waypoints_temp.push_front(this_side_pos);
            let cell = exploration_map.get(this_side_pos.0, this_side_pos.1);
            let prev_pos = cell.prev_pos;
            proof {
                // Pushing only grows the set of collected pixels.
                assert forall|k: int|
                    0 <= k < g0.len() && !(exploration_map.grid()[k] == g0[k]) implies pos_pairs(
                    waypoints_temp@,
                ).contains((k % wi, k / wi)) by {
                    let p = (k % wi, k / wi);
                    assert(pos_pairs(deque_pre).contains(p));
                    let i = choose|i: int| 0 <= i < pos_pairs(deque_pre).len() && pos_pairs(
                        deque_pre,
                    )[i] == p;
                    assert(pos_pairs(waypoints_temp@)[i + 1] == p);
                }
                // The walked cell's record is still the one the search
                // wrote; follow the original predecessor.
                crate::grid_map::GridMap::lemma_row_major(cur.1, cur.0, hi, wi);
                assert(record_advanced(g0[cur.1 * wi + cur.0], exploration_map.grid()[cur.1 * wi
                    + cur.0]));
                assert(cell.prev_pos == expl_cell_at(g0, wi, cur.0, cur.1).prev_pos);
                assert(cell.depth == expl_cell_at(g0, wi, cur.0, cur.1).depth);
                assert(expl_cell_at(g0, wi, cur.0, cur.1).cell_state != CellState::Unvisited);
                assert(claimed_ok(g0, wi, hi, skel, dom, cur.0, cur.1));
                assert(pos_pairs(waypoints_temp@) =~= seq![cur] + pos_pairs(
                    waypoints_temp@.drop_first(),
                ));
            }
            if prev_pos.0 == this_side_pos.0 && prev_pos.1 == this_side_pos.1 {
                proof {
                    assert(chain_of(g0, wi, cur) =~= seq![cur]);
                    assert(pos_pairs(waypoints_temp@) =~= this_chain);
                }
                break ;
            }
            proof {
                let prev = (prev_pos.0 as int, prev_pos.1 as int);
                // One chain step: the chain of the current cell is the
                // chain of its predecessor plus the cell itself.
                assert(expl_cell_at(g0, wi, cur.0, cur.1).depth@ >= 1);
                lemma_chain_fuel(
                    g0,
                    wi,
                    hi,
                    skel,
                    dom,
                    prev,
                    (expl_cell_at(g0, wi, cur.0, cur.1).depth@ - 1) as nat,
                );
                assert(chain_of(g0, wi, cur) == chain_of(g0, wi, prev) + seq![cur]);
                assert(this_chain =~= chain_of(g0, wi, prev) + pos_pairs(waypoints_temp@));
                assert(claimed_ok(
                    exploration_map.grid(),
                    wi,
                    hi,
                    skel,
                    dom,
                    cur.0,
                    cur.1,
                ));
            }
            let ghost gpre = exploration_map.grid();
            exploration_map.set(
                this_side_pos.0,
                this_side_pos.1,
                ExplorationData { cell_state: CellState::Merged, ..cell },
            );
            proof {
                lemma_merge_set_preserves(
                    gpre,
                    exploration_map.grid(),
                    wi,
                    hi,
                    skel,
                    dom,
                    cur.0,
                    cur.1,
                );
                assert forall|k: int|
                    0 <= k < g0.len() && !(exploration_map.grid()[k] == g0[k]) implies pos_pairs(
                    waypoints_temp@,
                ).contains((k % wi, k / wi)) by {
                    if k == cur.1 * wi + cur.0 {
                        seq_util::lemma_row_major_divmod(cur.1, cur.0, wi);
                        assert(pos_pairs(waypoints_temp@)[0] == (k % wi, k / wi));
                    } else {
                        assert(exploration_map.grid()[k] == gpre[k]);
                    }
                }

                crate::grid_map::GridMap::lemma_row_major(
                    prev_pos.1 as int,
                    prev_pos.0 as int,
                    hi,
                    wi,
                );
                seq_util::lemma_row_major_divmod(prev_pos.1 as int, prev_pos.0 as int, wi);
                seq_util::lemma_row_major_divmod(cur.1, cur.0, wi);
                assert(prev_pos.1 * width + prev_pos.0 != cur.1 * wi + cur.0);
                assert(gpre.len() == height * width);
                assert(exploration_map.grid() == gpre.update(
                    cur.1 * wi + cur.0,
                    ExplorationData { cell_state: CellState::Merged, ..cell },
                ));
                assert(exploration_map.grid()[prev_pos.1 * wi + prev_pos.0] == gpre[prev_pos.1
                    * wi + prev_pos.0]);
                assert(expl_cell(exploration_map, prev_pos.0 as int, prev_pos.1 as int)
                    == gpre[prev_pos.1 * wi + prev_pos.0]);
                assert(expl_cell(exploration_map, prev_pos.0 as int, prev_pos.1 as int).cell_state
                    != CellState::Unvisited);
                assert(expl_cell(exploration_map, prev_pos.0 as int, prev_pos.1 as int).depth@
                    < cell.depth@);
                assert forall|i: int| 0 <= i < waypoints_temp@.len() implies expl_cell_at(
                    exploration_map.grid(),
                    wi,
                    (#[trigger] waypoints_temp@[i]).0 as int,
                    waypoints_temp@[i].1 as int,
                ).cell_state == CellState::Merged by {
                    crate::grid_map::GridMap::lemma_row_major(
                        waypoints_temp@[i].1 as int,
                        waypoints_temp@[i].0 as int,
                        hi,
                        wi,
                    );
                }
            }
            this_side_pos = prev_pos;
        }

        // Walk the other side back to its seed.
        let ghost len1 = waypoints_temp@.len() as int;
        let mut other_pos = other_side_pos;
        let other_side_root: u32 = match exploration_map.get(other_pos.0, other_pos.1).root_node {
            Some(rid) => rid,
            None => 0,
        };
        proof {
            crate::grid_map::GridMap::lemma_row_major(
                other_start.1,
                other_start.0,
                hi,
                wi,
            );
            assert(record_advanced(
                g0[other_start.1 * wi + other_start.0],
                exploration_map.grid()[other_start.1 * wi + other_start.0],
            ));
            assert(other_side_root == expl_cell_at(
                g0,
                wi,
                other_start.0,
                other_start.1,
            ).root_node->0);
            assert(expl_cell(exploration_map, other_start.0, other_start.1).cell_state
                != CellState::Unvisited);
            assert(expl_cell_at(g0, wi, other_start.0, other_start.1).cell_state
                != CellState::Unvisited);
            assert(claimed_ok(g0, wi, hi, skel, dom, other_start.0, other_start.1));
            assert(pos_pairs(waypoints_temp@).skip(len1) =~= Seq::<(int, int)>::empty());
            assert(other_chain =~= chain_of(g0, wi, other_start) + pos_pairs(
                waypoints_temp@,
            ).skip(len1).reverse());
        }
        loop
            invariant_except_break
                other_chain == chain_of(g0, wi, (other_pos.0 as int, other_pos.1 as int))
                    + pos_pairs(waypoints_temp@).skip(len1).reverse(),
                forall|i: int|
                    len1 <= i < waypoints_temp@.len() ==> expl_cell_at(
                        exploration_map.grid(),
                        wi,
                        (#[trigger] waypoints_temp@[i]).0 as int,
                        waypoints_temp@[i].1 as int,
                    ).cell_state == CellState::Merged,
            invariant
                exploration_map.wf(),
                exploration_map.spec_width() == width,
                exploration_map.spec_height() == height,
                wi == width as int,
                hi == height as int,
                skel.len() == height * width,
                expl_inv(exploration_map, skel, dom),
                expl_inv_raw(g0, wi, hi, skel, dom),
                other_chain == chain_of(g0, wi, other_start),
                other_pos.0 < width,
                other_pos.1 < height,
                expl_cell(exploration_map, other_pos.0 as int, other_pos.1 as int).cell_state
                    != CellState::Unvisited,
                g0.len() == exploration_map.grid().len(),
                forall|k: int|
                    0 <= k < g0.len() ==> record_advanced(
                        #[trigger] g0[k],
                        exploration_map.grid()[k],
                    ),
                forall|k: int|
                    0 <= k < g0.len() ==> exploration_map.grid()[k] == #[trigger] g0[k]
                        || pos_pairs(waypoints_temp@).contains((k % wi, k / wi)),
                1 <= len1 <= waypoints_temp@.len(),
                pos_pairs(waypoints_temp@).take(len1) == this_chain,
                forall|i: int|
                    0 <= i < waypoints_temp@.len() ==> (#[trigger] waypoints_temp@[i]).0 < width
                        && waypoints_temp@[i].1 < height,
                forall|i: int|
                    1 <= i < len1 ==> expl_cell_at(
                        exploration_map.grid(),
                        wi,
                        (#[trigger] waypoints_temp@[i]).0 as int,
                        waypoints_temp@[i].1 as int,
                    ).cell_state == CellState::Merged,
            ensures
                exploration_map.wf(),
                exploration_map.spec_width() == width,
                exploration_map.spec_height() == height,
                expl_inv(exploration_map, skel, dom),
                g0.len() == exploration_map.grid().len(),
                forall|k: int|
                    0 <= k < g0.len() ==> record_advanced(
                        #[trigger] g0[k],
                        exploration_map.grid()[k],
                    ),
                forall|k: int|
                    0 <= k < g0.len() ==> exploration_map.grid()[k] == #[trigger] g0[k]
                        || pos_pairs(waypoints_temp@).contains((k % wi, k / wi)),
                waypoints_temp@.len() >= 1,
                pos_pairs(waypoints_temp@) == this_chain + other_chain.reverse(),
                forall|i: int|
                    0 <= i < waypoints_temp@.len() ==> (#[trigger] waypoints_temp@[i]).0 < width
                        && waypoints_temp@[i].1 < height,
                forall|i: int|
                    1 <= i < this_chain.len() ==> expl_cell_at(
                        exploration_map.grid(),
                        wi,
                        (#[trigger] this_chain[i]).0,
                        this_chain[i].1,
                    ).cell_state == CellState::Merged,
                forall|i: int|
                    1 <= i < other_chain.len() ==> expl_cell_at(
                        exploration_map.grid(),
                        wi,
                        (#[trigger] other_chain[i]).0,
                        other_chain[i].1,
                    ).cell_state == CellState::Merged,
            decreases expl_cell(exploration_map, other_pos.0 as int, other_pos.1 as int).depth@,
        {
            let ghost cur = (other_pos.0 as int, other_pos.1 as int);
            let ghost deque_pre = waypoints_temp@;
            waypoints_temp.push_back(other_pos);
            let cell = exploration_map.get(other_pos.0, other_pos.1);
            let prev_pos = cell.prev_pos;
            proof {
                // Pushing only grows the set of collected pixels.
                assert forall|k: int|
                    0 <= k < g0.len() && !(exploration_map.grid()[k] == g0[k]) implies pos_pairs(
                    waypoints_temp@,
                ).contains((k % wi, k / wi)) by {
                    let p = (k % wi, k / wi);
                    assert(pos_pairs(deque_pre).contains(p));
                    let i = choose|i: int| 0 <= i < pos_pairs(deque_pre).len() && pos_pairs(
                        deque_pre,
                    )[i] == p;
                    assert(pos_pairs(waypoints_temp@)[i] == p);
                }
                crate::grid_map::GridMap::lemma_row_major(cur.1, cur.0, hi, wi);
                assert(record_advanced(g0[cur.1 * wi + cur.0], exploration_map.grid()[cur.1 * wi
                    + cur.0]));
                assert(cell.prev_pos == expl_cell_at(g0, wi, cur.0, cur.1).prev_pos);
                assert(cell.depth == expl_cell_at(g0, wi, cur.0, cur.1).depth);
                assert(expl_cell_at(g0, wi, cur.0, cur.1).cell_state != CellState::Unvisited);
                assert(claimed_ok(g0, wi, hi, skel, dom, cur.0, cur.1));
                assert(pos_pairs(waypoints_temp@).take(len1) =~= pos_pairs(
                    waypoints_temp@.drop_last(),
                ).take(len1));
                assert(pos_pairs(waypoints_temp@).skip(len1) =~= pos_pairs(
                    waypoints_temp@.drop_last(),
                ).skip(len1) + seq![cur]);
            }
            if prev_pos.0 == other_pos.0 && prev_pos.1 == other_pos.1 {
                proof {
                    assert(chain_of(g0, wi, cur) =~= seq![cur]);
                    assert(pos_pairs(waypoints_temp@).skip(len1).reverse() =~= seq![cur]
                        + pos_pairs(waypoints_temp@.drop_last()).skip(len1).reverse());
                    assert(pos_pairs(waypoints_temp@).skip(len1).reverse() =~= other_chain);
                    assert(pos_pairs(waypoints_temp@) =~= pos_pairs(waypoints_temp@).take(len1)
                        + pos_pairs(waypoints_temp@).skip(len1));
                    assert(pos_pairs(waypoints_temp@) =~= this_chain + other_chain.reverse());
                    // Every appended cell but the just-pushed seed is merged.
                    let full = pos_pairs(waypoints_temp@);
                    assert forall|i: int| 1 <= i < other_chain.len() implies expl_cell_at(
                        exploration_map.grid(),
                        wi,
                        (#[trigger] other_chain[i]).0,
                        other_chain[i].1,
                    ).cell_state == CellState::Merged by {
                        let j = len1 + (other_chain.len() - 1 - i);
                        assert(other_chain.reverse()[other_chain.len() - 1 - i] == other_chain[i]);
                        assert(full[j] == other_chain[i]);
                        assert(j < waypoints_temp@.len() - 1);
                        assert((waypoints_temp@[j].0 as int, waypoints_temp@[j].1 as int)
                            == other_chain[i]);
                        assert(waypoints_temp@.drop_last()[j] == waypoints_temp@[j]);
                        assert(expl_cell_at(
                            exploration_map.grid(),
                            wi,
                            waypoints_temp@[j].0 as int,
                            waypoints_temp@[j].1 as int,
                        ).cell_state == CellState::Merged);
                    }
                    assert forall|i: int| 1 <= i < this_chain.len() implies expl_cell_at(
                        exploration_map.grid(),
                        wi,
                        (#[trigger] this_chain[i]).0,
                        this_chain[i].1,
                    ).cell_state == CellState::Merged by {
                        assert(this_chain[i] == pos_pairs(waypoints_temp@)[i]);
                        assert((waypoints_temp@[i].0 as int, waypoints_temp@[i].1 as int)
                            == this_chain[i]);
                    }
                }
                break ;
            }
            proof {
                let prev = (prev_pos.0 as int, prev_pos.1 as int);
                assert(expl_cell_at(g0, wi, cur.0, cur.1).depth@ >= 1);
                lemma_chain_fuel(
                    g0,
                    wi,
                    hi,
                    skel,
                    dom,
                    prev,
                    (expl_cell_at(g0, wi, cur.0, cur.1).depth@ - 1) as nat,
                );
                assert(chain_of(g0, wi, cur) == chain_of(g0, wi, prev) + seq![cur]);
                assert(other_chain =~= chain_of(g0, wi, prev) + (pos_pairs(
                    waypoints_temp@,
                ).skip(len1)).reverse());
                assert(claimed_ok(
                    exploration_map.grid(),
                    wi,
                    hi,
                    skel,
                    dom,
                    cur.0,
                    cur.1,
                ));
            }
            let ghost gpre = exploration_map.grid();
            exploration_map.set(
                other_pos.0,
                other_pos.1,
                ExplorationData { cell_state: CellState::Merged, ..cell },
            );
            proof {
                lemma_merge_set_preserves(
                    gpre,
                    exploration_map.grid(),
                    wi,
                    hi,
                    skel,
                    dom,
                    cur.0,
                    cur.1,
                );
                assert forall|k: int|
                    0 <= k < g0.len() && !(exploration_map.grid()[k] == g0[k]) implies pos_pairs(
                    waypoints_temp@,
                ).contains((k % wi, k / wi)) by {
                    if k == cur.1 * wi + cur.0 {
                        seq_util::lemma_row_major_divmod(cur.1, cur.0, wi);
                        assert(pos_pairs(waypoints_temp@)[waypoints_temp@.len() - 1] == (k % wi, k
                            / wi));
                    } else {
                        assert(exploration_map.grid()[k] == gpre[k]);
                    }
                }

                crate::grid_map::GridMap::lemma_row_major(
                    prev_pos.1 as int,
                    prev_pos.0 as int,
                    hi,
                    wi,
                );
                seq_util::lemma_row_major_divmod(prev_pos.1 as int, prev_pos.0 as int, wi);
                seq_util::lemma_row_major_divmod(cur.1, cur.0, wi);
                assert(prev_pos.1 * width + prev_pos.0 != cur.1 * wi + cur.0);
                assert(gpre.len() == height * width);
                assert(exploration_map.grid() == gpre.update(
                    cur.1 * wi + cur.0,
                    ExplorationData { cell_state: CellState::Merged, ..cell },
                ));
                assert(exploration_map.grid()[prev_pos.1 * wi + prev_pos.0] == gpre[prev_pos.1
                    * wi + prev_pos.0]);
                assert(expl_cell(exploration_map, prev_pos.0 as int, prev_pos.1 as int)
                    == gpre[prev_pos.1 * wi + prev_pos.0]);
                assert(expl_cell(exploration_map, prev_pos.0 as int, prev_pos.1 as int).cell_state
                    != CellState::Unvisited);
                assert(expl_cell(exploration_map, prev_pos.0 as int, prev_pos.1 as int).depth@
                    < cell.depth@);
                assert forall|i: int|
                    len1 <= i < waypoints_temp@.len() implies expl_cell_at(
                    exploration_map.grid(),
                    wi,
                    (#[trigger] waypoints_temp@[i]).0 as int,
                    waypoints_temp@[i].1 as int,
                ).cell_state == CellState::Merged by {
                    crate::grid_map::GridMap::lemma_row_major(
                        waypoints_temp@[i].1 as int,
                        waypoints_temp@[i].0 as int,
                        hi,
                        wi,
                    );
                }
                assert forall|i: int| 1 <= i < len1 implies expl_cell_at(
                    exploration_map.grid(),
                    wi,
                    (#[trigger] waypoints_temp@[i]).0 as int,
                    waypoints_temp@[i].1 as int,
                ).cell_state == CellState::Merged by {
                    crate::grid_map::GridMap::lemma_row_major(
                        waypoints_temp@[i].1 as int,
                        waypoints_temp@[i].0 as int,
                        hi,
                        wi,
                    );
                }
            }
            other_pos = prev_pos;
        }

        // Order the polyline from the lower root to the upper.
        let ghost combined = this_chain + other_chain.reverse();
        let lower_group: u32;
        let upper_group: u32;
        let mut waypoints: Vec<Vector2I> = Vec::new();
        let total: usize = waypoints_temp.len();
        if this_side_root < other_side_root {
            lower_group = this_side_root;
            upper_group = other_side_root;
            let mut i: usize = 0;
            while i < total
                invariant
                    total == waypoints_temp@.len(),
                    combined == pos_pairs(waypoints_temp@),
                    i <= total,
                    waypoints@.len() == i,
                    forall|j: int|
                        0 <= j < waypoints_temp@.len() ==> (#[trigger] waypoints_temp@[j]).0
                            < width && waypoints_temp@[j].1 < height,
                    width <= 16384,
                    height <= 16384,
                    forall|j: int|
                        0 <= j < i ==> (#[trigger] waypoints@[j]) == (Vector2I {
                            x: waypoints_temp@[j].0 as i64,
                            y: waypoints_temp@[j].1 as i64,
                        }),
                    forall|j: int|
                        0 <= j < i ==> 0 <= (#[trigger] waypoints@[j]).x < width && 0
                            <= waypoints@[j].y < height,
                decreases total - i,
            {
                let p = waypoints_temp[i];
                waypoints.push(Vector2I { x: p.0 as i64, y: p.1 as i64 });
                i += 1;
            }
            proof {
                assert(waypoints@ =~= to_vector2(combined));
            }
        } else {
            lower_group = other_side_root;
            upper_group = this_side_root;
            let mut i: usize = total;
            while i > 0
                invariant
                    total == waypoints_temp@.len(),
                    combined == pos_pairs(waypoints_temp@),
                    i <= total,
                    waypoints@.len() == total - i,
                    forall|j: int|
                        0 <= j < waypoints_temp@.len() ==> (#[trigger] waypoints_temp@[j]).0
                            < width && waypoints_temp@[j].1 < height,
                    width <= 16384,
                    height <= 16384,
                    forall|j: int|
                        0 <= j < waypoints@.len() ==> (#[trigger] waypoints@[j]) == (Vector2I {
                            x: waypoints_temp@[total - 1 - j].0 as i64,
                            y: waypoints_temp@[total - 1 - j].1 as i64,
                        }),
                    forall|j: int|
                        0 <= j < waypoints@.len() ==> 0 <= (#[trigger] waypoints@[j]).x < width
                            && 0 <= waypoints@[j].y < height,
                decreases i,
            {
                i -= 1;
                let p = waypoints_temp[i];
                waypoints.push(Vector2I { x: p.0 as i64, y: p.1 as i64 });
            }
            proof {
                assert(waypoints@ =~= to_vector2(combined).reverse());
            }
        }

        proof {
            assert(dom.contains(lower_group) && dom.contains(upper_group)) by {
                assert(claimed_ok(g0, wi, hi, skel, dom, this_start.0, this_start.1));
                assert(claimed_ok(g0, wi, hi, skel, dom, other_start.0, other_start.1));
            }
        }
        proof {
            // Each chain begins at its frontier's seed, whose root node
            // stands exactly on that pixel.
            lemma_chain_props(g0, wi, hi, skel, dom, this_start);
            lemma_chain_props(g0, wi, hi, skel, dom, other_start);
        }
        let result = topology_map.add_edge(
            lower_group,
            upper_group,
            TopologyEdge::from_waypoints(waypoints),
        );
        proof {
            assert(result is Ok);
            lemma_advanced_keeps_unvisited(g0, exploration_map.grid());
            let this_seed = this_chain[0];
            let other_seed = other_chain[0];
            assert(topology_map.spec_nodes()[this_side_root].spec_info().position == (Vector2I {
                x: this_seed.0 as i64,
                y: this_seed.1 as i64,
            }));
            assert(topology_map.spec_nodes()[other_side_root].spec_info().position == (Vector2I {
                x: other_seed.0 as i64,
                y: other_seed.1 as i64,
            }));
            assert(combined[0] == this_seed);
            assert(other_chain.reverse()[other_chain.len() - 1] == other_seed);
            assert(combined[combined.len() - 1] == other_seed);
            assert(to_vector2(combined)[0] == (Vector2I {
                x: this_seed.0 as i64,
                y: this_seed.1 as i64,
            }));
            assert(to_vector2(combined)[combined.len() - 1] == (Vector2I {
                x: other_seed.0 as i64,
                y: other_seed.1 as i64,
            }));
            assert(to_vector2(combined).reverse()[0] == to_vector2(combined)[combined.len() - 1]);
            assert(to_vector2(combined).reverse()[combined.len() - 1] == to_vector2(combined)[0]);
        }
    }



    /// The neighbor of `pos` at ring slot `offset_index` within a grid of
    /// dimensions `dim = (width, height)`, if it lies in bounds.
    pub fn get_neighboring_pos(
        pos: (usize, usize),
        dim: (usize, usize),
        offset_index: usize,
    ) -> (r: Option<(usize, usize)>)
        requires
            offset_index < 8,
            pos.0 < dim.0 <= 16384,
            pos.1 < dim.1 <= 16384,
        ensures
            ({
                let nx = pos.0 + ring_dx(offset_index as int);
                let ny = pos.1 + ring_dy(offset_index as int);
                &&& r is Some <==> (0 <= nx < dim.0 && 0 <= ny < dim.1)
                &&& r matches Some(p) ==> p.0 == nx && p.1 == ny
            }),
    {
        let (dx, dy): (i64, i64) = if offset_index == 0 {
            (0, -1)
        } else if offset_index == 1 {
            (1, -1)
        } else if offset_index == 2 {
            (1, 0)
        } else if offset_index == 3 {
            (1, 1)
        } else if offset_index == 4 {
            (0, 1)
        } else if offset_index == 5 {
            (-1, 1)
        } else if offset_index == 6 {
            (-1, 0)
        } else {
            (-1, -1)
        };
        let x: i64 = pos.0 as i64 + dx;
        let y: i64 = pos.1 as i64 + dy;
        if x < 0 || x >= dim.0 as i64 || y < 0 || y >= dim.1 as i64 {
            return None;
        }
        Some((x as usize, y as usize))
    }

    /// Feature score of the interior skeleton pixel `(x, y)`: the number of
    /// connected foreground arcs around it, always between 0 and 4.
    pub fn compute_pixel_score(skeleton: &BoolGrid, x: usize, y: usize) -> (score: i32)
        requires
            skeleton.wf(),
            1 <= x < skeleton.spec_width() - 1,
            1 <= y < skeleton.spec_height() - 1,
        ensures
            score as int == spec_pixel_score(
                skeleton.grid(),
                skeleton.spec_width() as int,
                x as int,
                y as int,
            ),
            0 <= score <= 4,
    {
        let n0 = skeleton.get(y - 1, x);
        let n1 = skeleton.get(y - 1, x + 1);
        let n2 = skeleton.get(y, x + 1);
        let n3 = skeleton.get(y + 1, x + 1);
        let n4 = skeleton.get(y + 1, x);
        let n5 = skeleton.get(y + 1, x - 1);
        let n6 = skeleton.get(y, x - 1);
        let n7 = skeleton.get(y - 1, x - 1);
        let mut adjacent_pixels: i32 = 0;
        if n0 {
            adjacent_pixels += 1;
        }
        if n1 {
            adjacent_pixels += 1;
        }
        if n2 {
            adjacent_pixels += 1;
        }
        if n3 {
            adjacent_pixels += 1;
        }
        if n4 {
            adjacent_pixels += 1;
        }
        if n5 {
            adjacent_pixels += 1;
        }
        if n6 {
            adjacent_pixels += 1;
        }
        if n7 {
            adjacent_pixels += 1;
        }
        let mut contiguous_intervals: i32 = 0;
        if n0 && n1 {
            contiguous_intervals += 1;
        }
        if n1 && n2 {
            contiguous_intervals += 1;
        }
        if n2 && n3 {
            contiguous_intervals += 1;
        }
        if n3 && n4 {
            contiguous_intervals += 1;
        }
        if n4 && n5 {
            contiguous_intervals += 1;
        }
        if n5 && n6 {
            contiguous_intervals += 1;
        }
        if n6 && n7 {
            contiguous_intervals += 1;
        }
        if n7 && n0 {
            contiguous_intervals += 1;
        }
        adjacent_pixels - contiguous_intervals
    }
}

} // verus!
