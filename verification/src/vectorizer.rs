//! Vectorization of a raw topology graph.
//!
//! Every node is copied (in ID order) into a fresh graph; every edge's
//! dense pixel polyline is simplified with a tolerance of one pixel, the
//! interior simplified points become Waypoint nodes, and the chain from one
//! endpoint through the waypoints to the other endpoint is joined by edges
//! carrying empty polylines.  Each chain is reported as a node group.

use vstd::prelude::*;

use std::collections::HashMap;

use crate::graph::Graph;
use crate::simplifier::{coords_bounded, rdp_kept_exact, simplification_ok, WaypointSimplifier};
use crate::topology::{TopologyEdge, TopologyNode, TopologyNodeType};
use crate::vector2i::Vector2I;

verus! {

broadcast use vstd::std_specs::hash::group_hash_axioms;

/// Some edge of `g` joins `a` to `b` (in that orientation) and carries an
/// empty polyline.
pub open spec fn chain_edge(g: Graph<TopologyNode, TopologyEdge>, a: u32, b: u32) -> bool {
    exists|eid: u32|
        {
            &&& #[trigger] g.spec_edges().contains_key(eid)
            &&& g.spec_edges()[eid].spec_node1() == a
            &&& g.spec_edges()[eid].spec_node2() == b
            &&& g.spec_edges()[eid].spec_info().spec_waypoints().len() == 0
        }
}

/// The group `grp` chains, inside `g`, from a node at `pos_u` through
/// Waypoint nodes at the interior points of `kept_pts` to a node at
/// `pos_v`, with an empty-polyline edge between each consecutive pair.
pub open spec fn group_positions_ok(
    g: Graph<TopologyNode, TopologyEdge>,
    grp: Seq<u32>,
    pos_u: Vector2I,
    pos_v: Vector2I,
    kept_pts: Seq<Vector2I>,
) -> bool {
    &&& grp.len() >= 2
    &&& (kept_pts.len() >= 3 ==> grp.len() == kept_pts.len())
    &&& (kept_pts.len() < 3 ==> grp.len() == 2)
    &&& forall|j: int| 0 <= j < grp.len() ==> g.spec_nodes().contains_key(#[trigger] grp[j])
    &&& g.spec_nodes()[grp[0]].spec_info().position == pos_u
    &&& g.spec_nodes()[grp[grp.len() - 1]].spec_info().position == pos_v
    &&& forall|j: int|
        1 <= j < grp.len() - 1 ==> g.spec_nodes()[#[trigger] grp[j]].spec_info() == (TopologyNode {
            node_type: TopologyNodeType::Waypoint,
            position: kept_pts[j],
        })
    &&& forall|j: int| 0 <= j < grp.len() - 1 ==> chain_edge(g, #[trigger] grp[j], grp[j + 1])
}

/// The group `grp` is the vectorization of some edge of `g_old` inside
/// `g_new`: a one-pixel-tolerance simplification of that edge's polyline
/// whose interior points appear as the group's waypoint nodes.
pub open spec fn group_witnessed(
    g_old: Graph<TopologyNode, TopologyEdge>,
    g_new: Graph<TopologyNode, TopologyEdge>,
    grp: Seq<u32>,
) -> bool {
    exists|eid: u32, kept_pts: Seq<Vector2I>, kept: Seq<usize>|
        {
            &&& g_old.spec_edges().contains_key(eid)
            &&& #[trigger] simplification_ok(
                g_old.spec_edges()[eid].spec_info().spec_waypoints(),
                kept_pts,
                kept,
                1,
                1,
            )
            &&& rdp_kept_exact(g_old.spec_edges()[eid].spec_info().spec_waypoints(), kept, 1, 1)
            &&& g_old.spec_nodes().contains_key(g_old.spec_edges()[eid].spec_node1())
            &&& g_old.spec_nodes().contains_key(g_old.spec_edges()[eid].spec_node2())
            &&& group_positions_ok(
                g_new,
                grp,
                g_old.spec_nodes()[g_old.spec_edges()[eid].spec_node1()].spec_info().position,
                g_old.spec_nodes()[g_old.spec_edges()[eid].spec_node2()].spec_info().position,
                kept_pts,
            )
        }
}

/// Total chain edges a group list accounts for: one less than each
/// group's length.
pub open spec fn groups_edge_sum(gs: Seq<Vec<u32>>) -> int
    decreases gs.len(),
{
    if gs.len() == 0 {
        0
    } else {
        groups_edge_sum(gs.drop_last()) + (gs.last()@.len() - 1)
    }
}

/// The edge IDs below `bound`.
pub open spec fn ids_below(bound: u32) -> Set<u32> {
    Set::new(|e: u32| e < bound)
}

/// A witnessed group stays witnessed when the new graph only grows.
proof fn lemma_group_witnessed_stable(
    g_old: Graph<TopologyNode, TopologyEdge>,
    pre: Graph<TopologyNode, TopologyEdge>,
    post: Graph<TopologyNode, TopologyEdge>,
    grp: Seq<u32>,
)
    requires
        group_witnessed(g_old, pre, grp),
        graph_extends(pre, post),
    ensures
        group_witnessed(g_old, post, grp),
{
    let (eid, kept_pts, kept) = choose|eid: u32, kept_pts: Seq<Vector2I>, kept: Seq<usize>|
        {
            &&& g_old.spec_edges().contains_key(eid)
            &&& #[trigger] simplification_ok(
                g_old.spec_edges()[eid].spec_info().spec_waypoints(),
                kept_pts,
                kept,
                1,
                1,
            )
            &&& rdp_kept_exact(g_old.spec_edges()[eid].spec_info().spec_waypoints(), kept, 1, 1)
            &&& g_old.spec_nodes().contains_key(g_old.spec_edges()[eid].spec_node1())
            &&& g_old.spec_nodes().contains_key(g_old.spec_edges()[eid].spec_node2())
            &&& group_positions_ok(
                pre,
                grp,
                g_old.spec_nodes()[g_old.spec_edges()[eid].spec_node1()].spec_info().position,
                g_old.spec_nodes()[g_old.spec_edges()[eid].spec_node2()].spec_info().position,
                kept_pts,
            )
        };
    let pos_u = g_old.spec_nodes()[g_old.spec_edges()[eid].spec_node1()].spec_info().position;
    let pos_v = g_old.spec_nodes()[g_old.spec_edges()[eid].spec_node2()].spec_info().position;
    assert(group_positions_ok(post, grp, pos_u, pos_v, kept_pts)) by {
        assert forall|j: int| 0 <= j < grp.len() - 1 implies chain_edge(
            post,
            #[trigger] grp[j],
            grp[j + 1],
        ) by {
            assert(chain_edge(pre, grp[j], grp[j + 1]));
            let eid2 = choose|eid2: u32|
                {
                    &&& #[trigger] pre.spec_edges().contains_key(eid2)
                    &&& pre.spec_edges()[eid2].spec_node1() == grp[j]
                    &&& pre.spec_edges()[eid2].spec_node2() == grp[j + 1]
                    &&& pre.spec_edges()[eid2].spec_info().spec_waypoints().len() == 0
                };
            assert(post.spec_edges().contains_key(eid2) && post.spec_edges()[eid2]
                == pre.spec_edges()[eid2]);
        }
    }
}

/// `post` extends `pre` without touching what `pre` already holds.
pub open spec fn graph_extends(
    pre: Graph<TopologyNode, TopologyEdge>,
    post: Graph<TopologyNode, TopologyEdge>,
) -> bool {
    &&& forall|nid: u32|
        #[trigger] pre.spec_nodes().contains_key(nid) ==> post.spec_nodes().contains_key(nid)
            && post.spec_nodes()[nid].spec_info() == pre.spec_nodes()[nid].spec_info()
    &&& forall|eid: u32|
        #[trigger] pre.spec_edges().contains_key(eid) ==> post.spec_edges().contains_key(eid)
            && post.spec_edges()[eid] == pre.spec_edges()[eid]
}

/// Length preservation, stated as a law: when an edge's polyline starts at
/// its first node's position and ends at its second node's, the node
/// positions along the vectorized group reproduce the simplified polyline
/// point for point, so the straight-line lengths of consecutive group
/// positions sum to exactly the simplified polyline's length.
pub proof fn lemma_group_reproduces_simplified(
    g: Graph<TopologyNode, TopologyEdge>,
    grp: Seq<u32>,
    pos_u: Vector2I,
    pos_v: Vector2I,
    wps: Seq<Vector2I>,
    kept_pts: Seq<Vector2I>,
    kept: Seq<usize>,
)
    requires
        group_positions_ok(g, grp, pos_u, pos_v, kept_pts),
        simplification_ok(wps, kept_pts, kept, 1, 1),
        wps.len() >= 2,
        pos_u == wps[0],
        pos_v == wps[wps.len() - 1],
    ensures
        grp.len() == kept_pts.len(),
        forall|j: int|
            0 <= j < grp.len() ==> g.spec_nodes()[#[trigger] grp[j]].spec_info().position
                == kept_pts[j],
{
    assert(kept_pts.len() >= 2);
    assert(kept_pts[0] == wps[kept[0] as int]);
    assert(kept_pts[kept_pts.len() - 1] == wps[kept[kept.len() - 1] as int]);
    if kept_pts.len() == 2 {
        assert(grp.len() == 2);
    }
    assert forall|j: int| 0 <= j < grp.len() implies g.spec_nodes()[#[trigger] grp[j]].spec_info()
        .position == kept_pts[j] by {
        if j == 0 {
            assert(kept_pts[0] == wps[0]);
        } else if j == grp.len() - 1 {
            assert(kept_pts[kept_pts.len() - 1] == wps[wps.len() - 1]);
        } else {
            assert(g.spec_nodes()[grp[j]].spec_info() == (TopologyNode {
                node_type: TopologyNodeType::Waypoint,
                position: kept_pts[j],
            }));
        }
    }
}

/// For a graph whose edges start and end at their endpoints' node
/// positions (as the extractor guarantees), every vectorized group
/// reproduces its edge's simplified polyline point for point.
pub proof fn lemma_extracted_group_reproduces(
    g_old: Graph<TopologyNode, TopologyEdge>,
    g_new: Graph<TopologyNode, TopologyEdge>,
    grp: Seq<u32>,
    w: int,
    h: int,
)
    requires
        group_witnessed(g_old, g_new, grp),
        crate::extractor::edges_prop(&g_old, w, h),
    ensures
        exists|eid: u32, kept_pts: Seq<Vector2I>, kept: Seq<usize>|
            {
                &&& g_old.spec_edges().contains_key(eid)
                &&& #[trigger] simplification_ok(
                    g_old.spec_edges()[eid].spec_info().spec_waypoints(),
                    kept_pts,
                    kept,
                    1,
                    1,
                )
                &&& (g_old.spec_edges()[eid].spec_info().spec_waypoints().len() >= 2 ==> {
                    &&& grp.len() == kept_pts.len()
                    &&& forall|j: int|
                        0 <= j < grp.len() ==> g_new.spec_nodes()[#[trigger] grp[j]].spec_info()
                            .position == kept_pts[j]
                })
            },
{
    let (eid, kept_pts, kept) = choose|eid: u32, kept_pts: Seq<Vector2I>, kept: Seq<usize>|
        {
            &&& g_old.spec_edges().contains_key(eid)
            &&& #[trigger] simplification_ok(
                g_old.spec_edges()[eid].spec_info().spec_waypoints(),
                kept_pts,
                kept,
                1,
                1,
            )
            &&& rdp_kept_exact(g_old.spec_edges()[eid].spec_info().spec_waypoints(), kept, 1, 1)
            &&& g_old.spec_nodes().contains_key(g_old.spec_edges()[eid].spec_node1())
            &&& g_old.spec_nodes().contains_key(g_old.spec_edges()[eid].spec_node2())
            &&& group_positions_ok(
                g_new,
                grp,
                g_old.spec_nodes()[g_old.spec_edges()[eid].spec_node1()].spec_info().position,
                g_old.spec_nodes()[g_old.spec_edges()[eid].spec_node2()].spec_info().position,
                kept_pts,
            )
        };
    let wps = g_old.spec_edges()[eid].spec_info().spec_waypoints();
    if wps.len() >= 2 {
        lemma_group_reproduces_simplified(
            g_new,
            grp,
            g_old.spec_nodes()[g_old.spec_edges()[eid].spec_node1()].spec_info().position,
            g_old.spec_nodes()[g_old.spec_edges()[eid].spec_node2()].spec_info().position,
            wps,
            kept_pts,
            kept,
        );
    }
}

pub struct TopologyVectorizer;

impl TopologyVectorizer {
    /// Vectorize `topology_map_temp`: copy its nodes, replace each edge by
    /// a chain through the exact one-pixel simplification of its polyline,
    /// and report each chain as a node group — one group per input edge,
    /// with one output edge per consecutive pair in a group.
    #[verifier::rlimit(100)]
    pub fn vectorizer(topology_map_temp: &Graph<TopologyNode, TopologyEdge>) -> (r: (
        Graph<TopologyNode, TopologyEdge>,
        Vec<Vec<u32>>,
    ))
        requires
            topology_map_temp.wf(),
            topology_map_temp.spec_node_id_alloc() <= 0x40000000,
            topology_map_temp.spec_edge_id_alloc() <= 0x4000,
            forall|eid: u32|
                #[trigger] topology_map_temp.spec_edges().contains_key(eid) ==> coords_bounded(
                    topology_map_temp.spec_edges()[eid].spec_info().spec_waypoints(),
                ) && topology_map_temp.spec_edges()[eid].spec_info().spec_waypoints().len()
                    <= 0x10000,
        ensures
            r.0.wf(),
            forall|eid: u32|
                #[trigger] r.0.spec_edges().contains_key(eid) ==> r.0.spec_edges()[eid].spec_info()
                    .spec_waypoints().len() == 0,
            forall|k: u32|
                #[trigger] topology_map_temp.spec_nodes().contains_key(k) ==> exists|k2: u32|
                    #[trigger] r.0.spec_nodes().contains_key(k2) && r.0.spec_nodes()[k2].spec_info()
                        == topology_map_temp.spec_nodes()[k].spec_info(),
            r.1@.len() == topology_map_temp.spec_edges().dom().len(),
            r.0.spec_edges().len() == groups_edge_sum(r.1@),
            forall|gi: int|
                0 <= gi < r.1@.len() ==> group_witnessed(
                    *topology_map_temp,
                    r.0,
                    (#[trigger] r.1@[gi])@,
                ),
    {
        let ghost g_old = *topology_map_temp;
        let mut ret: Graph<TopologyNode, TopologyEdge> = Graph::new(false, false);
        let mut old_to_new_id_map: HashMap<u32, u32> = HashMap::new();
        let mut node_groups: Vec<Vec<u32>> = Vec::new();
        let simplifier = WaypointSimplifier::new(1, 1);

        // Copy every node, in ID order.
        let nbound: u32 = topology_map_temp.next_node_id();
        let mut nid: u32 = 0;
        while nid < nbound
            invariant
                g_old == *topology_map_temp,
                g_old.wf(),
                g_old.spec_node_id_alloc() == nbound,
                nbound <= 0x40000000,
                nid <= nbound,
                ret.wf(),
                ret.spec_edges() == Map::<u32, crate::graph::Edge<TopologyEdge>>::empty(),
                ret.spec_edge_id_alloc() == 1,
                ret.spec_node_id_alloc() <= 1 + nid,
                forall|k: u32|
                    #[trigger] old_to_new_id_map@.contains_key(k) <==> (k < nid
                        && g_old.spec_nodes().contains_key(k)),
                forall|k: u32|
                    #[trigger] old_to_new_id_map@.contains_key(k) ==> ret.spec_nodes().contains_key(
                        old_to_new_id_map@[k],
                    ) && ret.spec_nodes()[old_to_new_id_map@[k]].spec_info() == g_old.spec_nodes()[k].spec_info(),
            decreases nbound - nid,
        {
            match topology_map_temp.get_node_by_id(&nid) {
                Some(node) => {
                    let info = *node.node_info();
                    let new_node_id = ret.add_node(
                        TopologyNode { node_type: info.node_type, position: info.position },
                    );
                    old_to_new_id_map.insert(nid, new_node_id);
                },
                None => {},
            }
            nid = nid + 1;
        }

        // Chain every edge, in ID order.
        let ebound: u32 = topology_map_temp.next_edge_id();
        let mut eid: u32 = 0;
        proof {
            assert(g_old.spec_edges().dom().intersect(ids_below(0)) =~= Set::<u32>::empty());
        }
        while eid < ebound
            invariant
                g_old == *topology_map_temp,
                g_old.wf(),
                g_old.spec_edge_id_alloc() == ebound,
                g_old.spec_node_id_alloc() == nbound,
                nbound <= 0x40000000,
                ebound <= 0x4000,
                forall|e: u32|
                    #[trigger] g_old.spec_edges().contains_key(e) ==> coords_bounded(
                        g_old.spec_edges()[e].spec_info().spec_waypoints(),
                    ) && g_old.spec_edges()[e].spec_info().spec_waypoints().len() <= 0x10000,
                eid <= ebound,
                simplifier.wf(),
                simplifier.spec_eps_num() == 1,
                simplifier.spec_eps_den() == 1,
                ret.wf(),
                ret.spec_node_id_alloc() <= 1 + nbound + eid * 0x10000,
                ret.spec_edge_id_alloc() <= 1 + eid * 0x10001,
                forall|k: u32|
                    #[trigger] old_to_new_id_map@.contains_key(k) <==> g_old.spec_nodes().contains_key(
                        k,
                    ),
                forall|k: u32|
                    #[trigger] old_to_new_id_map@.contains_key(k) ==> ret.spec_nodes().contains_key(
                        old_to_new_id_map@[k],
                    ) && ret.spec_nodes()[old_to_new_id_map@[k]].spec_info() == g_old.spec_nodes()[k].spec_info(),
                forall|e: u32|
                    #[trigger] ret.spec_edges().contains_key(e) ==> ret.spec_edges()[e].spec_info()
                        .spec_waypoints().len() == 0,
                node_groups@.len() == g_old.spec_edges().dom().intersect(ids_below(eid)).len(),
                ret.spec_edges().len() == groups_edge_sum(node_groups@),
                forall|i: int|
                    0 <= i < node_groups@.len() ==> group_witnessed(
                        g_old,
                        ret,
                        (#[trigger] node_groups@[i])@,
                    ),
            decreases ebound - eid,
        {
            let ghost ret_iter_start = ret;
            match topology_map_temp.get_edge_by_id(&eid) {
                Some(edge) => {
                    let node1 = edge.node1();
                    let node2 = edge.node2();
                    proof {
                        assert(g_old.spec_nodes().contains_key(node1));
                        assert(g_old.spec_nodes().contains_key(node2));
                        assert(node1 < nbound && node2 < nbound);
                    }
                    let node1_new = *old_to_new_id_map.get(&node1).unwrap();
                    let node2_new = *old_to_new_id_map.get(&node2).unwrap();
                    let waypoints = edge.edge_info().get_waypoints();
                    let (simplified_waypoints, _kept) = simplifier.simplify_with_indices(waypoints);
                    let ghost kept_pts = simplified_waypoints@;
                    let ghost kept = _kept@;
                    let ghost pos_u = g_old.spec_nodes()[node1].spec_info().position;
                    let ghost pos_v = g_old.spec_nodes()[node2].spec_info().position;

                    let mut nodes: Vec<u32> = Vec::new();
                    nodes.push(node1_new);
                    let slen = simplified_waypoints.len();
                    if slen >= 3 {
                        let mut i: usize = 1;
                        while i < slen - 1
                            invariant
                                g_old == *topology_map_temp,
                                g_old.wf(),
                                3 <= slen == kept_pts.len() <= 0x10001,
                                kept_pts == simplified_waypoints@,
                                1 <= i <= slen - 1,
                                ret.wf(),
                                nbound <= 0x40000000,
                                ebound <= 0x4000,
                                eid < ebound,
                                ret_iter_start.spec_node_id_alloc() <= 1 + nbound + eid * 0x10000,
                                ret.spec_node_id_alloc() <= ret_iter_start.spec_node_id_alloc() + i
                                    - 1,
                                ret.spec_edge_id_alloc() == ret_iter_start.spec_edge_id_alloc(),
                                ret.spec_edge_id_alloc() <= 1 + eid * 0x10001,
                                ret.spec_edges() == ret_iter_start.spec_edges(),
                                graph_extends(ret_iter_start, ret),
                                nodes@.len() == i,
                                nodes@[0] == node1_new,
                                ret.spec_nodes().contains_key(node1_new),
                                ret.spec_nodes()[node1_new].spec_info() == g_old.spec_nodes()[node1].spec_info(),
                                forall|j: int|
                                    1 <= j < i ==> ret.spec_nodes().contains_key(#[trigger] nodes@[j])
                                        && ret.spec_nodes()[nodes@[j]].spec_info() == (TopologyNode {
                                        node_type: TopologyNodeType::Waypoint,
                                        position: kept_pts[j],
                                    }),
                            decreases slen - 1 - i,
                        {
                            let ghost ret_pre = ret;
                            let p = simplified_waypoints[i];
                            let new_node_id = ret.add_node(
                                TopologyNode {
                                    node_type: TopologyNodeType::Waypoint,
                                    position: p,
                                },
                            );
                            nodes.push(new_node_id);
                            proof {
                                assert(graph_extends(ret_pre, ret));
                            }
                            i += 1;
                        }
                    }
                    nodes.push(node2_new);
                    let ghost ret_nodes_done = ret;

                    // Join consecutive chain nodes with empty-polyline edges.
                    let nlen = nodes.len();
                    let mut i2: usize = 1;
                    while i2 < nlen
                        invariant
                            g_old == *topology_map_temp,
                            g_old.wf(),
                            nlen == nodes@.len(),
                            2 <= nlen <= 0x10001,
                            1 <= i2 <= nlen,
                            ret.wf(),
                            nbound <= 0x40000000,
                            ebound <= 0x4000,
                            eid < ebound,
                            ret.spec_node_id_alloc() == ret_nodes_done.spec_node_id_alloc(),
                            ret_nodes_done.spec_edge_id_alloc() <= 1 + eid * 0x10001,
                            ret.spec_edge_id_alloc() <= ret_nodes_done.spec_edge_id_alloc() + i2
                                - 1,
                            ret.spec_edges().len() == groups_edge_sum(node_groups@) + (i2 - 1),
                            graph_extends(ret_nodes_done, ret),
                            forall|j: int|
                                0 <= j < nlen ==> ret_nodes_done.spec_nodes().contains_key(
                                    #[trigger] nodes@[j],
                                ),
                            forall|e: u32|
                                #[trigger] ret.spec_edges().contains_key(e)
                                    && !ret_nodes_done.spec_edges().contains_key(e) ==> ret
                                    .spec_edges()[e].spec_info().spec_waypoints().len() == 0,
                            forall|j: int|
                                0 <= j < i2 - 1 ==> chain_edge(
                                    ret,
                                    #[trigger] nodes@[j],
                                    nodes@[j + 1],
                                ),
                        decreases nlen - i2,
                    {
                        let ghost ret_pre = ret;
                        let n1 = nodes[i2 - 1];
                        let n2 = nodes[i2];
                        proof {
                            assert(ret.spec_nodes().contains_key(n1));
                            assert(ret.spec_nodes().contains_key(n2));
                        }
                        let ghost edges_pre = ret.spec_edges();
                        let res = ret.add_edge(n1, n2, TopologyEdge::from_waypoints(Vec::new()));
                        proof {
                            assert(res is Ok);
                            let new_eid = res->Ok_0;
                            assert(!edges_pre.contains_key(new_eid));
                            assert(ret.spec_edges().dom() =~= edges_pre.dom().insert(new_eid));
                            assert(edges_pre.dom().finite()) by {
                                ret_pre.lemma_doms_finite();
                            }
                            assert(ret.spec_edges().len() == edges_pre.len() + 1);
                            assert(graph_extends(ret_pre, ret));
                            assert(graph_extends(ret_nodes_done, ret));
                            assert forall|j: int| 0 <= j < i2 implies chain_edge(
                                ret,
                                #[trigger] nodes@[j],
                                nodes@[j + 1],
                            ) by {
                                if j == i2 - 1 {
                                    assert(ret.spec_edges().contains_key(new_eid)
                                        && ret.spec_edges()[new_eid].spec_node1() == nodes@[j]
                                        && ret.spec_edges()[new_eid].spec_node2() == nodes@[j + 1]
                                        && ret.spec_edges()[new_eid].spec_info().spec_waypoints()
                                        .len() == 0);
                                } else {
                                    assert(chain_edge(ret_pre, nodes@[j], nodes@[j + 1]));
                                    let e2 = choose|e2: u32|
                                        {
                                            &&& #[trigger] ret_pre.spec_edges().contains_key(e2)
                                            &&& ret_pre.spec_edges()[e2].spec_node1() == nodes@[j]
                                            &&& ret_pre.spec_edges()[e2].spec_node2() == nodes@[j
                                                + 1]
                                            &&& ret_pre.spec_edges()[e2].spec_info()
                                                .spec_waypoints().len() == 0
                                        };
                                    assert(ret.spec_edges().contains_key(e2) && ret.spec_edges()[e2]
                                        == ret_pre.spec_edges()[e2]);
                                }
                            }
                        }
                        i2 += 1;
                    }

                    proof {
                        assert(group_positions_ok(ret, nodes@, pos_u, pos_v, kept_pts)) by {
                            assert(graph_extends(ret_nodes_done, ret));
                            if kept_pts.len() >= 3 {
                                assert(nodes@.len() == kept_pts.len());
                            }
                            assert(ret.spec_nodes()[nodes@[0]].spec_info().position == pos_u);
                            assert(ret.spec_nodes()[nodes@[nodes@.len() - 1]].spec_info().position
                                == pos_v);
                        }
                        assert(group_witnessed(g_old, ret, nodes@)) by {
                            assert(rdp_kept_exact(
                                g_old.spec_edges()[eid].spec_info().spec_waypoints(),
                                kept,
                                1,
                                1,
                            ) && simplification_ok(
                                g_old.spec_edges()[eid].spec_info().spec_waypoints(),
                                kept_pts,
                                kept,
                                1,
                                1,
                            ) && group_positions_ok(ret, nodes@, pos_u, pos_v, kept_pts));
                        }
                        assert forall|gi: int| 0 <= gi < node_groups@.len() implies group_witnessed(
                            g_old,
                            ret,
                            (#[trigger] node_groups@[gi])@,
                        ) by {
                            assert(graph_extends(ret_iter_start, ret));
                            lemma_group_witnessed_stable(
                                g_old,
                                ret_iter_start,
                                ret,
                                node_groups@[gi]@,
                            );
                        }
                    }
                    let ghost groups_pre = node_groups@;
                    node_groups.push(nodes);
                    proof {
                        assert(node_groups@.drop_last() =~= groups_pre);
                        assert(groups_edge_sum(node_groups@) == groups_edge_sum(groups_pre)
                            + (nlen - 1));
                        let before = g_old.spec_edges().dom().intersect(ids_below(eid));
                        let after = g_old.spec_edges().dom().intersect(ids_below((eid + 1) as u32));
                        assert(after =~= before.insert(eid));
                        assert(before.finite()) by {
                            g_old.lemma_doms_finite();
                            vstd::set_lib::lemma_len_subset(before, g_old.spec_edges().dom());
                        }
                        assert(!before.contains(eid));
                        assert(after.len() == before.len() + 1);
                    }
                },
                None => {
                    proof {
                        assert(g_old.spec_edges().dom().intersect(ids_below((eid + 1) as u32))
                            =~= g_old.spec_edges().dom().intersect(ids_below(eid)));
                        assert(!g_old.spec_edges().contains_key(eid));
                    }
                },
            }
            eid = eid + 1;
        }
        proof {
            assert(g_old.spec_edges().dom().intersect(ids_below(ebound)) =~= g_old.spec_edges()
                .dom());
            assert forall|k: u32| #[trigger] g_old.spec_nodes().contains_key(k) implies exists|
                k2: u32,
            |
                #[trigger] ret.spec_nodes().contains_key(k2) && ret.spec_nodes()[k2].spec_info()
                    == g_old.spec_nodes()[k].spec_info() by {
                assert(old_to_new_id_map@.contains_key(k));
                let k2 = old_to_new_id_map@[k];
                assert(ret.spec_nodes().contains_key(k2) && ret.spec_nodes()[k2].spec_info()
                    == g_old.spec_nodes()[k].spec_info());
            }
        }
        (ret, node_groups)
    }
}

} // verus!
