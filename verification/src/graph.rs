//! ID-indexed labeled multigraph with adjacency bookkeeping.
//!
//! Nodes and edges live in maps keyed by `u32` IDs that increase
//! monotonically from 1 and are never reused.  Every node keeps a dual
//! index of its incident edges: `connected_edges` maps an edge ID to the
//! opposite endpoint, and `adjacent_nodes` maps a neighbor ID to the set of
//! edge IDs reaching it.  The well-formedness predicate `wf` ties the two
//! views to the edge map and is preserved by every mutation.

use vstd::prelude::*;

use std::collections::{HashMap, HashSet};

verus! {

broadcast use vstd::std_specs::hash::group_hash_axioms;

/// Failures of graph operations.
#[derive(Clone, Copy, Debug, PartialEq, Eq, Structural)]
pub enum GraphError {
    NoSuchNode,
    NoSuchEdge,
    DuplicateNodeId,
    DuplicateEdgeId,
}

/// A node together with its adjacency bookkeeping.
#[derive(Debug)]
pub struct Node<TNodeInfo> {
    id: u32,
    adjacent_nodes: HashMap<u32, HashSet<u32>>,
    connected_edges: HashMap<u32, u32>,
    node_info: TNodeInfo,
}

impl<TNodeInfo> Node<TNodeInfo> {
    pub closed spec fn spec_id(&self) -> u32 {
        self.id
    }

    /// Neighbor ID to the set of edge IDs reaching it.
    pub closed spec fn spec_adjacent(&self) -> Map<u32, Set<u32>> {
        self.adjacent_nodes@.map_values(|s: HashSet<u32>| s@)
    }

    /// Edge ID to the opposite endpoint's node ID.
    pub closed spec fn spec_connected(&self) -> Map<u32, u32> {
        self.connected_edges@
    }

    pub closed spec fn spec_info(&self) -> TNodeInfo {
        self.node_info
    }

    /// The two adjacency views agree.
    pub open spec fn wf(&self) -> bool {
        &&& forall|e: u32|
            self.spec_connected().contains_key(e) ==> {
                &&& self.spec_adjacent().contains_key(#[trigger] self.spec_connected()[e])
                &&& self.spec_adjacent()[self.spec_connected()[e]].contains(e)
            }
        &&& forall|m: u32, e: u32|
            self.spec_adjacent().contains_key(m) && #[trigger] self.spec_adjacent()[m].contains(e)
                ==> self.spec_connected().contains_key(e) && self.spec_connected()[e] == m
        &&& forall|m: u32|
            #[trigger] self.spec_adjacent().contains_key(m) ==> self.spec_adjacent()[m].finite()
        &&& forall|m: u32|
            #[trigger] self.spec_adjacent().contains_key(m) ==> exists|e: u32|
                self.spec_adjacent()[m].contains(e)
    }

    pub fn new(id: u32, node_info: TNodeInfo) -> (r: Self)
        ensures
            r.spec_id() == id,
            r.spec_adjacent() == Map::<u32, Set<u32>>::empty(),
            r.spec_connected() == Map::<u32, u32>::empty(),
            r.spec_info() == node_info,
            r.wf(),
    {
        let r = Node {
            id,
            adjacent_nodes: HashMap::new(),
            connected_edges: HashMap::new(),
            node_info,
        };
        proof {
            assert(r.spec_adjacent() =~= Map::<u32, Set<u32>>::empty());
        }
        r
    }

    pub fn get_id(&self) -> (r: u32)
        ensures
            r == self.spec_id(),
    {
        self.id
    }

    /// Number of incident edges.
    pub fn degree(&self) -> (r: usize)
        ensures
            r == self.spec_connected().len(),
    {
        self.connected_edges.len()
    }

    pub fn adjacent_nodes(&self) -> (r: &HashMap<u32, HashSet<u32>>)
        ensures
            r@.dom() == self.spec_adjacent().dom(),
            forall|m: u32| r@.contains_key(m) ==> (#[trigger] r@[m])@ == self.spec_adjacent()[m],
    {
        proof {
            assert(self.adjacent_nodes@.dom() =~= self.spec_adjacent().dom());
        }
        &self.adjacent_nodes
    }

    pub fn connected_edges(&self) -> (r: &HashMap<u32, u32>)
        ensures
            r@ == self.spec_connected(),
    {
        &self.connected_edges
    }

    pub fn node_info(&self) -> (r: &TNodeInfo)
        ensures
            *r == self.spec_info(),
    {
        &self.node_info
    }

    pub fn node_info_mut(&mut self) -> (r: &mut TNodeInfo)
        ensures
            *r == old(self).spec_info(),
            final(self).spec_info() == *final(r),
            final(self).spec_id() == old(self).spec_id(),
            final(self).spec_adjacent() == old(self).spec_adjacent(),
            final(self).spec_connected() == old(self).spec_connected(),
    {
        &mut self.node_info
    }

    /// Record the edge `edge_id` leading to `node_id`; refused (returning
    /// `false`) when the edge is already recorded.
    pub fn add_connection(&mut self, node_id: u32, edge_id: u32) -> (r: bool)
        ensures
            r == !old(self).spec_connected().contains_key(edge_id),
            final(self).spec_id() == old(self).spec_id(),
            final(self).spec_info() == old(self).spec_info(),
            !r ==> final(self).spec_connected() == old(self).spec_connected(),
            !r ==> final(self).spec_adjacent() == old(self).spec_adjacent(),
            r ==> final(self).spec_connected() == old(self).spec_connected().insert(
                edge_id,
                node_id,
            ),
            r ==> final(self).spec_adjacent() == old(self).spec_adjacent().insert(
                node_id,
                (if old(self).spec_adjacent().contains_key(node_id) {
                    old(self).spec_adjacent()[node_id]
                } else {
                    Set::<u32>::empty()
                }).insert(edge_id),
            ),
            old(self).wf() ==> final(self).wf(),
    {
        if self.connected_edges.contains_key(&edge_id) {
            return false;
        }
        let ghost adj0 = self.spec_adjacent();

        if !self.adjacent_nodes.contains_key(&node_id) {
            self.adjacent_nodes.insert(node_id, HashSet::new());
            proof {
                assert(self.spec_adjacent() =~= adj0.insert(node_id, Set::<u32>::empty()));
            }
        }
        let mut edge_set: HashSet<u32> = match self.adjacent_nodes.remove(&node_id) {
            Some(s) => s,
            None => HashSet::new(),
        };
        edge_set.insert(edge_id);
        self.adjacent_nodes.insert(node_id, edge_set);
        self.connected_edges.insert(edge_id, node_id);
        proof {
            let base = if adj0.contains_key(node_id) {
                adj0[node_id]
            } else {
                Set::<u32>::empty()
            };
            assert(self.spec_adjacent() =~= adj0.insert(node_id, base.insert(edge_id)));
            if old(self).wf() {
                let post = self;
                assert forall|m: u32| #[trigger] post.spec_adjacent().contains_key(m) implies exists|e: u32|
                    post.spec_adjacent()[m].contains(e) by {
                    if m == node_id {
                        assert(post.spec_adjacent()[m].contains(edge_id));
                    } else {
                        assert(adj0.contains_key(m));
                        let w = choose|e: u32| adj0[m].contains(e);
                        assert(post.spec_adjacent()[m].contains(w));
                    }
                }
                assert forall|m: u32, e: u32|
                    post.spec_adjacent().contains_key(m) && #[trigger] post.spec_adjacent()[m]
                        .contains(e) implies post.spec_connected().contains_key(e)
                    && post.spec_connected()[e] == m by {
                    if m == node_id && e == edge_id {
                    } else if m == node_id {
                        assert(adj0.contains_key(node_id) && adj0[node_id].contains(e));
                    } else {
                        assert(adj0.contains_key(m) && adj0[m].contains(e));
                    }
                }
            }
        }
        true
    }

    /// Forget the edge `edge_id`; its neighbor entry is dropped when no
    /// other edge reaches that neighbor.  Refused (returning `false`) when
    /// the edge is not recorded.
    pub fn remove_connection(&mut self, edge_id: u32) -> (r: bool)
        requires
            old(self).wf(),
        ensures
            final(self).wf(),
            r == old(self).spec_connected().contains_key(edge_id),
            final(self).spec_id() == old(self).spec_id(),
            final(self).spec_info() == old(self).spec_info(),
            !r ==> final(self).spec_connected() == old(self).spec_connected(),
            !r ==> final(self).spec_adjacent() == old(self).spec_adjacent(),
            r ==> final(self).spec_connected() == old(self).spec_connected().remove(edge_id),
            r ==> final(self).spec_adjacent() == adjacency_after_removal(
                old(self).spec_adjacent(),
                old(self).spec_connected()[edge_id],
                edge_id,
            ),
    {
        let node_id: u32 = match self.connected_edges.get(&edge_id) {
            Some(id) => *id,
            None => {
                return false;
            },
        };
        self.connected_edges.remove(&edge_id);

        let ghost adj0 = old(self).spec_adjacent();
        proof {
            assert(old(self).spec_connected().contains_key(edge_id));
            assert(old(self).spec_connected()[edge_id] == node_id);
            assert(adj0.contains_key(node_id) && adj0[node_id].contains(edge_id));
            assert(self.adjacent_nodes@.contains_key(node_id));
        }
        let mut edge_set: HashSet<u32> = match self.adjacent_nodes.remove(&node_id) {
            Some(s) => s,
            None => HashSet::new(),
        };
        proof {
            assert(edge_set@ == adj0[node_id]);
        }
        edge_set.remove(&edge_id);
        if edge_set.is_empty() {
            proof {
                assert(adj0[node_id].finite());
                edge_set@.lemma_len0_is_empty();
                assert(adj0[node_id].remove(edge_id) =~= Set::<u32>::empty());
                assert(self.spec_adjacent() =~= adj0.remove(node_id));
            }
        } else {
            proof {
                assert(edge_set@.len() != 0);
                assert(exists|e: u32| adj0[node_id].remove(edge_id).contains(e)) by {
                    if !(exists|e: u32| edge_set@.contains(e)) {
                        assert(edge_set@ =~= Set::<u32>::empty());
                    }
                }
            }
            self.adjacent_nodes.insert(node_id, edge_set);
            proof {
                assert(self.spec_adjacent() =~= adj0.insert(
                    node_id,
                    adj0[node_id].remove(edge_id),
                ));
            }
        }
        proof {
            let post = self;
            assert forall|e: u32| post.spec_connected().contains_key(e) implies {
                &&& post.spec_adjacent().contains_key(#[trigger] post.spec_connected()[e])
                &&& post.spec_adjacent()[post.spec_connected()[e]].contains(e)
            } by {
                assert(old(self).spec_connected().contains_key(e) && e != edge_id);
            }
            assert forall|m: u32, e: u32|
                post.spec_adjacent().contains_key(m) && #[trigger] post.spec_adjacent()[m].contains(
                    e,
                ) implies post.spec_connected().contains_key(e) && post.spec_connected()[e]
                == m by {
                assert(adj0.contains_key(m) && adj0[m].contains(e));
            }
            assert forall|m: u32| #[trigger] post.spec_adjacent().contains_key(m) implies exists|
                e: u32,
            | post.spec_adjacent()[m].contains(e) by {
                if m == node_id {
                    assert(post.spec_adjacent()[m] == adj0[node_id].remove(edge_id));
                } else {
                    assert(adj0.contains_key(m));
                    let w = choose|e: u32| adj0[m].contains(e);
                    assert(post.spec_adjacent()[m].contains(w));
                }
            }
        }
        true
    }
}

/// The adjacency map after one edge toward `node_id` is removed: the edge
/// leaves the neighbor's set, and the neighbor leaves the map when its set
/// empties.
pub open spec fn adjacency_after_removal(
    adj: Map<u32, Set<u32>>,
    node_id: u32,
    edge_id: u32,
) -> Map<u32, Set<u32>> {
    if adj.contains_key(node_id) {
        if adj[node_id].remove(edge_id) =~= Set::<u32>::empty() {
            adj.remove(node_id)
        } else {
            adj.insert(node_id, adj[node_id].remove(edge_id))
        }
    } else {
        adj
    }
}

/// An edge between two node IDs, carrying a payload.
#[derive(Debug)]
pub struct Edge<TEdgeInfo> {
    id: u32,
    node1: u32,
    node2: u32,
    can_move_forward: bool,
    can_move_backward: bool,
    edge_info: TEdgeInfo,
}

impl<TEdgeInfo> Edge<TEdgeInfo> {
    pub closed spec fn spec_id(&self) -> u32 {
        self.id
    }

    pub closed spec fn spec_node1(&self) -> u32 {
        self.node1
    }

    pub closed spec fn spec_node2(&self) -> u32 {
        self.node2
    }

    pub closed spec fn spec_can_move_forward(&self) -> bool {
        self.can_move_forward
    }

    pub closed spec fn spec_can_move_backward(&self) -> bool {
        self.can_move_backward
    }

    pub closed spec fn spec_info(&self) -> TEdgeInfo {
        self.edge_info
    }

    pub fn new(
        id: u32,
        node1: u32,
        node2: u32,
        can_move_forward: bool,
        can_move_backward: bool,
        edge_info: TEdgeInfo,
    ) -> (r: Self)
        ensures
            r.spec_id() == id,
            r.spec_node1() == node1,
            r.spec_node2() == node2,
            r.spec_can_move_forward() == can_move_forward,
            r.spec_can_move_backward() == can_move_backward,
            r.spec_info() == edge_info,
    {
        Edge { id, node1, node2, can_move_forward, can_move_backward, edge_info }
    }

    pub fn get_id(&self) -> (r: u32)
        ensures
            r == self.spec_id(),
    {
        self.id
    }

    pub fn node1(&self) -> (r: u32)
        ensures
            r == self.spec_node1(),
    {
        self.node1
    }

    pub fn node2(&self) -> (r: u32)
        ensures
            r == self.spec_node2(),
    {
        self.node2
    }

    pub fn can_move_forward(&self) -> (r: bool)
        ensures
            r == self.spec_can_move_forward(),
    {
        self.can_move_forward
    }

    pub fn can_move_backward(&self) -> (r: bool)
        ensures
            r == self.spec_can_move_backward(),
    {
        self.can_move_backward
    }

    pub fn edge_info(&self) -> (r: &TEdgeInfo)
        ensures
            *r == self.spec_info(),
    {
        &self.edge_info
    }

    pub fn edge_info_mut(&mut self) -> (r: &mut TEdgeInfo)
        ensures
            *r == old(self).spec_info(),
            final(self).spec_info() == *final(r),
            final(self).spec_id() == old(self).spec_id(),
            final(self).spec_node1() == old(self).spec_node1(),
            final(self).spec_node2() == old(self).spec_node2(),
            final(self).spec_can_move_forward() == old(self).spec_can_move_forward(),
            final(self).spec_can_move_backward() == old(self).spec_can_move_backward(),
    {
        &mut self.edge_info
    }
}

/// A labeled undirected multigraph with ID-indexed nodes and edges.
#[derive(Debug)]
pub struct Graph<TNodeInfo, TEdgeInfo> {
    nodes: HashMap<u32, Node<TNodeInfo>>,
    edges: HashMap<u32, Edge<TEdgeInfo>>,
    allow_cyclic_edges: bool,
    allow_duplicate_edges: bool,
    node_id_alloc: u32,
    edge_id_alloc: u32,
}

impl<TNodeInfo, TEdgeInfo> Graph<TNodeInfo, TEdgeInfo> {
    pub closed spec fn spec_nodes(&self) -> Map<u32, Node<TNodeInfo>> {
        self.nodes@
    }

    pub closed spec fn spec_edges(&self) -> Map<u32, Edge<TEdgeInfo>> {
        self.edges@
    }

    /// The ID the next added node will receive.
    pub closed spec fn spec_node_id_alloc(&self) -> u32 {
        self.node_id_alloc
    }

    /// The ID the next added edge will receive.
    pub closed spec fn spec_edge_id_alloc(&self) -> u32 {
        self.edge_id_alloc
    }

    /// Graph integrity: every edge's endpoints exist, each endpoint's
    /// adjacency records the edge toward the opposite endpoint, every
    /// adjacency record corresponds to a stored edge, and IDs stay below
    /// their allocators.
    pub open spec fn wf(&self) -> bool {
        &&& forall|nid: u32|
            #[trigger] self.spec_nodes().contains_key(nid) ==> self.spec_nodes()[nid].spec_id()
                == nid && nid < self.spec_node_id_alloc() && self.spec_nodes()[nid].wf()
        &&& forall|eid: u32|
            #[trigger] self.spec_edges().contains_key(eid) ==> {
                let e = self.spec_edges()[eid];
                &&& e.spec_id() == eid
                &&& eid < self.spec_edge_id_alloc()
                &&& self.spec_nodes().contains_key(e.spec_node1())
                &&& self.spec_nodes().contains_key(e.spec_node2())
                &&& self.spec_nodes()[e.spec_node1()].spec_connected().contains_key(eid)
                &&& self.spec_nodes()[e.spec_node1()].spec_connected()[eid] == e.spec_node2()
                &&& self.spec_nodes()[e.spec_node2()].spec_connected().contains_key(eid)
                &&& self.spec_nodes()[e.spec_node2()].spec_connected()[eid] == e.spec_node1()
            }
        &&& forall|nid: u32, eid: u32|
            self.spec_nodes().contains_key(nid) && #[trigger] self.spec_nodes()[nid].spec_connected(
            ).contains_key(eid) ==> {
                let e = self.spec_edges()[eid];
                &&& self.spec_edges().contains_key(eid)
                &&& (e.spec_node1() == nid && e.spec_node2() == self.spec_nodes()[nid].spec_connected()[eid]
                    || e.spec_node2() == nid && e.spec_node1() == self.spec_nodes()[nid].spec_connected()[eid])
            }
    }

    /// The node and edge maps are finite.
    pub proof fn lemma_doms_finite(&self)
        ensures
            self.spec_nodes().dom().finite(),
            self.spec_edges().dom().finite(),
    {
    }

    pub fn new(allow_cyclic_edges: bool, allow_duplicate_edges: bool) -> (r: Self)
        ensures
            r.wf(),
            r.spec_nodes() == Map::<u32, Node<TNodeInfo>>::empty(),
            r.spec_edges() == Map::<u32, Edge<TEdgeInfo>>::empty(),
            r.spec_node_id_alloc() == 1,
            r.spec_edge_id_alloc() == 1,
    {
        Graph {
            nodes: HashMap::new(),
            edges: HashMap::new(),
            allow_cyclic_edges,
            allow_duplicate_edges,
            node_id_alloc: 1,
            edge_id_alloc: 1,
        }
    }

    /// Build a graph from explicit node and edge lists.
    ///
    /// Duplicate node IDs, then duplicate edge IDs, then edges naming an
    /// absent node are rejected, in that order, and no graph is produced.
    /// Every edge is created forward-traversable; `assume_bidirectional`
    /// sets its backward flag.
    pub fn from_entities(
        node_list: Vec<(u32, TNodeInfo)>,
        edge_list: Vec<(u32, (u32, u32), TEdgeInfo)>,
        assume_bidirectional: bool,
    ) -> (r: Result<Self, GraphError>)
        requires
            forall|i: int| 0 <= i < node_list@.len() ==> (#[trigger] node_list@[i]).0 < u32::MAX,
            forall|i: int| 0 <= i < edge_list@.len() ==> (#[trigger] edge_list@[i]).0 < u32::MAX,
        ensures
            r == Result::<Self, GraphError>::Err(GraphError::DuplicateNodeId) <==> has_duplicate(
                node_list_ids(node_list@),
            ),
            !has_duplicate(node_list_ids(node_list@)) ==> (r == Result::<Self, GraphError>::Err(
                GraphError::DuplicateEdgeId,
            ) <==> has_duplicate(edge_list_ids(edge_list@))),
            !has_duplicate(node_list_ids(node_list@)) && !has_duplicate(edge_list_ids(edge_list@))
                ==> (r == Result::<Self, GraphError>::Err(GraphError::NoSuchNode)
                <==> !edge_endpoints_present(node_list@, edge_list@)),
            r is Ok <==> !has_duplicate(node_list_ids(node_list@)) && !has_duplicate(
                edge_list_ids(edge_list@),
            ) && edge_endpoints_present(node_list@, edge_list@),
            r is Ok ==> {
                let g = r->Ok_0;
                &&& g.wf()
                &&& forall|id: u32|
                    #[trigger] g.spec_nodes().contains_key(id) <==> node_list_contains_id(
                        node_list@,
                        id,
                    )
                &&& forall|i: int|
                    0 <= i < node_list@.len() ==> g.spec_nodes()[(#[trigger] node_list@[i]).0]
                        .spec_info() == node_list@[i].1
                &&& forall|id: u32|
                    #[trigger] g.spec_edges().contains_key(id) <==> edge_list_ids(
                        edge_list@,
                    ).contains(id)
                &&& forall|i: int|
                    0 <= i < edge_list@.len() ==> {
                        let e = g.spec_edges()[(#[trigger] edge_list@[i]).0];
                        &&& e.spec_node1() == edge_list@[i].1.0
                        &&& e.spec_node2() == edge_list@[i].1.1
                        &&& e.spec_can_move_forward() == true
                        &&& e.spec_can_move_backward() == assume_bidirectional
                        &&& e.spec_info() == edge_list@[i].2
                    }
            },
    {
        let ghost nlist = node_list@;
        let ghost elist = edge_list@;
        let n_count: usize = node_list.len();
        let e_count: usize = edge_list.len();

        // Reject duplicate node IDs.
        let mut seen_nodes: HashSet<u32> = HashSet::new();
        let mut max_node_id: u32 = 0;
        let mut i: usize = 0;
        while i < n_count
            invariant
                n_count == nlist.len(),
                node_list@ == nlist,
                i <= n_count,
                forall|a: int, b: int| 0 <= a < b < i ==> nlist[a].0 != nlist[b].0,
                forall|id: u32|
                    seen_nodes@.contains(id) <==> exists|a: int|
                        0 <= a < i && (#[trigger] nlist[a]).0 == id,
                forall|a: int| 0 <= a < i ==> (#[trigger] nlist[a]).0 <= max_node_id,
                max_node_id < u32::MAX,
                forall|a: int| 0 <= a < nlist.len() ==> (#[trigger] nlist[a]).0 < u32::MAX,
            decreases n_count - i,
        {
            let id: u32 = node_list[i].0;
            if seen_nodes.contains(&id) {
                proof {
                    let a = choose|a: int| 0 <= a < i && (#[trigger] nlist[a]).0 == id;
                    assert(node_list_ids(nlist)[a] == id && node_list_ids(nlist)[i as int] == id);
                }
                return Err(GraphError::DuplicateNodeId);
            }
            seen_nodes.insert(id);
            if id > max_node_id {
                max_node_id = id;
            }
            i += 1;
        }
        proof {
            if has_duplicate(node_list_ids(nlist)) {
                let (a, b) = choose|a: int, b: int|
                    0 <= a < b < node_list_ids(nlist).len() && node_list_ids(nlist)[a]
                        == node_list_ids(nlist)[b];
                assert(nlist[a].0 == nlist[b].0);
                assert(false);
            }
        }

        // Reject duplicate edge IDs.
        let mut seen_edges: HashSet<u32> = HashSet::new();
        let mut max_edge_id: u32 = 0;
        let mut j: usize = 0;
        while j < e_count
            invariant
                e_count == elist.len(),
                edge_list@ == elist,
                node_list@ == nlist,
                !has_duplicate(node_list_ids(nlist)),
                j <= e_count,
                forall|a: int, b: int| 0 <= a < b < j ==> elist[a].0 != elist[b].0,
                forall|id: u32|
                    seen_edges@.contains(id) <==> exists|a: int|
                        0 <= a < j && (#[trigger] elist[a]).0 == id,
                forall|a: int| 0 <= a < j ==> (#[trigger] elist[a]).0 <= max_edge_id,
                max_edge_id < u32::MAX,
                forall|a: int| 0 <= a < elist.len() ==> (#[trigger] elist[a]).0 < u32::MAX,
            decreases e_count - j,
        {
            let id: u32 = edge_list[j].0;
            if seen_edges.contains(&id) {
                proof {
                    let a = choose|a: int| 0 <= a < j && (#[trigger] elist[a]).0 == id;
                    assert(edge_list_ids(elist)[a] == id && edge_list_ids(elist)[j as int] == id);
                }
                return Err(GraphError::DuplicateEdgeId);
            }
            seen_edges.insert(id);
            if id > max_edge_id {
                max_edge_id = id;
            }
            j += 1;
        }
        proof {
            if has_duplicate(edge_list_ids(elist)) {
                let (a, b) = choose|a: int, b: int|
                    0 <= a < b < edge_list_ids(elist).len() && edge_list_ids(elist)[a]
                        == edge_list_ids(elist)[b];
                assert(elist[a].0 == elist[b].0);
                assert(false);
            }
        }

        // Reject edges naming an absent node.
        let mut j2: usize = 0;
        while j2 < e_count
            invariant
                e_count == elist.len(),
                edge_list@ == elist,
                node_list@ == nlist,
                !has_duplicate(node_list_ids(nlist)),
                !has_duplicate(edge_list_ids(elist)),
                j2 <= e_count,
                forall|id: u32| seen_nodes@.contains(id) <==> node_list_contains_id(nlist, id),
                forall|a: int|
                    0 <= a < j2 ==> node_list_contains_id(nlist, (#[trigger] elist[a]).1.0)
                        && node_list_contains_id(nlist, elist[a].1.1),
            decreases e_count - j2,
        {
            let n1: u32 = edge_list[j2].1.0;
            let n2: u32 = edge_list[j2].1.1;
            if !seen_nodes.contains(&n1) || !seen_nodes.contains(&n2) {
                return Err(GraphError::NoSuchNode);
            }
            j2 += 1;
        }

        // Build the node map.
        let mut nodes_map: HashMap<u32, Node<TNodeInfo>> = HashMap::new();
        let mut node_rest = node_list;
        proof {
            assert(node_rest@ =~= nlist.take(node_rest@.len() as int));
        }
        loop
            invariant
                node_rest@ == nlist.take(node_rest@.len() as int),
                node_rest@.len() <= nlist.len(),
                forall|a: int, b: int| 0 <= a < b < nlist.len() ==> nlist[a].0 != nlist[b].0,
                forall|id: u32|
                    #[trigger] nodes_map@.contains_key(id) <==> exists|a: int|
                        node_rest@.len() <= a < nlist.len() && (#[trigger] nlist[a]).0 == id,
                forall|a: int|
                    node_rest@.len() <= a < nlist.len() ==> {
                        &&& nodes_map@.contains_key((#[trigger] nlist[a]).0)
                        &&& nodes_map@[nlist[a].0].spec_id() == nlist[a].0
                        &&& nodes_map@[nlist[a].0].spec_info() == nlist[a].1
                        &&& nodes_map@[nlist[a].0].spec_connected() == Map::<u32, u32>::empty()
                        &&& nodes_map@[nlist[a].0].wf()
                    },
            ensures
                node_rest@.len() == 0,
                forall|id: u32|
                    #[trigger] nodes_map@.contains_key(id) <==> node_list_contains_id(nlist, id),
                forall|a: int|
                    0 <= a < nlist.len() ==> {
                        &&& nodes_map@.contains_key((#[trigger] nlist[a]).0)
                        &&& nodes_map@[nlist[a].0].spec_id() == nlist[a].0
                        &&& nodes_map@[nlist[a].0].spec_info() == nlist[a].1
                        &&& nodes_map@[nlist[a].0].spec_connected() == Map::<u32, u32>::empty()
                        &&& nodes_map@[nlist[a].0].wf()
                    },
            decreases node_rest@.len(),
        {
            let ghost k = node_rest@.len() as int;
            let pair = match node_rest.pop() {
                Some(p) => p,
                None => {
                    break ;
                },
            };
            proof {
                assert(node_rest@ =~= nlist.take(k - 1));
                assert(pair == nlist[k - 1]);
            }
            let (id, info) = pair;
            let node = Node::new(id, info);
            proof {
                if nodes_map@.contains_key(id) {
                    let a = choose|a: int| k <= a < nlist.len() && (#[trigger] nlist[a]).0 == id;
                    assert(false);
                }
            }
            nodes_map.insert(id, node);
            proof {
                assert forall|id2: u32| #[trigger] nodes_map@.contains_key(id2) implies exists|
                    a: int,
                |
                    node_rest@.len() <= a < nlist.len() && (#[trigger] nlist[a]).0 == id2 by {
                    if id2 == id {
                        assert(nlist[k - 1].0 == id2);
                    } else {
                        let a = choose|a: int|
                            k <= a < nlist.len() && (#[trigger] nlist[a]).0 == id2;
                    }
                }
            }
        }

        // Build the edge map, recording each edge at both endpoints.
        let mut edges_map: HashMap<u32, Edge<TEdgeInfo>> = HashMap::new();
        let mut edge_rest = edge_list;
        proof {
            assert(edge_rest@ =~= elist.take(edge_rest@.len() as int));
        }
        loop
            invariant
                edge_rest@ == elist.take(edge_rest@.len() as int),
                edge_rest@.len() <= elist.len(),
                forall|a: int, b: int| 0 <= a < b < elist.len() ==> elist[a].0 != elist[b].0,
                forall|a: int|
                    0 <= a < elist.len() ==> node_list_contains_id(nlist, (#[trigger] elist[a]).1.0)
                        && node_list_contains_id(nlist, elist[a].1.1),
                forall|id: u32|
                    #[trigger] nodes_map@.contains_key(id) <==> node_list_contains_id(nlist, id),
                forall|a: int|
                    0 <= a < nlist.len() ==> {
                        &&& (#[trigger] nodes_map@[nlist[a].0]).spec_id() == nlist[a].0
                        &&& nodes_map@[nlist[a].0].spec_info() == nlist[a].1
                    },
                forall|id: u32|
                    #[trigger] edges_map@.contains_key(id) <==> exists|a: int|
                        edge_rest@.len() <= a < elist.len() && (#[trigger] elist[a]).0 == id,
                forall|a: int|
                    edge_rest@.len() <= a < elist.len() ==> {
                        let e = edges_map@[(#[trigger] elist[a]).0];
                        &&& edges_map@.contains_key(elist[a].0)
                        &&& e.spec_node1() == elist[a].1.0
                        &&& e.spec_node2() == elist[a].1.1
                        &&& e.spec_can_move_forward() == true
                        &&& e.spec_can_move_backward() == assume_bidirectional
                        &&& e.spec_info() == elist[a].2
                    },
                forall|nid: u32, e: u32|
                    nodes_map@.contains_key(nid) && #[trigger] nodes_map@[nid].spec_connected()
                        .contains_key(e) ==> edges_map@.contains_key(e),
                parts_wf(nodes_map@, edges_map@),
            ensures
                forall|id: u32|
                    #[trigger] nodes_map@.contains_key(id) <==> node_list_contains_id(nlist, id),
                forall|a: int|
                    0 <= a < nlist.len() ==> {
                        &&& (#[trigger] nodes_map@[nlist[a].0]).spec_id() == nlist[a].0
                        &&& nodes_map@[nlist[a].0].spec_info() == nlist[a].1
                    },
                forall|id: u32|
                    #[trigger] edges_map@.contains_key(id) <==> exists|a: int|
                        0 <= a < elist.len() && (#[trigger] elist[a]).0 == id,
                forall|a: int|
                    0 <= a < elist.len() ==> {
                        let e = edges_map@[(#[trigger] elist[a]).0];
                        &&& edges_map@.contains_key(elist[a].0)
                        &&& e.spec_node1() == elist[a].1.0
                        &&& e.spec_node2() == elist[a].1.1
                        &&& e.spec_can_move_forward() == true
                        &&& e.spec_can_move_backward() == assume_bidirectional
                        &&& e.spec_info() == elist[a].2
                    },
                parts_wf(nodes_map@, edges_map@),
            decreases edge_rest@.len(),
        {
            let ghost k = edge_rest@.len() as int;
            let triple = match edge_rest.pop() {
                Some(t) => t,
                None => {
                    break ;
                },
            };
            proof {
                assert(edge_rest@ =~= elist.take(k - 1));
                assert(triple == elist[k - 1]);
            }
            let (eid, endpoints, info) = triple;
            let (n1, n2) = endpoints;
            let edge = Edge::new(eid, n1, n2, true, assume_bidirectional, info);
            let ghost pre_nodes = nodes_map@;
            let ghost pre_edges = edges_map@;
            proof {
                assert(node_list_contains_id(nlist, n1) && node_list_contains_id(nlist, n2));
                if edges_map@.contains_key(eid) {
                    let a = choose|a: int| k <= a < elist.len() && (#[trigger] elist[a]).0 == eid;
                    assert(false);
                }
                if nodes_map@[n1].spec_connected().contains_key(eid) {
                    assert(edges_map@.contains_key(eid));
                }
                if nodes_map@[n2].spec_connected().contains_key(eid) {
                    assert(edges_map@.contains_key(eid));
                }
            }
            edges_map.insert(eid, edge);

            let mut node1 = nodes_map.remove(&n1).unwrap();
            node1.add_connection(n2, eid);
            nodes_map.insert(n1, node1);

            let mut node2 = nodes_map.remove(&n2).unwrap();
            node2.add_connection(n1, eid);
            nodes_map.insert(n2, node2);

            proof {
                assert(nodes_map@.dom() =~= pre_nodes.dom());
                assert(edges_map@.dom() =~= pre_edges.dom().insert(eid));
                lemma_parts_edge_added(pre_nodes, pre_edges, nodes_map@, edges_map@, eid, n1, n2);
                assert forall|id2: u32| #[trigger] edges_map@.contains_key(id2) implies exists|
                    a: int,
                |
                    edge_rest@.len() <= a < elist.len() && (#[trigger] elist[a]).0 == id2 by {
                    if id2 == eid {
                        assert(elist[k - 1].0 == id2);
                    } else {
                        let a = choose|a: int|
                            k <= a < elist.len() && (#[trigger] elist[a]).0 == id2;
                    }
                }
            }
        }

        let g = Graph {
            nodes: nodes_map,
            edges: edges_map,
            allow_cyclic_edges: false,
            allow_duplicate_edges: false,
            node_id_alloc: max_node_id + 1,
            edge_id_alloc: max_edge_id + 1,
        };
        proof {
            assert forall|nid: u32| #[trigger] g.spec_nodes().contains_key(nid) implies nid < g
                .spec_node_id_alloc() by {
                let a = choose|a: int| 0 <= a < nlist.len() && (#[trigger] nlist[a]).0 == nid;
            }
            assert forall|eid: u32| #[trigger] g.spec_edges().contains_key(eid) implies eid < g
                .spec_edge_id_alloc() by {
                let a = choose|a: int| 0 <= a < elist.len() && (#[trigger] elist[a]).0 == eid;
            }
            assert forall|id: u32| #[trigger] g.spec_edges().contains_key(id) implies edge_list_ids(
                elist,
            ).contains(id) by {
                let a = choose|a: int| 0 <= a < elist.len() && (#[trigger] elist[a]).0 == id;
                assert(edge_list_ids(elist)[a] == id);
            }
            assert forall|id: u32| edge_list_ids(elist).contains(id) implies #[trigger] g
                .spec_edges().contains_key(id) by {
                let a = choose|a: int|
                    0 <= a < edge_list_ids(elist).len() && edge_list_ids(elist)[a] == id;
                assert(elist[a].0 == id);
            }
        }
        Ok(g)
    }

    /// As `from_entities`, taking the entity lists by another route.
    pub fn from_entities_list(
        nodes: Vec<(u32, TNodeInfo)>,
        edges: Vec<(u32, (u32, u32), TEdgeInfo)>,
        assume_bidirectional: bool,
    ) -> (r: Result<Self, GraphError>)
        requires
            forall|i: int| 0 <= i < nodes@.len() ==> (#[trigger] nodes@[i]).0 < u32::MAX,
            forall|i: int| 0 <= i < edges@.len() ==> (#[trigger] edges@[i]).0 < u32::MAX,
        ensures
            r == Result::<Self, GraphError>::Err(GraphError::DuplicateNodeId) <==> has_duplicate(
                node_list_ids(nodes@),
            ),
            !has_duplicate(node_list_ids(nodes@)) ==> (r == Result::<Self, GraphError>::Err(
                GraphError::DuplicateEdgeId,
            ) <==> has_duplicate(edge_list_ids(edges@))),
            !has_duplicate(node_list_ids(nodes@)) && !has_duplicate(edge_list_ids(edges@)) ==> (r
                == Result::<Self, GraphError>::Err(GraphError::NoSuchNode)
                <==> !edge_endpoints_present(nodes@, edges@)),
            r is Ok <==> !has_duplicate(node_list_ids(nodes@)) && !has_duplicate(
                edge_list_ids(edges@),
            ) && edge_endpoints_present(nodes@, edges@),
            r is Ok ==> {
                let g = r->Ok_0;
                &&& g.wf()
                &&& forall|id: u32|
                    #[trigger] g.spec_nodes().contains_key(id) <==> node_list_contains_id(
                        nodes@,
                        id,
                    )
                &&& forall|i: int|
                    0 <= i < nodes@.len() ==> g.spec_nodes()[(#[trigger] nodes@[i]).0].spec_info()
                        == nodes@[i].1
                &&& forall|id: u32|
                    #[trigger] g.spec_edges().contains_key(id) <==> edge_list_ids(edges@).contains(
                        id,
                    )
                &&& forall|i: int|
                    0 <= i < edges@.len() ==> {
                        let e = g.spec_edges()[(#[trigger] edges@[i]).0];
                        &&& e.spec_node1() == edges@[i].1.0
                        &&& e.spec_node2() == edges@[i].1.1
                        &&& e.spec_can_move_forward() == true
                        &&& e.spec_can_move_backward() == assume_bidirectional
                        &&& e.spec_info() == edges@[i].2
                    }
            },
    {
        Graph::from_entities(nodes, edges, assume_bidirectional)
    }

    /// Add a node and return its ID.
    pub fn add_node(&mut self, node_info: TNodeInfo) -> (r: u32)
        requires
            old(self).wf(),
            old(self).spec_node_id_alloc() < u32::MAX,
        ensures
            final(self).wf(),
            r == old(self).spec_node_id_alloc(),
            !old(self).spec_nodes().contains_key(r),
            final(self).spec_node_id_alloc() == r + 1,
            final(self).spec_edge_id_alloc() == old(self).spec_edge_id_alloc(),
            final(self).spec_edges() == old(self).spec_edges(),
            final(self).spec_nodes().dom() == old(self).spec_nodes().dom().insert(r),
            forall|nid: u32|
                nid != r && old(self).spec_nodes().contains_key(nid)
                    ==> #[trigger] final(self).spec_nodes()[nid] == old(self).spec_nodes()[nid],
            final(self).spec_nodes()[r].spec_id() == r,
            final(self).spec_nodes()[r].spec_info() == node_info,
            final(self).spec_nodes()[r].spec_connected() == Map::<u32, u32>::empty(),
            final(self).spec_nodes()[r].spec_adjacent() == Map::<u32, Set<u32>>::empty(),
    {
        let node_id = self.node_id_alloc;
        self.node_id_alloc = self.node_id_alloc + 1;
        let node = Node::new(node_id, node_info);
        self.nodes.insert(node_id, node);
        proof {
            assert(self.spec_nodes().dom() =~= old(self).spec_nodes().dom().insert(node_id));
            let pre = old(self);
            let post = self;
            assert forall|eid: u32| #[trigger] post.spec_edges().contains_key(eid) implies {
                let e = post.spec_edges()[eid];
                &&& e.spec_id() == eid
                &&& eid < post.spec_edge_id_alloc()
                &&& post.spec_nodes().contains_key(e.spec_node1())
                &&& post.spec_nodes().contains_key(e.spec_node2())
                &&& post.spec_nodes()[e.spec_node1()].spec_connected().contains_key(eid)
                &&& post.spec_nodes()[e.spec_node1()].spec_connected()[eid] == e.spec_node2()
                &&& post.spec_nodes()[e.spec_node2()].spec_connected().contains_key(eid)
                &&& post.spec_nodes()[e.spec_node2()].spec_connected()[eid] == e.spec_node1()
            } by {
                let e = pre.spec_edges()[eid];
                assert(pre.spec_nodes().contains_key(e.spec_node1()));
                assert(pre.spec_nodes().contains_key(e.spec_node2()));
                assert(e.spec_node1() != node_id && e.spec_node2() != node_id);
            }
        }
        node_id
    }

    /// Add an undirected (bidirectional) edge and return its ID.
    pub fn add_edge(&mut self, node1_id: u32, node2_id: u32, edge_info: TEdgeInfo) -> (r: Result<
        u32,
        GraphError,
    >)
        requires
            old(self).wf(),
            old(self).spec_edge_id_alloc() < u32::MAX,
        ensures
            final(self).wf(),
            ({
                let ok = old(self).spec_nodes().contains_key(node1_id) && old(
                    self,
                ).spec_nodes().contains_key(node2_id);
                &&& r is Ok <==> ok
                &&& !ok ==> r == Result::<u32, GraphError>::Err(GraphError::NoSuchNode)
                    && *final(self) == *old(self)
                &&& ok ==> edge_added_spec(
                    *old(self),
                    *final(self),
                    r->Ok_0,
                    node1_id,
                    node2_id,
                    true,
                    true,
                    edge_info,
                )
            }),
    {
        self.add_directed_edge(node1_id, node2_id, true, true, edge_info)
    }

    /// Add an edge with explicit traversability flags and return its ID.
    pub fn add_directed_edge(
        &mut self,
        node1_id: u32,
        node2_id: u32,
        can_move_forward: bool,
        can_move_backward: bool,
        edge_info: TEdgeInfo,
    ) -> (r: Result<u32, GraphError>)
        requires
            old(self).wf(),
            old(self).spec_edge_id_alloc() < u32::MAX,
        ensures
            final(self).wf(),
            ({
                let ok = old(self).spec_nodes().contains_key(node1_id) && old(
                    self,
                ).spec_nodes().contains_key(node2_id);
                &&& r is Ok <==> ok
                &&& !ok ==> r == Result::<u32, GraphError>::Err(GraphError::NoSuchNode)
                    && *final(self) == *old(self)
                &&& ok ==> edge_added_spec(
                    *old(self),
                    *final(self),
                    r->Ok_0,
                    node1_id,
                    node2_id,
                    can_move_forward,
                    can_move_backward,
                    edge_info,
                )
            }),
    {
        if !self.nodes.contains_key(&node1_id) || !self.nodes.contains_key(&node2_id) {
            return Err(GraphError::NoSuchNode);
        }

        let edge_id = self.edge_id_alloc;
        self.edge_id_alloc = self.edge_id_alloc + 1;
        let edge = Edge::new(
            edge_id,
            node1_id,
            node2_id,
            can_move_forward,
            can_move_backward,
            edge_info,
        );
        self.edges.insert(edge_id, edge);

        let mut n1 = self.nodes.remove(&node1_id).unwrap();
        n1.add_connection(node2_id, edge_id);
        self.nodes.insert(node1_id, n1);

        let mut n2 = self.nodes.remove(&node2_id).unwrap();
        n2.add_connection(node1_id, edge_id);
        self.nodes.insert(node2_id, n2);

        proof {
            assert(old(self).spec_nodes().contains_key(node1_id));
            assert(!old(self).spec_nodes()[node1_id].spec_connected().contains_key(edge_id));
            assert(self.spec_nodes().dom() =~= old(self).spec_nodes().dom());
            lemma_edge_added_wf(*old(self), *self, edge_id, node1_id, node2_id);
        }
        Ok(edge_id)
    }

    /// The ID the next added node will receive; all node IDs lie below it.
    pub fn next_node_id(&self) -> (r: u32)
        ensures
            r == self.spec_node_id_alloc(),
    {
        self.node_id_alloc
    }

    /// The ID the next added edge will receive; all edge IDs lie below it.
    pub fn next_edge_id(&self) -> (r: u32)
        ensures
            r == self.spec_edge_id_alloc(),
    {
        self.edge_id_alloc
    }

    /// Number of nodes.
    pub fn get_node_count(&self) -> (r: usize)
        ensures
            r == self.spec_nodes().len(),
    {
        self.nodes.len()
    }

    /// Number of edges.
    pub fn get_edge_count(&self) -> (r: usize)
        ensures
            r == self.spec_edges().len(),
    {
        self.edges.len()
    }

    pub fn get_nodes(&self) -> (r: &HashMap<u32, Node<TNodeInfo>>)
        ensures
            r@ == self.spec_nodes(),
    {
        &self.nodes
    }

    pub fn get_edges(&self) -> (r: &HashMap<u32, Edge<TEdgeInfo>>)
        ensures
            r@ == self.spec_edges(),
    {
        &self.edges
    }

    pub fn get_node_by_id(&self, node_id: &u32) -> (r: Option<&Node<TNodeInfo>>)
        ensures
            r matches Some(n) ==> self.spec_nodes().contains_key(*node_id) && *n == self.spec_nodes()[*node_id],
            r is None ==> !self.spec_nodes().contains_key(*node_id),
    {
        self.nodes.get(node_id)
    }

    pub fn get_edge_by_id(&self, edge_id: &u32) -> (r: Option<&Edge<TEdgeInfo>>)
        ensures
            r matches Some(e) ==> self.spec_edges().contains_key(*edge_id) && *e == self.spec_edges()[*edge_id],
            r is None ==> !self.spec_edges().contains_key(*edge_id),
    {
        self.edges.get(edge_id)
    }

    /// Replace the payload of the node `node_id`, reporting whether it
    /// exists.
    pub fn set_node_info(&mut self, node_id: u32, node_info: TNodeInfo) -> (r: bool)
        requires
            old(self).wf(),
        ensures
            final(self).wf(),
            r == old(self).spec_nodes().contains_key(node_id),
            final(self).spec_edges() == old(self).spec_edges(),
            final(self).spec_node_id_alloc() == old(self).spec_node_id_alloc(),
            final(self).spec_edge_id_alloc() == old(self).spec_edge_id_alloc(),
            !r ==> *final(self) == *old(self),
            r ==> final(self).spec_nodes().dom() == old(self).spec_nodes().dom(),
            r ==> forall|nid: u32|
                nid != node_id && old(self).spec_nodes().contains_key(nid)
                    ==> #[trigger] final(self).spec_nodes()[nid] == old(self).spec_nodes()[nid],
            r ==> final(self).spec_nodes()[node_id].spec_info() == node_info,
            r ==> final(self).spec_nodes()[node_id].spec_id() == old(
                self,
            ).spec_nodes()[node_id].spec_id(),
            r ==> final(self).spec_nodes()[node_id].spec_connected() == old(
                self,
            ).spec_nodes()[node_id].spec_connected(),
            r ==> final(self).spec_nodes()[node_id].spec_adjacent() == old(
                self,
            ).spec_nodes()[node_id].spec_adjacent(),
    {
        if !self.nodes.contains_key(&node_id) {
            return false;
        }
        let mut node = match self.nodes.remove(&node_id) {
            Some(n) => n,
            None => {
                return false;
            },
        };
        let info_ref = node.node_info_mut();
        *info_ref = node_info;
        self.nodes.insert(node_id, node);
        proof {
            assert(self.spec_nodes().dom() =~= old(self).spec_nodes().dom());
            let pre = old(self);
            let post = self;
            let pre_n = pre.spec_nodes()[node_id];
            let post_n = post.spec_nodes()[node_id];
            assert(post_n.spec_adjacent() == pre_n.spec_adjacent());
            assert(post_n.spec_connected() == pre_n.spec_connected());
            assert(post_n.wf());
            assert forall|eid: u32| #[trigger] post.spec_edges().contains_key(eid) implies {
                let e = post.spec_edges()[eid];
                &&& e.spec_id() == eid
                &&& eid < post.spec_edge_id_alloc()
                &&& post.spec_nodes().contains_key(e.spec_node1())
                &&& post.spec_nodes().contains_key(e.spec_node2())
                &&& post.spec_nodes()[e.spec_node1()].spec_connected().contains_key(eid)
                &&& post.spec_nodes()[e.spec_node1()].spec_connected()[eid] == e.spec_node2()
                &&& post.spec_nodes()[e.spec_node2()].spec_connected().contains_key(eid)
                &&& post.spec_nodes()[e.spec_node2()].spec_connected()[eid] == e.spec_node1()
            } by {
                let e = pre.spec_edges()[eid];
                assert(pre.spec_nodes()[e.spec_node1()].spec_connected().contains_key(eid));
                assert(pre.spec_nodes()[e.spec_node2()].spec_connected().contains_key(eid));
                assert(post.spec_nodes()[e.spec_node1()].spec_connected() == pre.spec_nodes()[e.spec_node1()].spec_connected());
                assert(post.spec_nodes()[e.spec_node2()].spec_connected() == pre.spec_nodes()[e.spec_node2()].spec_connected());
            }
            assert forall|nid: u32, eid: u32|
                post.spec_nodes().contains_key(nid) && #[trigger] post.spec_nodes()[nid].spec_connected().contains_key(
                    eid,
                ) implies {
                let e = post.spec_edges()[eid];
                &&& post.spec_edges().contains_key(eid)
                &&& (e.spec_node1() == nid && e.spec_node2() == post.spec_nodes()[nid].spec_connected()[eid]
                    || e.spec_node2() == nid && e.spec_node1() == post.spec_nodes()[nid].spec_connected()[eid])
            } by {
                assert(post.spec_nodes()[nid].spec_connected() == pre.spec_nodes()[nid].spec_connected());
                assert(pre.spec_nodes()[nid].spec_connected().contains_key(eid));
            }
        }
        true
    }
}

impl<TNodeInfo, TEdgeInfo> Graph<TNodeInfo, TEdgeInfo> {
    /// Remove the node `node_id` together with every incident edge,
    /// clearing the adjacency entries of the opposite endpoints.
    pub fn remove_node(&mut self, node_id: &u32) -> (r: Result<u32, GraphError>)
        requires
            old(self).wf(),
        ensures
            final(self).wf(),
            r is Ok <==> old(self).spec_nodes().contains_key(*node_id),
            r is Err ==> r == Result::<u32, GraphError>::Err(GraphError::NoSuchNode) && *final(self)
                == *old(self),
            r is Ok ==> {
                let incident = old(self).spec_nodes()[*node_id].spec_connected().dom();
                &&& r == Result::<u32, GraphError>::Ok(*node_id)
                &&& final(self).spec_nodes().dom() == old(self).spec_nodes().dom().remove(*node_id)
                &&& final(self).spec_edges() == old(self).spec_edges().remove_keys(incident)
                &&& final(self).spec_node_id_alloc() == old(self).spec_node_id_alloc()
                &&& final(self).spec_edge_id_alloc() == old(self).spec_edge_id_alloc()
                &&& forall|m: u32|
                    #[trigger] final(self).spec_nodes().contains_key(m) ==> {
                        &&& final(self).spec_nodes()[m].spec_id() == old(
                            self,
                        ).spec_nodes()[m].spec_id()
                        &&& final(self).spec_nodes()[m].spec_info() == old(
                            self,
                        ).spec_nodes()[m].spec_info()
                        &&& final(self).spec_nodes()[m].spec_connected() == old(
                            self,
                        ).spec_nodes()[m].spec_connected().remove_keys(incident)
                        &&& final(self).spec_nodes()[m].spec_adjacent() == old(
                            self,
                        ).spec_nodes()[m].spec_adjacent().remove(*node_id)
                    }
            },
    {
        let nid: u32 = *node_id;
        if !self.nodes.contains_key(&nid) {
            return Err(GraphError::NoSuchNode);
        }
        let ghost pre = *old(self);
        let ghost incident = pre.spec_nodes()[nid].spec_connected().dom();
        let removed_node = self.nodes.remove(&nid).unwrap();
        let edge_alloc: u32 = self.edge_id_alloc;
        let mut eid: u32 = 0;
        proof {
            assert(processed_upto(incident, 0) =~= Set::<u32>::empty());
            assert(self.edges@ =~= pre.spec_edges().remove_keys(processed_upto(incident, 0)));
            assert forall|m: u32| #[trigger] self.nodes@.contains_key(m) implies {
                &&& self.nodes@[m].spec_connected() =~= pre.spec_nodes()[m].spec_connected()
                    .remove_keys(processed_upto(incident, 0))
                &&& self.nodes@[m].spec_adjacent() =~~= drained_adjacency(
                    pre.spec_nodes()[m].spec_adjacent(),
                    nid,
                    processed_upto(incident, 0),
                )
            } by {
                assert(pre.spec_nodes()[m].spec_connected().remove_keys(Set::<u32>::empty())
                    =~= pre.spec_nodes()[m].spec_connected());
                if pre.spec_nodes()[m].spec_adjacent().contains_key(nid) {
                    assert(pre.spec_nodes()[m].wf());
                    let w = choose|w: u32| pre.spec_nodes()[m].spec_adjacent()[nid].contains(w);
                    assert(!pre.spec_nodes()[m].spec_adjacent()[nid].subset_of(
                        Set::<u32>::empty(),
                    ));
                    assert(pre.spec_nodes()[m].spec_adjacent()[nid].difference(
                        Set::<u32>::empty(),
                    ) =~= pre.spec_nodes()[m].spec_adjacent()[nid]);
                    assert(drained_adjacency(
                        pre.spec_nodes()[m].spec_adjacent(),
                        nid,
                        Set::<u32>::empty(),
                    ) =~~= pre.spec_nodes()[m].spec_adjacent());
                }
            }
        }
        while eid < edge_alloc
            invariant
                pre.wf(),
                pre.spec_nodes().contains_key(nid),
                removed_node == pre.spec_nodes()[nid],
                incident == pre.spec_nodes()[nid].spec_connected().dom(),
                edge_alloc == pre.spec_edge_id_alloc(),
                eid <= edge_alloc,
                self.spec_node_id_alloc() == pre.spec_node_id_alloc(),
                self.spec_edge_id_alloc() == pre.spec_edge_id_alloc(),
                self.nodes@.dom() == pre.spec_nodes().dom().remove(nid),
                self.edges@ == pre.spec_edges().remove_keys(processed_upto(incident, eid)),
                forall|m: u32|
                    #[trigger] self.nodes@.contains_key(m) ==> {
                        &&& self.nodes@[m].spec_id() == pre.spec_nodes()[m].spec_id()
                        &&& self.nodes@[m].spec_info() == pre.spec_nodes()[m].spec_info()
                        &&& self.nodes@[m].wf()
                        &&& self.nodes@[m].spec_connected() == pre.spec_nodes()[m].spec_connected()
                            .remove_keys(processed_upto(incident, eid))
                        &&& self.nodes@[m].spec_adjacent() == drained_adjacency(
                            pre.spec_nodes()[m].spec_adjacent(),
                            nid,
                            processed_upto(incident, eid),
                        )
                    },
            decreases edge_alloc - eid,
        {
            let ghost p = processed_upto(incident, eid);
            let m_found: Option<u32> = match removed_node.connected_edges().get(&eid) {
                Some(m_ref) => Some(*m_ref),
                None => None,
            };
            match m_found {
                Some(m) => {
                    proof {
                        assert(incident.contains(eid));
                        assert(!p.contains(eid));
                        // The edge eid joins nid and m in the original graph.
                        assert(pre.spec_nodes()[nid].spec_connected().contains_key(eid));
                        assert(pre.spec_edges().contains_key(eid));
                        let e = pre.spec_edges()[eid];
                        assert(e.spec_node1() == nid && e.spec_node2() == m || e.spec_node2() == nid
                            && e.spec_node1() == m);
                        assert(pre.spec_nodes().contains_key(m));
                    }
                    self.edges.remove(&eid);
                    proof {
                        assert(pre.spec_edges().remove_keys(p).remove(eid) =~= pre.spec_edges()
                            .remove_keys(processed_upto(incident, (eid + 1) as u32)));
                    }
                    if self.nodes.contains_key(&m) {
                        let mut n = self.nodes.remove(&m).unwrap();
                        proof {
                            // The edge is still recorded at m.
                            assert(pre.spec_nodes()[m].spec_connected().contains_key(eid));
                            assert(n.spec_connected().contains_key(eid));
                            assert(n.spec_connected()[eid] == pre.spec_nodes()[m].spec_connected()[eid]);
                            assert(pre.spec_nodes()[m].spec_connected()[eid] == nid);
                        }
                        n.remove_connection(eid);
                        self.nodes.insert(m, n);
                        proof {
                            let p2 = processed_upto(incident, (eid + 1) as u32);
                            assert(p2 =~= p.insert(eid));
                            assert(self.nodes@.dom() =~= pre.spec_nodes().dom().remove(nid));
                            assert forall|m2: u32| #[trigger] self.nodes@.contains_key(m2) implies {
                                &&& self.nodes@[m2].spec_connected() == pre.spec_nodes()[m2]
                                    .spec_connected().remove_keys(p2)
                                &&& self.nodes@[m2].spec_adjacent() == drained_adjacency(
                                    pre.spec_nodes()[m2].spec_adjacent(),
                                    nid,
                                    p2,
                                )
                            } by {
                                if m2 == m {
                                    assert(self.nodes@[m2].spec_connected() =~= pre.spec_nodes()[m2]
                                        .spec_connected().remove_keys(p2));
                                    assert(pre.spec_nodes()[m].spec_adjacent().contains_key(nid)
                                        && pre.spec_nodes()[m].spec_adjacent()[nid].contains(eid));
                                    lemma_drain_step(
                                        pre.spec_nodes()[m].spec_adjacent(),
                                        nid,
                                        p,
                                        eid,
                                    );
                                } else {
                                    // eid does not touch m2: it joins nid and m.
                                    if pre.spec_nodes()[m2].spec_adjacent().contains_key(nid)
                                        && pre.spec_nodes()[m2].spec_adjacent()[nid].contains(eid) {
                                        assert(pre.spec_nodes()[m2].spec_connected().contains_key(
                                            eid,
                                        ) && pre.spec_nodes()[m2].spec_connected()[eid] == nid);
                                        assert(false);
                                    }
                                    lemma_drain_skip(
                                        pre.spec_nodes()[m2].spec_adjacent(),
                                        nid,
                                        p,
                                        eid,
                                    );
                                    assert(!pre.spec_nodes()[m2].spec_connected().contains_key(eid)
                                        || pre.spec_nodes()[m2].spec_connected()[eid] == nid || m2
                                        == m);
                                    assert(self.nodes@[m2].spec_connected() =~= pre.spec_nodes()[m2]
                                        .spec_connected().remove_keys(p2));
                                }
                            }
                        }
                    } else {
                        proof {
                            // The opposite endpoint is nid itself: a self-loop.
                            assert(m == nid);
                            let p2 = processed_upto(incident, (eid + 1) as u32);
                            assert(p2 =~= p.insert(eid));
                            assert forall|m2: u32| #[trigger] self.nodes@.contains_key(m2) implies {
                                &&& self.nodes@[m2].spec_connected() == pre.spec_nodes()[m2]
                                    .spec_connected().remove_keys(p2)
                                &&& self.nodes@[m2].spec_adjacent() == drained_adjacency(
                                    pre.spec_nodes()[m2].spec_adjacent(),
                                    nid,
                                    p2,
                                )
                            } by {
                                if pre.spec_nodes()[m2].spec_adjacent().contains_key(nid)
                                    && pre.spec_nodes()[m2].spec_adjacent()[nid].contains(eid) {
                                    assert(pre.spec_nodes()[m2].spec_connected().contains_key(eid)
                                        && pre.spec_nodes()[m2].spec_connected()[eid] == nid);
                                    assert(false);
                                }
                                lemma_drain_skip(pre.spec_nodes()[m2].spec_adjacent(), nid, p, eid);
                                assert(self.nodes@[m2].spec_connected() =~= pre.spec_nodes()[m2]
                                    .spec_connected().remove_keys(p2));
                            }
                        }
                    }
                },
                None => {
                    proof {
                        assert(!incident.contains(eid));
                        assert(processed_upto(incident, (eid + 1) as u32) =~= p);
                    }
                },
            }
            eid = eid + 1;
        }
        proof {
            let pf = processed_upto(incident, edge_alloc);
            assert(pf =~= incident) by {
                assert forall|e: u32| incident.contains(e) implies pf.contains(e) by {
                    assert(pre.spec_nodes()[nid].spec_connected().contains_key(e));
                    assert(pre.spec_edges().contains_key(e));
                }
            }
            let post = self;
            assert(post.spec_nodes().dom() =~= pre.spec_nodes().dom().remove(nid));
            // Integrity of what remains.
            assert forall|e2: u32| #[trigger] post.spec_edges().contains_key(e2) implies {
                let e = post.spec_edges()[e2];
                &&& e.spec_id() == e2
                &&& e2 < post.spec_edge_id_alloc()
                &&& post.spec_nodes().contains_key(e.spec_node1())
                &&& post.spec_nodes().contains_key(e.spec_node2())
                &&& post.spec_nodes()[e.spec_node1()].spec_connected().contains_key(e2)
                &&& post.spec_nodes()[e.spec_node1()].spec_connected()[e2] == e.spec_node2()
                &&& post.spec_nodes()[e.spec_node2()].spec_connected().contains_key(e2)
                &&& post.spec_nodes()[e.spec_node2()].spec_connected()[e2] == e.spec_node1()
            } by {
                assert(pre.spec_edges().contains_key(e2) && !incident.contains(e2));
                let e = pre.spec_edges()[e2];
                assert(pre.spec_nodes()[e.spec_node1()].spec_connected().contains_key(e2));
                assert(pre.spec_nodes()[e.spec_node2()].spec_connected().contains_key(e2));
                assert(e.spec_node1() != nid && e.spec_node2() != nid);
            }
            assert forall|m2: u32, e2: u32|
                post.spec_nodes().contains_key(m2) && #[trigger] post.spec_nodes()[m2]
                    .spec_connected().contains_key(e2) implies {
                let e = post.spec_edges()[e2];
                &&& post.spec_edges().contains_key(e2)
                &&& (e.spec_node1() == m2 && e.spec_node2() == post.spec_nodes()[m2]
                    .spec_connected()[e2] || e.spec_node2() == m2 && e.spec_node1()
                    == post.spec_nodes()[m2].spec_connected()[e2])
            } by {
                assert(pre.spec_nodes()[m2].spec_connected().contains_key(e2));
                assert(!incident.contains(e2));
            }
            // Every edge recorded at a neighbor toward nid is incident.
            assert forall|m2: u32| #[trigger] post.spec_nodes().contains_key(m2) implies post
                .spec_nodes()[m2].spec_adjacent() == pre.spec_nodes()[m2].spec_adjacent().remove(
                nid,
            ) by {
                let adj = pre.spec_nodes()[m2].spec_adjacent();
                if adj.contains_key(nid) {
                    assert forall|e2: u32| adj[nid].contains(e2) implies incident.contains(e2) by {
                        assert(pre.spec_nodes()[m2].spec_connected().contains_key(e2)
                            && pre.spec_nodes()[m2].spec_connected()[e2] == nid);
                        assert(pre.spec_edges().contains_key(e2));
                        let e = pre.spec_edges()[e2];
                        assert(pre.spec_nodes()[nid].spec_connected().contains_key(e2));
                    }
                    assert(adj[nid].subset_of(incident));
                    assert(drained_adjacency(adj, nid, incident) == adj.remove(nid));
                } else {
                    assert(drained_adjacency(adj, nid, incident) == adj);
                    assert(adj.remove(nid) =~= adj);
                }
            }
        }
        Ok(removed_node.get_id())
    }

    /// Remove the edge `edge_id`, updating both endpoints' adjacency.
    pub fn remove_edge(&mut self, edge_id: &u32) -> (r: Result<u32, GraphError>)
        requires
            old(self).wf(),
        ensures
            final(self).wf(),
            r is Ok <==> old(self).spec_edges().contains_key(*edge_id),
            r is Err ==> r == Result::<u32, GraphError>::Err(GraphError::NoSuchEdge) && *final(self)
                == *old(self),
            r is Ok ==> {
                let e = old(self).spec_edges()[*edge_id];
                let n1 = e.spec_node1();
                let n2 = e.spec_node2();
                &&& r == Result::<u32, GraphError>::Ok(*edge_id)
                &&& final(self).spec_edges() == old(self).spec_edges().remove(*edge_id)
                &&& final(self).spec_nodes().dom() == old(self).spec_nodes().dom()
                &&& final(self).spec_node_id_alloc() == old(self).spec_node_id_alloc()
                &&& final(self).spec_edge_id_alloc() == old(self).spec_edge_id_alloc()
                &&& forall|m: u32|
                    m != n1 && m != n2 && old(self).spec_nodes().contains_key(m)
                        ==> #[trigger] final(self).spec_nodes()[m] == old(self).spec_nodes()[m]
                &&& forall|m: u32|
                    (m == n1 || m == n2) && old(self).spec_nodes().contains_key(m) ==> {
                        &&& (#[trigger] final(self).spec_nodes()[m]).spec_id() == m
                        &&& final(self).spec_nodes()[m].spec_info() == old(
                            self,
                        ).spec_nodes()[m].spec_info()
                        &&& final(self).spec_nodes()[m].spec_connected() == old(
                            self,
                        ).spec_nodes()[m].spec_connected().remove(*edge_id)
                    }
            },
    {
        let eid: u32 = *edge_id;
        if !self.edges.contains_key(&eid) {
            return Err(GraphError::NoSuchEdge);
        }
        proof {
            let e = old(self).spec_edges()[eid];
            assert(old(self).spec_nodes().contains_key(e.spec_node1()));
            assert(old(self).spec_nodes().contains_key(e.spec_node2()));
            assert(old(self).spec_nodes()[e.spec_node1()].wf());
            assert(old(self).spec_nodes()[e.spec_node2()].wf());
            assert(old(self).spec_nodes()[e.spec_node1()].spec_connected().contains_key(eid));
            assert(old(self).spec_nodes()[e.spec_node2()].spec_connected().contains_key(eid));
        }
        let removed_edge = self.edges.remove(&eid).unwrap();
        let n1_id = removed_edge.node1();
        let n2_id = removed_edge.node2();

        let mut n1 = self.nodes.remove(&n1_id).unwrap();
        n1.remove_connection(eid);
        self.nodes.insert(n1_id, n1);

        let mut n2 = self.nodes.remove(&n2_id).unwrap();
        n2.remove_connection(eid);
        self.nodes.insert(n2_id, n2);

        proof {
            let pre = old(self);
            let post = self;
            assert(pre.spec_nodes().contains_key(n1_id) && pre.spec_nodes().contains_key(n2_id));
            assert(post.spec_nodes().dom() =~= pre.spec_nodes().dom());
            if n1_id == n2_id {
                assert(post.spec_nodes()[n1_id].spec_connected() == pre.spec_nodes()[n1_id]
                    .spec_connected().remove(eid));
            }
            assert forall|e2: u32| #[trigger] post.spec_edges().contains_key(e2) implies {
                let e = post.spec_edges()[e2];
                &&& e.spec_id() == e2
                &&& e2 < post.spec_edge_id_alloc()
                &&& post.spec_nodes().contains_key(e.spec_node1())
                &&& post.spec_nodes().contains_key(e.spec_node2())
                &&& post.spec_nodes()[e.spec_node1()].spec_connected().contains_key(e2)
                &&& post.spec_nodes()[e.spec_node1()].spec_connected()[e2] == e.spec_node2()
                &&& post.spec_nodes()[e.spec_node2()].spec_connected().contains_key(e2)
                &&& post.spec_nodes()[e.spec_node2()].spec_connected()[e2] == e.spec_node1()
            } by {
                assert(pre.spec_edges().contains_key(e2) && e2 != eid);
                let e = pre.spec_edges()[e2];
                assert(pre.spec_nodes()[e.spec_node1()].spec_connected().contains_key(e2));
                assert(pre.spec_nodes()[e.spec_node2()].spec_connected().contains_key(e2));
            }
            assert forall|nid: u32, e2: u32|
                post.spec_nodes().contains_key(nid) && #[trigger] post.spec_nodes()[nid]
                    .spec_connected().contains_key(e2) implies {
                let e = post.spec_edges()[e2];
                &&& post.spec_edges().contains_key(e2)
                &&& (e.spec_node1() == nid && e.spec_node2() == post.spec_nodes()[nid]
                    .spec_connected()[e2] || e.spec_node2() == nid && e.spec_node1()
                    == post.spec_nodes()[nid].spec_connected()[e2])
            } by {
                assert(pre.spec_nodes()[nid].spec_connected().contains_key(e2));
                assert(e2 != eid);
            }
        }
        Ok(eid)
    }
}

/// The incident edges with IDs below `eid`.
pub open spec fn processed_upto(incident: Set<u32>, eid: u32) -> Set<u32> {
    Set::new(|e: u32| incident.contains(e) && e < eid)
}

/// The adjacency map of a neighbor after the edges in `processed` toward
/// `nid` have been removed one at a time: the neighbor entry for `nid`
/// shrinks, and disappears once all its edges are gone.
pub open spec fn drained_adjacency(adj: Map<u32, Set<u32>>, nid: u32, processed: Set<u32>) -> Map<
    u32,
    Set<u32>,
> {
    if !adj.contains_key(nid) {
        adj
    } else if adj[nid].subset_of(processed) {
        adj.remove(nid)
    } else {
        adj.insert(nid, adj[nid].difference(processed))
    }
}

/// Removing one more incident edge advances the drained adjacency by one.
proof fn lemma_drain_step(adj: Map<u32, Set<u32>>, nid: u32, p: Set<u32>, e: u32)
    requires
        adj.contains_key(nid),
        adj[nid].contains(e),
        !p.contains(e),
    ensures
        adjacency_after_removal(drained_adjacency(adj, nid, p), nid, e) =~~= drained_adjacency(
            adj,
            nid,
            p.insert(e),
        ),
{
    let s = adj[nid].difference(p);
    assert(s.contains(e));
    assert(!adj[nid].subset_of(p));
    let d = drained_adjacency(adj, nid, p);
    assert(d == adj.insert(nid, s));
    assert(d.contains_key(nid) && d[nid] == s);
    if adj[nid].subset_of(p.insert(e)) {
        assert(s.remove(e) =~= Set::<u32>::empty());
        assert(adjacency_after_removal(d, nid, e) == d.remove(nid));
        assert(d.remove(nid) =~~= adj.remove(nid));
    } else {
        assert(!(s.remove(e) =~= Set::<u32>::empty())) by {
            let w = choose|w: u32| adj[nid].contains(w) && !p.insert(e).contains(w);
            assert(s.remove(e).contains(w));
        }
        assert(adjacency_after_removal(d, nid, e) == d.insert(nid, s.remove(e)));
        assert(s.remove(e) =~= adj[nid].difference(p.insert(e)));
        assert(d.insert(nid, s.remove(e)) =~~= adj.insert(nid, adj[nid].difference(p.insert(e))));
    }
}

/// An edge that does not reach `nid` leaves the drained adjacency alone.
proof fn lemma_drain_skip(adj: Map<u32, Set<u32>>, nid: u32, p: Set<u32>, e: u32)
    requires
        !adj.contains_key(nid) || !adj[nid].contains(e),
    ensures
        drained_adjacency(adj, nid, p.insert(e)) =~~= drained_adjacency(adj, nid, p),
{
    if adj.contains_key(nid) {
        assert(adj[nid].subset_of(p.insert(e)) == adj[nid].subset_of(p));
        if !adj[nid].subset_of(p) {
            assert(adj[nid].difference(p.insert(e)) =~= adj[nid].difference(p));
        }
    }
}

/// Graph integrity, stated as a law: in a well-formed graph, both
/// endpoints of every edge exist, each endpoint's adjacency records the
/// edge toward the opposite endpoint, and the recorded edge set of the
/// opposite endpoint lists the edge as well.
pub proof fn lemma_graph_integrity<N, E>(g: Graph<N, E>, eid: u32)
    requires
        g.wf(),
        g.spec_edges().contains_key(eid),
    ensures
        g.spec_nodes().contains_key(g.spec_edges()[eid].spec_node1()),
        g.spec_nodes().contains_key(g.spec_edges()[eid].spec_node2()),
        g.spec_nodes()[g.spec_edges()[eid].spec_node1()].spec_connected().contains_key(eid),
        g.spec_nodes()[g.spec_edges()[eid].spec_node1()].spec_connected()[eid] == g.spec_edges()[eid].spec_node2(),
        g.spec_nodes()[g.spec_edges()[eid].spec_node1()].spec_adjacent().contains_key(
            g.spec_edges()[eid].spec_node2(),
        ),
        g.spec_nodes()[g.spec_edges()[eid].spec_node1()].spec_adjacent()[g.spec_edges()[eid].spec_node2()].contains(
            eid,
        ),
        g.spec_nodes()[g.spec_edges()[eid].spec_node2()].spec_connected().contains_key(eid),
        g.spec_nodes()[g.spec_edges()[eid].spec_node2()].spec_connected()[eid] == g.spec_edges()[eid].spec_node1(),
        g.spec_nodes()[g.spec_edges()[eid].spec_node2()].spec_adjacent().contains_key(
            g.spec_edges()[eid].spec_node1(),
        ),
        g.spec_nodes()[g.spec_edges()[eid].spec_node2()].spec_adjacent()[g.spec_edges()[eid].spec_node1()].contains(
            eid,
        ),
{
    let e = g.spec_edges()[eid];
    assert(g.spec_nodes().contains_key(e.spec_node1()));
    assert(g.spec_nodes()[e.spec_node1()].wf());
    assert(g.spec_nodes()[e.spec_node2()].wf());
    assert(g.spec_nodes()[e.spec_node1()].spec_connected().contains_key(eid));
    assert(g.spec_nodes()[e.spec_node2()].spec_connected().contains_key(eid));
}

/// The IDs of a node list.
pub open spec fn node_list_ids<N>(s: Seq<(u32, N)>) -> Seq<u32> {
    s.map_values(|p: (u32, N)| p.0)
}

/// The IDs of an edge list.
pub open spec fn edge_list_ids<E>(s: Seq<(u32, (u32, u32), E)>) -> Seq<u32> {
    s.map_values(|t: (u32, (u32, u32), E)| t.0)
}

/// Some ID occurs twice.
pub open spec fn has_duplicate(ids: Seq<u32>) -> bool {
    exists|i: int, j: int| 0 <= i < j < ids.len() && ids[i] == ids[j]
}

/// The node list carries the given ID.
pub open spec fn node_list_contains_id<N>(s: Seq<(u32, N)>, id: u32) -> bool {
    exists|j: int| 0 <= j < s.len() && (#[trigger] s[j]).0 == id
}

/// Every edge endpoint names a listed node.
pub open spec fn edge_endpoints_present<N, E>(
    nodes: Seq<(u32, N)>,
    edges: Seq<(u32, (u32, u32), E)>,
) -> bool {
    forall|i: int|
        0 <= i < edges.len() ==> node_list_contains_id(nodes, (#[trigger] edges[i]).1.0)
            && node_list_contains_id(nodes, edges[i].1.1)
}

/// Graph integrity over bare node and edge maps, before allocator bounds.
pub open spec fn parts_wf<N, E>(nodes: Map<u32, Node<N>>, edges: Map<u32, Edge<E>>) -> bool {
    &&& forall|nid: u32|
        #[trigger] nodes.contains_key(nid) ==> nodes[nid].spec_id() == nid && nodes[nid].wf()
    &&& forall|eid: u32|
        #[trigger] edges.contains_key(eid) ==> {
            let e = edges[eid];
            &&& e.spec_id() == eid
            &&& nodes.contains_key(e.spec_node1())
            &&& nodes.contains_key(e.spec_node2())
            &&& nodes[e.spec_node1()].spec_connected().contains_key(eid)
            &&& nodes[e.spec_node1()].spec_connected()[eid] == e.spec_node2()
            &&& nodes[e.spec_node2()].spec_connected().contains_key(eid)
            &&& nodes[e.spec_node2()].spec_connected()[eid] == e.spec_node1()
        }
    &&& forall|nid: u32, eid: u32|
        nodes.contains_key(nid) && #[trigger] nodes[nid].spec_connected().contains_key(eid) ==> {
            let e = edges[eid];
            &&& edges.contains_key(eid)
            &&& (e.spec_node1() == nid && e.spec_node2() == nodes[nid].spec_connected()[eid]
                || e.spec_node2() == nid && e.spec_node1() == nodes[nid].spec_connected()[eid])
        }
}

/// Recording a fresh edge at both of its endpoints keeps the parts sound.
proof fn lemma_parts_edge_added<N, E>(
    pre_nodes: Map<u32, Node<N>>,
    pre_edges: Map<u32, Edge<E>>,
    post_nodes: Map<u32, Node<N>>,
    post_edges: Map<u32, Edge<E>>,
    eid: u32,
    n1: u32,
    n2: u32,
)
    requires
        parts_wf(pre_nodes, pre_edges),
        !pre_edges.contains_key(eid),
        pre_nodes.contains_key(n1),
        pre_nodes.contains_key(n2),
        !pre_nodes[n1].spec_connected().contains_key(eid),
        !pre_nodes[n2].spec_connected().contains_key(eid),
        post_edges.dom() == pre_edges.dom().insert(eid),
        forall|e: u32|
            e != eid && pre_edges.contains_key(e) ==> #[trigger] post_edges[e] == pre_edges[e],
        post_edges[eid].spec_id() == eid,
        post_edges[eid].spec_node1() == n1,
        post_edges[eid].spec_node2() == n2,
        post_nodes.dom() == pre_nodes.dom(),
        forall|m: u32|
            m != n1 && m != n2 && pre_nodes.contains_key(m) ==> #[trigger] post_nodes[m]
                == pre_nodes[m],
        forall|m: u32|
            (m == n1 || m == n2) && pre_nodes.contains_key(m) ==> {
                &&& (#[trigger] post_nodes[m]).spec_id() == m
                &&& post_nodes[m].wf()
                &&& post_nodes[m].spec_connected() == pre_nodes[m].spec_connected().insert(
                    eid,
                    if m == n1 {
                        n2
                    } else {
                        n1
                    },
                )
            },
    ensures
        parts_wf(post_nodes, post_edges),
{
    assert forall|e2: u32| #[trigger] post_edges.contains_key(e2) implies {
        let e = post_edges[e2];
        &&& e.spec_id() == e2
        &&& post_nodes.contains_key(e.spec_node1())
        &&& post_nodes.contains_key(e.spec_node2())
        &&& post_nodes[e.spec_node1()].spec_connected().contains_key(e2)
        &&& post_nodes[e.spec_node1()].spec_connected()[e2] == e.spec_node2()
        &&& post_nodes[e.spec_node2()].spec_connected().contains_key(e2)
        &&& post_nodes[e.spec_node2()].spec_connected()[e2] == e.spec_node1()
    } by {
        if e2 != eid {
            assert(pre_edges.contains_key(e2));
            let e = pre_edges[e2];
            assert(pre_nodes[e.spec_node1()].spec_connected().contains_key(e2));
            assert(pre_nodes[e.spec_node2()].spec_connected().contains_key(e2));
        }
    }
    assert forall|nid: u32, e2: u32|
        post_nodes.contains_key(nid) && #[trigger] post_nodes[nid].spec_connected().contains_key(
            e2,
        ) implies {
        let e = post_edges[e2];
        &&& post_edges.contains_key(e2)
        &&& (e.spec_node1() == nid && e.spec_node2() == post_nodes[nid].spec_connected()[e2]
            || e.spec_node2() == nid && e.spec_node1() == post_nodes[nid].spec_connected()[e2])
    } by {
        if (nid == n1 || nid == n2) && e2 == eid {
        } else {
            assert(pre_nodes[nid].spec_connected().contains_key(e2));
        }
    }
}

/// What adding the edge `eid` between `n1` and `n2` does to a graph.
pub open spec fn edge_added_spec<N, E>(
    pre: Graph<N, E>,
    post: Graph<N, E>,
    eid: u32,
    n1: u32,
    n2: u32,
    fwd: bool,
    bwd: bool,
    info: E,
) -> bool {
    &&& eid == pre.spec_edge_id_alloc()
    &&& post.spec_edge_id_alloc() == eid + 1
    &&& post.spec_node_id_alloc() == pre.spec_node_id_alloc()
    &&& post.spec_edges().dom() == pre.spec_edges().dom().insert(eid)
    &&& forall|e: u32|
        e != eid && pre.spec_edges().contains_key(e) ==> #[trigger] post.spec_edges()[e]
            == pre.spec_edges()[e]
    &&& post.spec_edges()[eid].spec_id() == eid
    &&& post.spec_edges()[eid].spec_node1() == n1
    &&& post.spec_edges()[eid].spec_node2() == n2
    &&& post.spec_edges()[eid].spec_can_move_forward() == fwd
    &&& post.spec_edges()[eid].spec_can_move_backward() == bwd
    &&& post.spec_edges()[eid].spec_info() == info
    &&& post.spec_nodes().dom() == pre.spec_nodes().dom()
    &&& forall|m: u32|
        m != n1 && m != n2 && pre.spec_nodes().contains_key(m) ==> #[trigger] post.spec_nodes()[m]
            == pre.spec_nodes()[m]
    &&& forall|m: u32|
        (m == n1 || m == n2) && pre.spec_nodes().contains_key(m) ==> {
            &&& (#[trigger] post.spec_nodes()[m]).spec_id() == m
            &&& post.spec_nodes()[m].spec_info() == pre.spec_nodes()[m].spec_info()
            &&& post.spec_nodes()[m].spec_connected() == pre.spec_nodes()[m].spec_connected().insert(
                eid,
                if m == n1 {
                    n2
                } else {
                    n1
                },
            )
        }
}

/// Adding an edge between existing nodes preserves graph integrity.
proof fn lemma_edge_added_wf<N, E>(pre: Graph<N, E>, post: Graph<N, E>, eid: u32, n1: u32, n2: u32)
    requires
        pre.wf(),
        pre.spec_edge_id_alloc() < u32::MAX,
        pre.spec_nodes().contains_key(n1),
        pre.spec_nodes().contains_key(n2),
        eid == pre.spec_edge_id_alloc(),
        post.spec_edge_id_alloc() == eid + 1,
        post.spec_node_id_alloc() == pre.spec_node_id_alloc(),
        post.spec_edges().dom() == pre.spec_edges().dom().insert(eid),
        forall|e: u32|
            e != eid && pre.spec_edges().contains_key(e) ==> #[trigger] post.spec_edges()[e]
                == pre.spec_edges()[e],
        post.spec_edges()[eid].spec_id() == eid,
        post.spec_edges()[eid].spec_node1() == n1,
        post.spec_edges()[eid].spec_node2() == n2,
        post.spec_nodes().dom() == pre.spec_nodes().dom(),
        forall|m: u32|
            m != n1 && m != n2 && pre.spec_nodes().contains_key(m) ==> #[trigger] post.spec_nodes()[m]
                == pre.spec_nodes()[m],
        forall|m: u32|
            (m == n1 || m == n2) && pre.spec_nodes().contains_key(m) ==> {
                &&& (#[trigger] post.spec_nodes()[m]).spec_id() == m
                &&& post.spec_nodes()[m].wf()
                &&& post.spec_nodes()[m].spec_connected() == pre.spec_nodes()[m].spec_connected().insert(
                    eid,
                    if m == n1 {
                        n2
                    } else {
                        n1
                    },
                )
            },
    ensures
        post.wf(),
{
    assert forall|e2: u32| #[trigger] post.spec_edges().contains_key(e2) implies {
        let e = post.spec_edges()[e2];
        &&& e.spec_id() == e2
        &&& e2 < post.spec_edge_id_alloc()
        &&& post.spec_nodes().contains_key(e.spec_node1())
        &&& post.spec_nodes().contains_key(e.spec_node2())
        &&& post.spec_nodes()[e.spec_node1()].spec_connected().contains_key(e2)
        &&& post.spec_nodes()[e.spec_node1()].spec_connected()[e2] == e.spec_node2()
        &&& post.spec_nodes()[e.spec_node2()].spec_connected().contains_key(e2)
        &&& post.spec_nodes()[e.spec_node2()].spec_connected()[e2] == e.spec_node1()
    } by {
        if e2 != eid {
            assert(pre.spec_edges().contains_key(e2));
            let e = pre.spec_edges()[e2];
            assert(pre.spec_nodes()[e.spec_node1()].spec_connected().contains_key(e2));
            assert(pre.spec_nodes()[e.spec_node2()].spec_connected().contains_key(e2));
        }
    }
    assert forall|nid: u32, e2: u32|
        post.spec_nodes().contains_key(nid) && #[trigger] post.spec_nodes()[nid].spec_connected().contains_key(
            e2,
        ) implies {
        let e = post.spec_edges()[e2];
        &&& post.spec_edges().contains_key(e2)
        &&& (e.spec_node1() == nid && e.spec_node2() == post.spec_nodes()[nid].spec_connected()[e2]
            || e.spec_node2() == nid && e.spec_node1() == post.spec_nodes()[nid].spec_connected()[e2])
    } by {
        if (nid == n1 || nid == n2) && e2 == eid {
        } else if nid == n1 || nid == n2 {
            assert(pre.spec_nodes()[nid].spec_connected().contains_key(e2));
        } else {
            assert(pre.spec_nodes()[nid].spec_connected().contains_key(e2));
        }
    }
}

} // verus!
