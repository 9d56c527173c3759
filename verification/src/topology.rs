//! The network as the client knows it: nodes, undirected edges, what kind
//! each node is, and how often each drone forwarded or dropped a packet.

use crate::message::ServerType;
use crate::packet::{copy_ids, NodeId, NodeType};
use vstd::prelude::*;

verus! {

/// How often a node was asked to forward a packet, and how often it dropped
/// one.
#[derive(Clone, Copy, Debug, PartialEq, Eq, Structural)]
pub struct NodeHistory {
    pub forwarded: u64,
    pub dropped: u64,
}

/// `v + 1`, or `v` where that would not fit.
pub open spec fn bump(v: u64) -> u64 {
    if v < u64::MAX {
        (v + 1) as u64
    } else {
        v
    }
}

impl NodeHistory {
    /// The history after one more packet went to the node, dropped or not.
    pub open spec fn record(self, dropped: bool) -> NodeHistory {
        NodeHistory {
            forwarded: bump(self.forwarded),
            dropped: if dropped {
                bump(self.dropped)
            } else {
                self.dropped
            },
        }
    }
}

/// `nodes` without `id`.
pub open spec fn without(nodes: Seq<NodeId>, id: NodeId) -> Seq<NodeId>
    decreases nodes.len(),
{
    if nodes.len() == 0 {
        nodes
    } else if nodes.last() == id {
        without(nodes.drop_last(), id)
    } else {
        without(nodes.drop_last(), id).push(nodes.last())
    }
}

/// Mathematical value of a [`Topology`].
#[verifier::ext_equal]
pub struct TopologyView {
    /// The nodes, in the order in which they were added, each once.
    pub nodes: Seq<NodeId>,
    /// The edges, each in both directions.
    pub edges: Set<(NodeId, NodeId)>,
    /// The kind of each node whose kind is known.
    pub kinds: Map<NodeId, NodeType>,
    /// What each server offers, where it has said so.
    pub server_types: Map<NodeId, ServerType>,
    /// The counters of every node.
    pub history: Map<NodeId, NodeHistory>,
}

impl TopologyView {
    pub open spec fn empty() -> TopologyView {
        TopologyView {
            nodes: Seq::empty(),
            edges: Set::empty(),
            kinds: Map::empty(),
            server_types: Map::empty(),
            history: Map::new(
                |id: NodeId| true,
                |id: NodeId| NodeHistory { forwarded: 0, dropped: 0 },
            ),
        }
    }

    /// Edges run both ways, no node is listed twice, only servers have a
    /// server type, every node has counters, and no node dropped more than
    /// it was given.
    pub open spec fn wf(self) -> bool {
        &&& forall|a: NodeId, b: NodeId| #[trigger]
            self.edges.contains((a, b)) ==> self.edges.contains((b, a))
        &&& self.nodes.no_duplicates()
        &&& forall|id: NodeId| #[trigger]
            self.server_types.contains_key(id) ==> self.kinds.contains_key(id) && self.kinds[id]
                == NodeType::Server
        &&& forall|id: NodeId| #[trigger] self.history.contains_key(id)
        &&& forall|id: NodeId| (#[trigger] self.history[id]).dropped <= self.history[id].forwarded
    }

    pub open spec fn has_edge(self, a: NodeId, b: NodeId) -> bool {
        self.edges.contains((a, b))
    }

    pub open spec fn is_drone(self, id: NodeId) -> bool {
        self.kinds.contains_key(id) && self.kinds[id] == NodeType::Drone
    }

    pub open spec fn add_node(self, id: NodeId) -> TopologyView {
        TopologyView {
            nodes: if self.nodes.contains(id) {
                self.nodes
            } else {
                self.nodes.push(id)
            },
            ..self
        }
    }

    pub open spec fn remove_node(self, id: NodeId) -> TopologyView {
        TopologyView {
            nodes: without(self.nodes, id),
            edges: self.edges.filter(|e: (NodeId, NodeId)| e.0 != id && e.1 != id),
            ..self
        }
    }

    pub open spec fn add_edge(self, a: NodeId, b: NodeId) -> TopologyView {
        TopologyView { edges: self.edges.insert((a, b)).insert((b, a)), ..self }
    }

    pub open spec fn remove_edges(self, a: NodeId, b: NodeId) -> TopologyView {
        TopologyView { edges: self.edges.remove((a, b)).remove((b, a)), ..self }
    }

    /// Records the kind of a node. A server keeps its server type while it
    /// stays a server; a node that is no server has none.
    pub open spec fn set_node_type(self, id: NodeId, kind: NodeType) -> TopologyView {
        TopologyView {
            kinds: self.kinds.insert(id, kind),
            server_types: if kind == NodeType::Server {
                self.server_types
            } else {
                self.server_types.remove(id)
            },
            ..self
        }
    }

    /// Records what a server offers; the node is a server from then on.
    pub open spec fn set_server_type(self, id: NodeId, server_type: ServerType) -> TopologyView {
        TopologyView {
            kinds: self.kinds.insert(id, NodeType::Server),
            server_types: self.server_types.insert(id, server_type),
            ..self
        }
    }

    /// Counts one packet for node `id` if it is a drone.
    pub open spec fn record_node(self, id: NodeId, dropped: bool) -> TopologyView {
        if self.is_drone(id) {
            TopologyView { history: self.history.insert(id, self.history[id].record(dropped)), ..self }
        } else {
            self
        }
    }

    /// Counts one packet for every drone on `route`, once per occurrence.
    pub open spec fn update_node_history(self, route: Seq<NodeId>, dropped: bool) -> TopologyView
        decreases route.len(),
    {
        if route.len() == 0 {
            self
        } else {
            self.update_node_history(route.drop_last(), dropped).record_node(route.last(), dropped)
        }
    }

    /// The neighbours of `id`, as a set.
    pub open spec fn neighbors(self, id: NodeId) -> Set<NodeId> {
        Set::new(|n: NodeId| self.has_edge(id, n))
    }

    /// A server whose type is not known yet.
    pub open spec fn is_untyped_server(self, id: NodeId) -> bool {
        &&& self.kinds.contains_key(id)
        &&& self.kinds[id] == NodeType::Server
        &&& !self.server_types.contains_key(id)
    }

    /// The servers with an id below `n` whose type is not known yet, in
    /// ascending order.
    pub open spec fn untyped_servers_below(self, n: nat) -> Seq<NodeId>
        decreases n,
    {
        if n == 0 {
            Seq::empty()
        } else if self.is_untyped_server((n - 1) as NodeId) {
            self.untyped_servers_below((n - 1) as nat).push((n - 1) as NodeId)
        } else {
            self.untyped_servers_below((n - 1) as nat)
        }
    }

    /// The servers whose type is not known yet, in ascending order.
    pub open spec fn untyped_servers(self) -> Seq<NodeId> {
        self.untyped_servers_below(256)
    }
}

/// Removing a node is idempotent, and changes nothing where the node is not
/// listed and has no edge.
pub proof fn lemma_without_absent(nodes: Seq<NodeId>, id: NodeId)
    requires
        !nodes.contains(id),
    ensures
        without(nodes, id) == nodes,
    decreases nodes.len(),
{
    if nodes.len() > 0 {
        let init = nodes.drop_last();
        assert(nodes[nodes.len() - 1] == nodes.last());
        assert forall|k: int| 0 <= k < init.len() implies init[k] != id by {
            assert(nodes[k] == init[k]);
        }
        assert(!init.contains(id));
        lemma_without_absent(init, id);
        assert(init.push(nodes.last()) =~= nodes);
    }
}

/// A list with one more element holds what it held before, and that element.
pub proof fn lemma_push_contains(init: Seq<NodeId>, last: NodeId, n: NodeId)
    ensures
        init.push(last).contains(n) <==> (init.contains(n) || last == n),
{
    let all = init.push(last);
    if init.contains(n) {
        let k = choose|k: int| 0 <= k < init.len() && init[k] == n;
        assert(all[k] == n);
    }
    if last == n {
        assert(all[init.len() as int] == n);
    }
    if all.contains(n) {
        let k = choose|k: int| 0 <= k < all.len() && all[k] == n;
        if k < init.len() {
            assert(init[k] == n);
        }
    }
}

/// What `without` keeps: every node but `id`, none new, none twice that was
/// there once.
pub proof fn lemma_without(nodes: Seq<NodeId>, id: NodeId)
    ensures
        !without(nodes, id).contains(id),
        forall|n: NodeId| n != id ==> (without(nodes, id).contains(n) <==> nodes.contains(n)),
        nodes.no_duplicates() ==> without(nodes, id).no_duplicates(),
        without(nodes, id).len() <= nodes.len(),
    decreases nodes.len(),
{
    let out = without(nodes, id);
    if nodes.len() > 0 {
        let init = nodes.drop_last();
        let last = nodes.last();
        lemma_without(init, id);
        let rest = without(init, id);
        assert(nodes =~= init.push(last));
        assert forall|n: NodeId| n != id implies (out.contains(n) <==> nodes.contains(n)) by {
            lemma_push_contains(init, last, n);
            if last != id {
                lemma_push_contains(rest, last, n);
            }
        }
        if last != id {
            lemma_push_contains(rest, last, id);
        }
        if nodes.no_duplicates() {
            assert(init.no_duplicates()) by {
                assert forall|i: int, j: int|
                    0 <= i < init.len() && 0 <= j < init.len() && i != j implies init[i]
                    != init[j] by {
                    assert(nodes[i] == init[i] && nodes[j] == init[j]);
                }
            }
            if last != id {
                assert(!init.contains(last)) by {
                    if init.contains(last) {
                        let m = choose|m: int| 0 <= m < init.len() && init[m] == last;
                        assert(nodes[m] == last);
                        assert(nodes[nodes.len() - 1] == last);
                    }
                }
                assert(!rest.contains(last));
                assert forall|i: int, j: int|
                    0 <= i < out.len() && 0 <= j < out.len() && i != j implies out[i]
                    != out[j] by {
                    if i < rest.len() && j < rest.len() {
                        assert(out[i] == rest[i] && out[j] == rest[j]);
                    } else {
                        let k = if i < rest.len() {
                            i
                        } else {
                            j
                        };
                        assert(out[k] == rest[k]);
                        assert(rest.contains(rest[k]));
                    }
                }
            }
        }
    }
}

/// Removing a node twice is the same as removing it once.
pub proof fn lemma_remove_node_idempotent(t: TopologyView, id: NodeId)
    ensures
        t.remove_node(id).remove_node(id) == t.remove_node(id),
{
    lemma_without(t.nodes, id);
    lemma_without_absent(without(t.nodes, id), id);
    assert(t.remove_node(id).remove_node(id).edges =~= t.remove_node(id).edges);
}

/// Removing a node that is not listed and has no edge changes nothing.
pub proof fn lemma_remove_unknown_node(t: TopologyView, id: NodeId)
    requires
        !t.nodes.contains(id),
        forall|n: NodeId| !t.has_edge(id, n) && !t.has_edge(n, id),
    ensures
        t.remove_node(id) == t,
{
    lemma_without_absent(t.nodes, id);
    assert(t.remove_node(id).edges =~= t.edges) by {
        assert forall|e: (NodeId, NodeId)| t.edges.contains(e) implies e.0 != id && e.1 != id by {
            if e.0 == id {
                assert(t.has_edge(id, e.1));
            }
            if e.1 == id {
                assert(t.has_edge(e.0, id));
            }
        }
    }
}

/// Adding a node, or an edge, twice is the same as adding it once.
pub proof fn lemma_add_idempotent(t: TopologyView, a: NodeId, b: NodeId)
    ensures
        t.add_node(a).add_node(a) == t.add_node(a),
        t.add_edge(a, b).add_edge(a, b) == t.add_edge(a, b),
        t.add_edge(a, b) == t.add_edge(b, a),
{
    if !t.nodes.contains(a) {
        assert(t.nodes.push(a)[t.nodes.len() as int] == a);
    }
    assert(t.add_edge(a, b).add_edge(a, b).edges =~= t.add_edge(a, b).edges);
    assert(t.add_edge(a, b).edges =~= t.add_edge(b, a).edges);
}

/// Every operation keeps the edges symmetric: `(a, b)` is an edge if and
/// only if `(b, a)` is.
pub proof fn lemma_edges_symmetric(t: TopologyView, a: NodeId, b: NodeId)
    requires
        t.wf(),
    ensures
        t.has_edge(a, b) <==> t.has_edge(b, a),
{
}

/// Every well-formed topology stays well-formed under every operation.
pub proof fn lemma_operations_keep_wf(
    t: TopologyView,
    a: NodeId,
    b: NodeId,
    kind: NodeType,
    server_type: ServerType,
    dropped: bool,
)
    requires
        t.wf(),
    ensures
        t.add_node(a).wf(),
        t.remove_node(a).wf(),
        t.add_edge(a, b).wf(),
        t.remove_edges(a, b).wf(),
        t.set_node_type(a, kind).wf(),
        t.set_server_type(a, server_type).wf(),
        t.record_node(a, dropped).wf(),
{
    lemma_without(t.nodes, a);
    assert(t.add_node(a).nodes.no_duplicates());
    let r = t.record_node(a, dropped);
    assert forall|id: NodeId| (#[trigger] r.history[id]).dropped <= r.history[id].forwarded by {
        assert(t.history[id].dropped <= t.history[id].forwarded);
    }
}

pub proof fn lemma_update_history_keeps_wf(t: TopologyView, route: Seq<NodeId>, dropped: bool)
    requires
        t.wf(),
    ensures
        t.update_node_history(route, dropped).wf(),
        t.update_node_history(route, dropped).nodes == t.nodes,
        t.update_node_history(route, dropped).edges == t.edges,
        t.update_node_history(route, dropped).kinds == t.kinds,
        t.update_node_history(route, dropped).server_types == t.server_types,
    decreases route.len(),
{
    if route.len() > 0 {
        lemma_update_history_keeps_wf(t, route.drop_last(), dropped);
        let u = t.update_node_history(route.drop_last(), dropped);
        lemma_operations_keep_wf(
            u,
            route.last(),
            route.last(),
            NodeType::Drone,
            ServerType::Chat,
            dropped,
        );
    }
}

/// Position of the pair `(a, b)` in the adjacency table.
pub open spec fn cell(a: NodeId, b: NodeId) -> int {
    a as int * 256 + b as int
}

/// `ids` is in strictly ascending order.
pub open spec fn ascending(ids: Seq<NodeId>) -> bool {
    forall|i: int, j: int| 0 <= i < j < ids.len() ==> ids[i] < ids[j]
}

/// The network as the client knows it.
pub struct Topology {
    nodes: Vec<NodeId>,
    adjacency: Vec<bool>,
    kinds: Vec<Option<NodeType>>,
    server_types: Vec<Option<ServerType>>,
    history: Vec<NodeHistory>,
}

impl View for Topology {
    type V = TopologyView;

    closed spec fn view(&self) -> TopologyView {
        TopologyView {
            nodes: self.nodes@,
            edges: Set::new(|e: (NodeId, NodeId)| self.adjacency@[cell(e.0, e.1)]),
            kinds: Map::new(
                |id: NodeId| self.kinds@[id as int].is_some(),
                |id: NodeId| self.kinds@[id as int].unwrap(),
            ),
            server_types: Map::new(
                |id: NodeId| self.server_types@[id as int].is_some(),
                |id: NodeId| self.server_types@[id as int].unwrap(),
            ),
            history: Map::new(|id: NodeId| true, |id: NodeId| self.history@[id as int]),
        }
    }
}

impl Topology {
    /// The tables have a slot for every node id and every pair of them.
    pub closed spec fn sized(self) -> bool {
        &&& self.adjacency@.len() == 65536
        &&& self.kinds@.len() == 256
        &&& self.server_types@.len() == 256
        &&& self.history@.len() == 256
    }

    pub open spec fn wf(self) -> bool {
        self.sized() && self@.wf()
    }

    pub fn new() -> (topology: Topology)
        ensures
            topology.wf(),
            topology@ == TopologyView::empty(),
    {
        let topology = Topology {
            nodes: Vec::new(),
            adjacency: vec![false; 65536],
            kinds: vec![None; 256],
            server_types: vec![None; 256],
            history: vec![NodeHistory { forwarded: 0, dropped: 0 }; 256],
        };
        assert(topology@.edges =~= Set::<(NodeId, NodeId)>::empty());
        assert(topology@.kinds =~= Map::<NodeId, NodeType>::empty());
        assert(topology@.server_types =~= Map::<NodeId, ServerType>::empty());
        assert(topology@.history =~= TopologyView::empty().history);
        topology
    }

    /// Forgets everything.
    pub fn clear(&mut self)
        ensures
            final(self).wf(),
            final(self)@ == TopologyView::empty(),
    {
        *self = Topology::new();
    }

    /// Whether the topology lists no node and has no edge.
    pub fn is_blank(&self) -> (blank: bool)
        requires
            self.wf(),
        ensures
            blank == (self@.nodes.len() == 0 && self@.edges == Set::<(NodeId, NodeId)>::empty()),
    {
        if self.nodes.len() > 0 {
            return false;
        }
        let mut i: usize = 0;
        while i < 65536
            invariant
                i <= 65536,
                self.wf(),
                forall|k: int| 0 <= k < i ==> !self.adjacency@[k],
            decreases 65536 - i,
        {
            if self.adjacency[i] {
                proof {
                    let a = (i / 256) as NodeId;
                    let b = (i % 256) as NodeId;
                    assert(cell(a, b) == i);
                    assert(self@.edges.contains((a, b)));
                }
                return false;
            }
            i += 1;
        }
        assert(self@.edges =~= Set::<(NodeId, NodeId)>::empty());
        true
    }

    pub fn nodes(&self) -> (nodes: &Vec<NodeId>)
        ensures
            nodes@ == self@.nodes,
    {
        &self.nodes
    }

    pub fn contains_node(&self, id: NodeId) -> (found: bool)
        ensures
            found == self@.nodes.contains(id),
    {
        let mut i: usize = 0;
        while i < self.nodes.len()
            invariant
                i <= self.nodes.len(),
                forall|k: int| 0 <= k < i ==> self.nodes@[k] != id,
            decreases self.nodes.len() - i,
        {
            if self.nodes[i] == id {
                return true;
            }
            i += 1;
        }
        false
    }

    /// Lists a node. A node that is listed already stays where it is.
    pub fn add_node(&mut self, id: NodeId)
        requires
            old(self).wf(),
        ensures
            final(self).wf(),
            final(self)@ == old(self)@.add_node(id),
    {
        if !self.contains_node(id) {
            self.nodes.push(id);
            proof {
                lemma_push_contains(old(self).nodes@, id, id);
                assert forall|i: int, j: int|
                    0 <= i < self.nodes@.len() && 0 <= j < self.nodes@.len() && i
                        != j implies self.nodes@[i] != self.nodes@[j] by {
                    if i < old(self).nodes@.len() {
                        assert(old(self).nodes@[i] == self.nodes@[i]);
                    }
                    if j < old(self).nodes@.len() {
                        assert(old(self).nodes@[j] == self.nodes@[j]);
                    }
                }
            }
        }
        proof {
            assert(self@.edges =~= old(self)@.edges);
            assert(self@.kinds =~= old(self)@.kinds);
            assert(self@.server_types =~= old(self)@.server_types);
            assert(self@.history =~= old(self)@.history);
            lemma_operations_keep_wf(
                old(self)@,
                id,
                id,
                NodeType::Drone,
                ServerType::Chat,
                false,
            );
        }
    }

    /// Unlists a node and removes every edge at it.
    pub fn remove_node(&mut self, id: NodeId)
        requires
            old(self).wf(),
        ensures
            final(self).wf(),
            final(self)@ == old(self)@.remove_node(id),
    {
        let mut kept: Vec<NodeId> = Vec::new();
        let n: usize = self.nodes.len();
        let mut i: usize = 0;
        while i < n
            invariant
                n == self.nodes.len(),
                i <= n,
                self.nodes == old(self).nodes,
                kept@ == without(self.nodes@.subrange(0, i as int), id),
            decreases n - i,
        {
            let node = self.nodes[i];
            proof {
                let prefix = self.nodes@.subrange(0, i + 1);
                assert(prefix.drop_last() =~= self.nodes@.subrange(0, i as int));
                assert(prefix.last() == node);
            }
            if node != id {
                kept.push(node);
            }
            i += 1;
        }
        assert(self.nodes@.subrange(0, n as int) =~= self.nodes@);
        self.nodes = kept;
        let row: usize = id as usize * 256;
        let mut j: usize = 0;
        while j < 256
            invariant
                j <= 256,
                row == id as int * 256,
                self.adjacency@.len() == 65536,
                self.kinds == old(self).kinds,
                self.server_types == old(self).server_types,
                self.history == old(self).history,
                self.nodes@ == without(old(self).nodes@, id),
                forall|a: NodeId, b: NodeId| #[trigger]
                    self.adjacency@[cell(a, b)] == (old(self).adjacency@[cell(a, b)] && !((a == id
                        && b < j) || (b == id && a < j))),
            decreases 256 - j,
        {
            self.adjacency[row + j] = false;
            self.adjacency[j * 256 + id as usize] = false;
            proof {
                assert forall|a: NodeId, b: NodeId| #[trigger]
                    self.adjacency@[cell(a, b)] == (old(self).adjacency@[cell(a, b)] && !((a == id
                        && b < j + 1) || (b == id && a < j + 1))) by {
                    assert(cell(a, b) == row + j <==> (a == id && b == j));
                    assert(cell(a, b) == j * 256 + id <==> (b == id && a == j));
                }
            }
            j += 1;
        }
        proof {
            assert(self@.edges =~= old(self)@.remove_node(id).edges) by {
                assert forall|e: (NodeId, NodeId)|
                    self@.edges.contains(e) <==> old(self)@.remove_node(id).edges.contains(e) by {
                    assert(self.adjacency@[cell(e.0, e.1)] == (old(self).adjacency@[cell(e.0, e.1)]
                        && !((e.0 == id && e.1 < 256) || (e.1 == id && e.0 < 256))));
                }
            }
            assert(self@.kinds =~= old(self)@.kinds);
            assert(self@.server_types =~= old(self)@.server_types);
            assert(self@.history =~= old(self)@.history);
            lemma_operations_keep_wf(
                old(self)@,
                id,
                id,
                NodeType::Drone,
                ServerType::Chat,
                false,
            );
        }
    }

    /// Joins two nodes by an edge, in both directions.
    pub fn add_edge(&mut self, from: NodeId, to: NodeId)
        requires
            old(self).wf(),
        ensures
            final(self).wf(),
            final(self)@ == old(self)@.add_edge(from, to),
    {
        self.adjacency[from as usize * 256 + to as usize] = true;
        self.adjacency[to as usize * 256 + from as usize] = true;
        proof {
            assert(self@.edges =~= old(self)@.add_edge(from, to).edges) by {
                assert forall|e: (NodeId, NodeId)|
                    self@.edges.contains(e) <==> old(self)@.add_edge(from, to).edges.contains(
                        e,
                    ) by {
                    assert(cell(e.0, e.1) == cell(from, to) <==> e == (from, to));
                    assert(cell(e.0, e.1) == cell(to, from) <==> e == (to, from));
                }
            }
            assert(self@.kinds =~= old(self)@.kinds);
            assert(self@.server_types =~= old(self)@.server_types);
            assert(self@.history =~= old(self)@.history);
            lemma_operations_keep_wf(
                old(self)@,
                from,
                to,
                NodeType::Drone,
                ServerType::Chat,
                false,
            );
        }
    }

    /// Removes the edge between two nodes, in both directions.
    pub fn remove_edges(&mut self, from: NodeId, to: NodeId)
        requires
            old(self).wf(),
        ensures
            final(self).wf(),
            final(self)@ == old(self)@.remove_edges(from, to),
    {
        self.adjacency[from as usize * 256 + to as usize] = false;
        self.adjacency[to as usize * 256 + from as usize] = false;
        proof {
            assert(self@.edges =~= old(self)@.remove_edges(from, to).edges) by {
                assert forall|e: (NodeId, NodeId)|
                    self@.edges.contains(e) <==> old(self)@.remove_edges(from, to).edges.contains(
                        e,
                    ) by {
                    assert(cell(e.0, e.1) == cell(from, to) <==> e == (from, to));
                    assert(cell(e.0, e.1) == cell(to, from) <==> e == (to, from));
                }
            }
            assert(self@.kinds =~= old(self)@.kinds);
            assert(self@.server_types =~= old(self)@.server_types);
            assert(self@.history =~= old(self)@.history);
            lemma_operations_keep_wf(
                old(self)@,
                from,
                to,
                NodeType::Drone,
                ServerType::Chat,
                false,
            );
        }
    }

    pub fn has_edge(&self, from: NodeId, to: NodeId) -> (found: bool)
        requires
            self.wf(),
        ensures
            found == self@.has_edge(from, to),
    {
        self.adjacency[from as usize * 256 + to as usize]
    }

    /// The neighbours of a node, in ascending order of their ids.
    pub fn neighbors(&self, node_id: NodeId) -> (neighbors: Vec<NodeId>)
        requires
            self.wf(),
        ensures
            ascending(neighbors@),
            forall|n: NodeId| neighbors@.contains(n) <==> self@.has_edge(node_id, n),
    {
        let mut neighbors: Vec<NodeId> = Vec::new();
        let row: usize = node_id as usize * 256;
        let mut j: usize = 0;
        while j < 256
            invariant
                j <= 256,
                row == node_id as int * 256,
                self.wf(),
                ascending(neighbors@),
                forall|k: int| 0 <= k < neighbors@.len() ==> neighbors@[k] < j,
                forall|n: NodeId|
                    neighbors@.contains(n) <==> (n < j && self@.has_edge(node_id, n)),
            decreases 256 - j,
        {
            if self.adjacency[row + j] {
                let ghost before = neighbors@;
                neighbors.push(j as u8);
                proof {
                    assert forall|n: NodeId|
                        neighbors@.contains(n) <==> (n < j + 1 && self@.has_edge(
                            node_id,
                            n,
                        )) by {
                        lemma_push_contains(before, j as u8, n);
                    }
                }
            }
            j += 1;
        }
        neighbors
    }

    pub fn set_node_type(&mut self, id: NodeId, kind: NodeType)
        requires
            old(self).wf(),
        ensures
            final(self).wf(),
            final(self)@ == old(self)@.set_node_type(id, kind),
    {
        self.kinds[id as usize] = Some(kind);
        match kind {
            NodeType::Server => {},
            _ => {
                self.server_types[id as usize] = None;
            },
        }
        proof {
            assert(self@.edges =~= old(self)@.edges);
            assert(self@.kinds =~= old(self)@.set_node_type(id, kind).kinds);
            assert(self@.server_types =~= old(self)@.set_node_type(id, kind).server_types);
            assert(self@.history =~= old(self)@.history);
            lemma_operations_keep_wf(old(self)@, id, id, kind, ServerType::Chat, false);
        }
    }

    pub fn set_server_type(&mut self, id: NodeId, server_type: ServerType)
        requires
            old(self).wf(),
        ensures
            final(self).wf(),
            final(self)@ == old(self)@.set_server_type(id, server_type),
    {
        self.kinds[id as usize] = Some(NodeType::Server);
        self.server_types[id as usize] = Some(server_type);
        proof {
            assert(self@.edges =~= old(self)@.edges);
            assert(self@.kinds =~= old(self)@.set_server_type(id, server_type).kinds);
            assert(self@.server_types =~= old(self)@.set_server_type(
                id,
                server_type,
            ).server_types);
            assert(self@.history =~= old(self)@.history);
            lemma_operations_keep_wf(old(self)@, id, id, NodeType::Drone, server_type, false);
        }
    }

    pub fn get_node_type(&self, id: NodeId) -> (kind: Option<NodeType>)
        requires
            self.wf(),
        ensures
            kind == if self@.kinds.contains_key(id) {
                Some(self@.kinds[id])
            } else {
                None
            },
    {
        self.kinds[id as usize]
    }

    pub fn get_server_type(&self, id: NodeId) -> (server_type: Option<ServerType>)
        requires
            self.wf(),
        ensures
            server_type == if self@.server_types.contains_key(id) {
                Some(self@.server_types[id])
            } else {
                None
            },
    {
        self.server_types[id as usize]
    }

    pub fn get_node_history(&self, id: NodeId) -> (history: NodeHistory)
        requires
            self.wf(),
        ensures
            history == self@.history[id],
    {
        self.history[id as usize]
    }

    fn record_node(&mut self, id: NodeId, dropped: bool)
        requires
            old(self).wf(),
        ensures
            final(self).wf(),
            final(self)@ == old(self)@.record_node(id, dropped),
    {
        let is_drone = match self.kinds[id as usize] {
            Some(NodeType::Drone) => true,
            _ => false,
        };
        if is_drone {
            let h = self.history[id as usize];
            let forwarded: u64 = if h.forwarded < u64::MAX {
                h.forwarded + 1
            } else {
                h.forwarded
            };
            let dropped_count: u64 = if dropped && h.dropped < u64::MAX {
                h.dropped + 1
            } else {
                h.dropped
            };
            self.history[id as usize] = NodeHistory { forwarded, dropped: dropped_count };
        }
        proof {
            assert(self@.edges =~= old(self)@.edges);
            assert(self@.kinds =~= old(self)@.kinds);
            assert(self@.server_types =~= old(self)@.server_types);
            assert(self@.history =~= old(self)@.record_node(id, dropped).history);
            lemma_operations_keep_wf(old(self)@, id, id, NodeType::Drone, ServerType::Chat, dropped);
        }
    }

    /// Counts one packet, dropped or not, for every drone on `route`.
    pub fn update_node_history(&mut self, route: &Vec<NodeId>, dropped: bool)
        requires
            old(self).wf(),
        ensures
            final(self).wf(),
            final(self)@ == old(self)@.update_node_history(route@, dropped),
    {
        let mut i: usize = 0;
        while i < route.len()
            invariant
                i <= route.len(),
                self.wf(),
                self@ == old(self)@.update_node_history(route@.subrange(0, i as int), dropped),
            decreases route.len() - i,
        {
            proof {
                let prefix = route@.subrange(0, i + 1);
                assert(prefix.drop_last() =~= route@.subrange(0, i as int));
                assert(prefix.last() == route@[i as int]);
            }
            self.record_node(route[i], dropped);
            i += 1;
        }
        assert(route@.subrange(0, route.len() as int) =~= route@);
    }

    /// The servers whose type is not known yet, in ascending order.
    pub fn untyped_servers(&self) -> (servers: Vec<NodeId>)
        requires
            self.wf(),
        ensures
            servers@ == self@.untyped_servers(),
    {
        let mut servers: Vec<NodeId> = Vec::new();
        let mut j: usize = 0;
        while j < 256
            invariant
                j <= 256,
                self.wf(),
                servers@ == self@.untyped_servers_below(j as nat),
            decreases 256 - j,
        {
            let untyped = match (self.kinds[j], self.server_types[j]) {
                (Some(NodeType::Server), None) => true,
                _ => false,
            };
            assert(untyped == self@.is_untyped_server(j as NodeId));
            if untyped {
                servers.push(j as u8);
            }
            j += 1;
        }
        servers
    }
}

impl Clone for Topology {
    fn clone(&self) -> (copy: Self)
        ensures
            copy@ == self@,
            self.wf() ==> copy.wf(),
    {
        let copy = Topology {
            nodes: copy_ids(&self.nodes),
            adjacency: self.adjacency.clone(),
            kinds: self.kinds.clone(),
            server_types: self.server_types.clone(),
            history: self.history.clone(),
        };
        proof {
            assert(copy.adjacency@ =~= self.adjacency@);
            assert(copy.kinds@ =~= self.kinds@);
            assert(copy.server_types@ =~= self.server_types@);
            assert(copy.history@ =~= self.history@);
            assert(copy@.edges =~= self@.edges);
            assert(copy@.kinds =~= self@.kinds);
            assert(copy@.server_types =~= self@.server_types);
            assert(copy@.history =~= self@.history);
        }
        copy
    }
}

} // verus!
