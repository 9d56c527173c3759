//! Cheapest routes through the known topology.
//!
//! A route may pass through a node only if the node lets packets through, and
//! each such node charges a toll. The route chosen is the cheapest one; among
//! equally cheap next hops the one with the lowest id is taken.

use crate::packet::{NodeId, NodeType, SourceRoutingHeader};
pub use crate::topology::Topology;
use crate::topology::{NodeHistory, TopologyView};
use vstd::prelude::*;

verus! {

/// The edges of a network, and the toll of every node that lets packets
/// through.
pub struct Graph {
    pub edges: Set<(NodeId, NodeId)>,
    pub tolls: Map<NodeId, nat>,
}

/// The highest toll a node can charge.
pub const MAX_TOLL: u64 = 101;

impl Graph {
    pub open spec fn has_edge(self, a: NodeId, b: NodeId) -> bool {
        self.edges.contains((a, b))
    }

    pub open spec fn passable(self, v: NodeId) -> bool {
        self.tolls.contains_key(v)
    }

    /// Every toll is at least 1 and at most [`MAX_TOLL`].
    pub open spec fn wf(self) -> bool {
        forall|v: NodeId| #[trigger] self.passable(v) ==> 1 <= self.tolls[v] <= MAX_TOLL
    }

    /// Positions `i` and `i + 1` of `p` are joined by an edge.
    pub open spec fn joined(self, p: Seq<NodeId>, i: int) -> bool {
        self.has_edge(p[i], p[i + 1])
    }

    /// `p` leads from `src` to `dst` along edges, and every node strictly
    /// between its ends lets packets through.
    pub open spec fn is_walk(self, src: NodeId, dst: NodeId, p: Seq<NodeId>) -> bool {
        &&& p.len() >= 1
        &&& p[0] == src
        &&& p.last() == dst
        &&& forall|i: int| 0 <= i < p.len() - 1 ==> #[trigger] self.joined(p, i)
        &&& forall|i: int| 0 < i < p.len() - 1 ==> self.passable(#[trigger] p[i])
    }

    /// The sum of the tolls of the nodes strictly between the ends of `p`.
    pub open spec fn walk_cost(self, p: Seq<NodeId>) -> nat
        decreases p.len(),
    {
        if p.len() <= 2 {
            0
        } else {
            self.tolls[p[1]] + self.walk_cost(p.drop_first())
        }
    }

    pub open spec fn reachable(self, src: NodeId, dst: NodeId) -> bool {
        exists|p: Seq<NodeId>| self.is_walk(src, dst, p)
    }

    /// `p` leads from `src` to `dst`, and no walk from `src` to `dst` costs
    /// less.
    pub open spec fn is_cheapest(self, src: NodeId, dst: NodeId, p: Seq<NodeId>) -> bool {
        &&& self.is_walk(src, dst, p)
        &&& forall|q: Seq<NodeId>| #[trigger]
            self.is_walk(src, dst, q) ==> self.walk_cost(p) <= self.walk_cost(q)
    }

    /// Some cheapest walk from `u` to `dst` goes to `v` first.
    pub open spec fn leads_on(self, u: NodeId, v: NodeId, dst: NodeId) -> bool {
        exists|p: Seq<NodeId>| #[trigger] self.is_cheapest(u, dst, p) && p.len() >= 2 && p[1] == v
    }

    /// `r` is the route from `src` to `dst`: empty where `dst` cannot be
    /// reached; else a cheapest walk that stops when it first reaches `dst`
    /// and that goes, from each of its nodes, to the node of lowest id to
    /// which any cheapest walk from there goes first.
    pub open spec fn is_route(self, src: NodeId, dst: NodeId, r: Seq<NodeId>) -> bool {
        if !self.reachable(src, dst) {
            r.len() == 0
        } else {
            &&& self.is_cheapest(src, dst, r)
            &&& forall|i: int| 0 <= i < r.len() - 1 ==> #[trigger] r[i] != dst
            &&& forall|i: int|
                0 <= i < r.len() - 1 ==> #[trigger] self.leads_on(r[i], r[i + 1], dst)
            &&& forall|i: int, v: NodeId|
                0 <= i < r.len() - 1 && v < r[i + 1] ==> !#[trigger] self.leads_on(r[i], v, dst)
        }
    }

    /// The route from `src` to `dst`.
    pub open spec fn route(self, src: NodeId, dst: NodeId) -> Seq<NodeId> {
        choose|r: Seq<NodeId>| self.is_route(src, dst, r)
    }
}

/// Two routes between the same ends agree up to the length of the shorter.
proof fn lemma_routes_agree(g: Graph, src: NodeId, dst: NodeId, r1: Seq<NodeId>, r2: Seq<NodeId>, i: int)
    requires
        g.reachable(src, dst),
        g.is_route(src, dst, r1),
        g.is_route(src, dst, r2),
        0 <= i < r1.len(),
        i < r2.len(),
    ensures
        r1[i] == r2[i],
    decreases i,
{
    if i > 0 {
        lemma_routes_agree(g, src, dst, r1, r2, i - 1);
        let u = r1[i - 1];
        assert(g.leads_on(r1[i - 1], r1[i - 1 + 1], dst));
        assert(g.leads_on(r2[i - 1], r2[i - 1 + 1], dst));
        if r1[i] < r2[i] {
            assert(!g.leads_on(r2[i - 1], r1[i], dst));
        }
        if r2[i] < r1[i] {
            assert(!g.leads_on(r1[i - 1], r2[i], dst));
        }
    }
}

/// There is at most one route between two nodes.
pub proof fn lemma_route_unique(g: Graph, src: NodeId, dst: NodeId, r1: Seq<NodeId>, r2: Seq<NodeId>)
    requires
        g.is_route(src, dst, r1),
        g.is_route(src, dst, r2),
    ensures
        r1 == r2,
{
    if g.reachable(src, dst) {
        if r1.len() < r2.len() {
            lemma_routes_agree(g, src, dst, r1, r2, r1.len() - 1);
            assert(r2[r1.len() - 1] != dst);
        }
        if r2.len() < r1.len() {
            lemma_routes_agree(g, src, dst, r1, r2, r2.len() - 1);
            assert(r1[r2.len() - 1] != dst);
        }
        assert forall|i: int| 0 <= i < r1.len() implies r1[i] == r2[i] by {
            lemma_routes_agree(g, src, dst, r1, r2, i);
        }
        assert(r1 =~= r2);
    } else {
        assert(r1 =~= r2);
    }
}

/// A route is what [`Graph::route`] names.
pub proof fn lemma_route_is(g: Graph, src: NodeId, dst: NodeId, r: Seq<NodeId>)
    requires
        g.is_route(src, dst, r),
    ensures
        g.route(src, dst) == r,
{
    lemma_route_unique(g, src, dst, r, g.route(src, dst));
}

/// What it costs to step onto `v` on the way to `dst`: nothing for `dst`
/// itself, the toll for a node that lets packets through.
pub open spec fn step_cost(g: Graph, v: NodeId, dst: NodeId) -> Option<nat> {
    if v == dst {
        Some(0)
    } else if g.passable(v) {
        Some(g.tolls[v])
    } else {
        None
    }
}

/// Going from `u` to `v` first is in line with the table `d` of costs to
/// `dst`: the step and the rest cost what `d` says of `u`.
pub open spec fn in_line(g: Graph, dst: NodeId, d: Seq<Option<u64>>, u: NodeId, v: NodeId) -> bool {
    &&& g.has_edge(u, v)
    &&& d[u as int].is_some()
    &&& d[v as int].is_some()
    &&& step_cost(g, v, dst).is_some()
    &&& d[u as int].unwrap() == step_cost(g, v, dst).unwrap() + d[v as int].unwrap()
}

/// No step undercuts the table: along every edge onto a node with a cost,
/// the cost of the node before is at most the step plus the cost after.
pub open spec fn no_shortcut(g: Graph, dst: NodeId, d: Seq<Option<u64>>, u: NodeId, v: NodeId) -> bool {
    g.has_edge(u, v) && d[v as int].is_some() && step_cost(g, v, dst).is_some() ==> d[u as int].is_some()
        && d[u as int].unwrap() <= step_cost(g, v, dst).unwrap() + d[v as int].unwrap()
}

/// `d` is the table of the costs of the cheapest walks to `dst`, `None`
/// where there is no walk.
pub open spec fn certified(g: Graph, dst: NodeId, d: Seq<Option<u64>>) -> bool {
    &&& d.len() == 256
    &&& d[dst as int] == Some(0u64)
    &&& forall|u: NodeId, v: NodeId| #[trigger] no_shortcut(g, dst, d, u, v)
    &&& forall|u: NodeId|
        u != dst && (#[trigger] d[u as int]).is_some() ==> exists|v: NodeId| in_line(g, dst, d, u, v)
}

/// The rest of a walk is a walk.
proof fn lemma_rest_is_walk(g: Graph, src: NodeId, dst: NodeId, p: Seq<NodeId>)
    requires
        g.is_walk(src, dst, p),
        p.len() >= 2,
    ensures
        g.is_walk(p[1], dst, p.drop_first()),
        g.has_edge(src, p[1]),
        p.len() >= 3 ==> g.passable(p[1]),
{
    let rest = p.drop_first();
    assert(g.joined(p, 0));
    assert forall|i: int| 0 <= i < rest.len() - 1 implies #[trigger] g.joined(rest, i) by {
        assert(g.joined(p, i + 1));
    }
    assert forall|i: int| 0 < i < rest.len() - 1 implies g.passable(#[trigger] rest[i]) by {
        assert(rest[i] == p[i + 1]);
    }
    if p.len() >= 3 {
        assert(g.passable(p[1]));
    }
}

/// A walk with one more node in front is a walk.
proof fn lemma_extend_walk(g: Graph, u: NodeId, dst: NodeId, p: Seq<NodeId>)
    requires
        p.len() >= 1,
        g.is_walk(p[0], dst, p),
        g.has_edge(u, p[0]),
        p.len() >= 2 ==> g.passable(p[0]),
    ensures
        g.is_walk(u, dst, seq![u] + p),
        (seq![u] + p).drop_first() == p,
        g.walk_cost(seq![u] + p) == if p.len() >= 2 {
            g.tolls[p[0]] + g.walk_cost(p)
        } else {
            0
        },
{
    let q = seq![u] + p;
    assert(q.drop_first() =~= p);
    assert forall|i: int| 0 <= i < q.len() - 1 implies #[trigger] g.joined(q, i) by {
        if i > 0 {
            assert(g.joined(p, i - 1));
        }
    }
    assert forall|i: int| 0 < i < q.len() - 1 implies g.passable(#[trigger] q[i]) by {
        if i > 1 {
            assert(q[i] == p[i - 1]);
            assert(g.passable(p[i - 1]));
        }
    }
}

/// No walk to `dst` costs less than the table says.
pub proof fn lemma_table_bounds(g: Graph, dst: NodeId, d: Seq<Option<u64>>, u: NodeId, p: Seq<NodeId>)
    requires
        certified(g, dst, d),
        g.is_walk(u, dst, p),
    ensures
        d[u as int].is_some(),
        d[u as int].unwrap() <= g.walk_cost(p),
    decreases p.len(),
{
    if p.len() >= 2 {
        let v = p[1];
        lemma_rest_is_walk(g, u, dst, p);
        lemma_table_bounds(g, dst, d, v, p.drop_first());
        assert(no_shortcut(g, dst, d, u, v));
        if v == dst {
        } else {
            assert(p.len() >= 3);
        }
    }
}

/// A step that is in line with the table starts a walk of the cost the table
/// says.
pub proof fn lemma_via(g: Graph, dst: NodeId, d: Seq<Option<u64>>, u: NodeId, v: NodeId) -> (p: Seq<
    NodeId,
>)
    requires
        g.wf(),
        certified(g, dst, d),
        in_line(g, dst, d, u, v),
    ensures
        g.is_walk(u, dst, p),
        g.walk_cost(p) == d[u as int].unwrap(),
        p.len() >= 2,
        p[1] == v,
    decreases d[u as int].unwrap(),
{
    if v == dst {
        let p = seq![u, dst];
        assert(g.joined(p, 0));
        p
    } else {
        assert(g.passable(v));
        let w = choose|w: NodeId| in_line(g, dst, d, v, w);
        let rest = lemma_via(g, dst, d, v, w);
        lemma_extend_walk(g, u, dst, rest);
        seq![u] + rest
    }
}

/// Every cost in the table is the cost of some walk.
pub proof fn lemma_table_achieved(g: Graph, dst: NodeId, d: Seq<Option<u64>>, u: NodeId) -> (p: Seq<
    NodeId,
>)
    requires
        g.wf(),
        certified(g, dst, d),
        d[u as int].is_some(),
    ensures
        g.is_walk(u, dst, p),
        g.walk_cost(p) == d[u as int].unwrap(),
        u != dst ==> p.len() >= 2 && in_line(g, dst, d, u, p[1]),
{
    if u == dst {
        let p = seq![dst];
        p
    } else {
        let v = choose|v: NodeId| in_line(g, dst, d, u, v);
        lemma_via(g, dst, d, u, v)
    }
}

/// With a certified table, the steps that are in line with it are the first
/// steps of the cheapest walks.
pub proof fn lemma_in_line_leads_on(g: Graph, dst: NodeId, d: Seq<Option<u64>>, u: NodeId, v: NodeId)
    requires
        g.wf(),
        certified(g, dst, d),
        u != dst,
    ensures
        in_line(g, dst, d, u, v) <==> g.leads_on(u, v, dst),
{
    if in_line(g, dst, d, u, v) {
        let p = lemma_via(g, dst, d, u, v);
        assert forall|q: Seq<NodeId>| #[trigger] g.is_walk(u, dst, q) implies g.walk_cost(p)
            <= g.walk_cost(q) by {
            lemma_table_bounds(g, dst, d, u, q);
        }
        assert(g.is_cheapest(u, dst, p) && p.len() >= 2 && p[1] == v);
    }
    if g.leads_on(u, v, dst) {
        let p = choose|p: Seq<NodeId>| #[trigger] g.is_cheapest(u, dst, p) && p.len() >= 2 && p[1] == v;
        lemma_table_bounds(g, dst, d, u, p);
        let best = lemma_table_achieved(g, dst, d, u);
        assert(g.is_walk(u, dst, best));
        assert(g.walk_cost(p) == d[u as int].unwrap());
        lemma_rest_is_walk(g, u, dst, p);
        lemma_table_bounds(g, dst, d, v, p.drop_first());
        assert(no_shortcut(g, dst, d, u, v));
        if v != dst {
            assert(p.len() >= 3);
        }
    }
}

/// The graph with the given edges in which node `v` lets packets through
/// for the toll `tolls[v]`, where that is not `None`.
pub open spec fn tolls_graph(edges: Set<(NodeId, NodeId)>, tolls: Seq<Option<u64>>) -> Graph {
    Graph {
        edges,
        tolls: Map::new(
            |v: NodeId| tolls[v as int].is_some(),
            |v: NodeId| tolls[v as int].unwrap() as nat,
        ),
    }
}

/// How many entries of `flags` are set.
spec fn count_true(flags: Seq<bool>) -> nat
    decreases flags.len(),
{
    if flags.len() == 0 {
        0
    } else {
        count_true(flags.drop_last()) + if flags.last() {
            1nat
        } else {
            0nat
        }
    }
}

proof fn lemma_count_bounds(flags: Seq<bool>)
    ensures
        count_true(flags) <= flags.len(),
        count_true(flags) == flags.len() ==> forall|i: int| 0 <= i < flags.len() ==> flags[i],
    decreases flags.len(),
{
    if flags.len() > 0 {
        let init = flags.drop_last();
        lemma_count_bounds(init);
        if count_true(flags) == flags.len() {
            assert forall|i: int| 0 <= i < flags.len() implies flags[i] by {
                if i < init.len() {
                    assert(init[i] == flags[i]);
                }
            }
        }
    }
}

proof fn lemma_count_set(flags: Seq<bool>, i: int)
    requires
        0 <= i < flags.len(),
        !flags[i],
    ensures
        count_true(flags.update(i, true)) == count_true(flags) + 1,
    decreases flags.len(),
{
    let after = flags.update(i, true);
    if i == flags.len() - 1 {
        assert(after.drop_last() =~= flags.drop_last());
    } else {
        lemma_count_set(flags.drop_last(), i);
        assert(after.drop_last() =~= flags.drop_last().update(i, true));
    }
}

/// What holds of the table of costs while it is being filled, after
/// `rounds` nodes have been settled.
spec fn search_inv(
    g: Graph,
    dst: NodeId,
    d: Seq<Option<u64>>,
    settled: Seq<bool>,
    rounds: nat,
) -> bool {
    &&& d.len() == 256
    &&& settled.len() == 256
    &&& d[dst as int] == Some(0u64)
    &&& rounds == count_true(settled)
    &&& forall|u: NodeId|
        (#[trigger] d[u as int]).is_some() ==> d[u as int].unwrap() <= rounds * MAX_TOLL
    &&& forall|s: NodeId| #[trigger] settled[s as int] ==> d[s as int].is_some()
    &&& forall|s: NodeId, t: NodeId|
        #![trigger settled[s as int], d[t as int]]
        settled[s as int] && !settled[t as int] && d[t as int].is_some() ==> d[s as int].unwrap()
            <= d[t as int].unwrap()
    &&& forall|u: NodeId, s: NodeId| settled[s as int] ==> #[trigger] no_shortcut(g, dst, d, u, s)
    &&& forall|u: NodeId|
        u != dst && (#[trigger] d[u as int]).is_some() ==> exists|v: NodeId|
            settled[v as int] && in_line(g, dst, d, u, v)
}

/// The table after node `s` has been settled: every unsettled node next to
/// `s` costs at most the step onto `s` plus what `s` costs.
spec fn relaxed(
    g: Graph,
    dst: NodeId,
    d0: Seq<Option<u64>>,
    settled: Seq<bool>,
    s: NodeId,
    d1: Seq<Option<u64>>,
    upto: int,
) -> bool {
    &&& d1.len() == 256
    &&& forall|t: NodeId| #[trigger]
        d1[t as int] == if t < upto && !settled[t as int] && g.has_edge(t, s) && step_cost(
            g,
            s,
            dst,
        ).is_some() {
            let cand = step_cost(g, s, dst).unwrap() + d0[s as int].unwrap();
            if d0[t as int].is_some() && d0[t as int].unwrap() <= cand {
                d0[t as int]
            } else {
                Some(cand as u64)
            }
        } else {
            d0[t as int]
        }
}

proof fn lemma_search_start(g: Graph, dst: NodeId, d: Seq<Option<u64>>, settled: Seq<bool>)
    requires
        d.len() == 256,
        settled.len() == 256,
        forall|i: int| 0 <= i < 256 ==> !settled[i],
        forall|i: int| 0 <= i < 256 ==> d[i] == if i == dst {
            Some(0u64)
        } else {
            None::<u64>
        },
    ensures
        search_inv(g, dst, d, settled, 0),
{
    lemma_count_zero(settled);
}

proof fn lemma_count_zero(flags: Seq<bool>)
    requires
        forall|i: int| 0 <= i < flags.len() ==> !flags[i],
    ensures
        count_true(flags) == 0,
    decreases flags.len(),
{
    if flags.len() > 0 {
        let init = flags.drop_last();
        assert forall|i: int| 0 <= i < init.len() implies !init[i] by {
            assert(init[i] == flags[i]);
        }
        lemma_count_zero(init);
    }
}

proof fn lemma_settle(
    g: Graph,
    dst: NodeId,
    d0: Seq<Option<u64>>,
    settled0: Seq<bool>,
    rounds: nat,
    s: NodeId,
    d1: Seq<Option<u64>>,
)
    requires
        g.wf(),
        search_inv(g, dst, d0, settled0, rounds),
        !settled0[s as int],
        d0[s as int].is_some(),
        forall|t: NodeId|
            !settled0[t as int] && (#[trigger] d0[t as int]).is_some() ==> d0[s as int].unwrap()
                <= d0[t as int].unwrap(),
        relaxed(g, dst, d0, settled0.update(s as int, true), s, d1, 256),
    ensures
        search_inv(g, dst, d1, settled0.update(s as int, true), rounds + 1),
        rounds < 256,
{
    let settled1 = settled0.update(s as int, true);
    let x = d0[s as int].unwrap();
    lemma_count_set(settled0, s as int);
    lemma_count_bounds(settled1);
    assert(d1[s as int] == d0[s as int]);
    assert(d1[dst as int] == Some(0u64)) by {
        assert(d1[dst as int] == d0[dst as int] || d1[dst as int] == Some(
            (step_cost(g, s, dst).unwrap() + x) as u64,
        ));
        if !(d1[dst as int] == d0[dst as int]) {
            assert(d0[dst as int].unwrap() <= step_cost(g, s, dst).unwrap() + x);
        }
    }
    assert(step_cost(g, s, dst).is_some() ==> step_cost(g, s, dst).unwrap() <= MAX_TOLL) by {
        if s != dst && g.passable(s) {
            assert(g.tolls[s] <= MAX_TOLL);
        }
    }
    assert(x <= rounds * MAX_TOLL);
    assert((rounds + 1) * MAX_TOLL == rounds * MAX_TOLL + MAX_TOLL) by (nonlinear_arith);
    assert forall|u: NodeId| (#[trigger] d1[u as int]).is_some() implies d1[u as int].unwrap() <= (
    rounds + 1) * MAX_TOLL by {
        if d1[u as int] == d0[u as int] {
            assert(d0[u as int].unwrap() <= rounds * MAX_TOLL);
        }
    }
    assert forall|v: NodeId| #[trigger] settled1[v as int] implies d1[v as int] == d0[v as int] by {}
    assert forall|v: NodeId| #[trigger] settled1[v as int] implies d1[v as int].is_some() by {
        if v != s {
            assert(settled0[v as int]);
        }
    }
    assert forall|a: NodeId, t: NodeId|
        #![trigger settled1[a as int], d1[t as int]]
        settled1[a as int] && !settled1[t as int] && d1[t as int].is_some() implies d1[a as int].unwrap()
        <= d1[t as int].unwrap() by {
        // every settled node costs at most `s`
        if a != s {
            assert(settled0[a as int] && !settled0[s as int] && d0[s as int].is_some());
            assert(d0[a as int].unwrap() <= x);
        }
        if d1[t as int] == d0[t as int] {
            assert(!settled0[t as int] && d0[t as int].is_some());
            assert(x <= d0[t as int].unwrap());
        }
    }
    assert forall|u: NodeId, a: NodeId| settled1[a as int] implies #[trigger] no_shortcut(
        g,
        dst,
        d1,
        u,
        a,
    ) by {
        if g.has_edge(u, a) && step_cost(g, a, dst).is_some() {
            if a == s {
                if settled1[u as int] {
                    if u != s {
                        assert(settled0[u as int] && !settled0[s as int] && d0[s as int].is_some());
                        assert(d0[u as int].unwrap() <= x);
                    }
                } else {
                    assert(d1[u as int].is_some());
                }
            } else {
                assert(settled0[a as int]);
                assert(no_shortcut(g, dst, d0, u, a));
                assert(d0[u as int].is_some());
                assert(d1[u as int].is_some() && d1[u as int].unwrap() <= d0[u as int].unwrap());
            }
        }
    }
    assert forall|u: NodeId| u != dst && (#[trigger] d1[u as int]).is_some() implies exists|
        v: NodeId,
    |
        settled1[v as int] && in_line(g, dst, d1, u, v) by {
        if d1[u as int] == d0[u as int] {
            let v = choose|v: NodeId| settled0[v as int] && in_line(g, dst, d0, u, v);
            assert(settled1[v as int]);
            assert(d1[v as int] == d0[v as int]);
            assert(in_line(g, dst, d1, u, v));
        } else {
            assert(settled1[s as int] && in_line(g, dst, d1, u, s));
        }
    }
}

proof fn lemma_search_done(
    g: Graph,
    dst: NodeId,
    d: Seq<Option<u64>>,
    settled: Seq<bool>,
    rounds: nat,
)
    requires
        search_inv(g, dst, d, settled, rounds),
        forall|t: NodeId| !settled[t as int] ==> (#[trigger] d[t as int]).is_none(),
    ensures
        certified(g, dst, d),
{
    assert forall|u: NodeId, v: NodeId| #[trigger] no_shortcut(g, dst, d, u, v) by {
        if d[v as int].is_some() {
            assert(settled[v as int]);
        }
    }
    assert forall|u: NodeId| u != dst && (#[trigger] d[u as int]).is_some() implies exists|
        v: NodeId,
    |
        in_line(g, dst, d, u, v) by {
        let v = choose|v: NodeId| settled[v as int] && in_line(g, dst, d, u, v);
        assert(in_line(g, dst, d, u, v));
    }
}

/// The cost of the cheapest walk from every node to `dst`, `None` where
/// there is none.
fn cheapest_costs(topology: &Topology, tolls: &Vec<Option<u64>>, dst: NodeId) -> (dist: Vec<
    Option<u64>,
>)
    requires
        topology.wf(),
        tolls@.len() == 256,
        tolls_graph(topology@.edges, tolls@).wf(),
    ensures
        certified(tolls_graph(topology@.edges, tolls@), dst, dist@),
{
    let ghost g = tolls_graph(topology@.edges, tolls@);
    let mut dist: Vec<Option<u64>> = vec![None; 256];
    dist[dst as usize] = Some(0);
    let mut settled: Vec<bool> = vec![false; 256];
    let mut rounds: usize = 0;
    proof {
        lemma_search_start(g, dst, dist@, settled@);
    }
    loop
        invariant
            topology.wf(),
            tolls@.len() == 256,
            g == tolls_graph(topology@.edges, tolls@),
            g.wf(),
            rounds <= 256,
            search_inv(g, dst, dist@, settled@, rounds as nat),
        ensures
            certified(g, dst, dist@),
        decreases 256 - rounds,
    {
        assert(dist@.len() == 256 && settled@.len() == 256);
        let mut best: Option<u8> = None;
        let mut best_cost: u64 = 0;
        let mut j: usize = 0;
        while j < 256
            invariant
                j <= 256,
                dist@.len() == 256,
                settled@.len() == 256,
                match best {
                    Some(s) => {
                        &&& !settled@[s as int]
                        &&& dist@[s as int] == Some(best_cost)
                        &&& forall|t: NodeId|
                            t < j && !settled@[t as int] && (#[trigger] dist@[t as int]).is_some()
                                ==> best_cost <= dist@[t as int].unwrap()
                    },
                    None => forall|t: NodeId|
                        t < j && !settled@[t as int] ==> (#[trigger] dist@[t as int]).is_none(),
                },
            decreases 256 - j,
        {
            if !settled[j] {
                match dist[j] {
                    Some(x) => {
                        if best.is_none() || x < best_cost {
                            best = Some(j as u8);
                            best_cost = x;
                        }
                    },
                    None => {},
                }
            }
            j += 1;
        }
        let s: u8 = match best {
            Some(s) => s,
            None => {
                proof {
                    lemma_search_done(g, dst, dist@, settled@, rounds as nat);
                }
                break ;
            },
        };
        let ghost d0 = dist@;
        let ghost settled0 = settled@;
        settled[s as usize] = true;
        let step: Option<u64> = if s == dst {
            Some(0)
        } else {
            tolls[s as usize]
        };
        assert(step.is_some() == step_cost(g, s, dst).is_some());
        assert(step.is_some() ==> step.unwrap() == step_cost(g, s, dst).unwrap() && step.unwrap()
            <= MAX_TOLL) by {
            if s != dst && g.passable(s) {
                assert(g.tolls[s] <= MAX_TOLL);
            }
        }
        proof {
            lemma_count_bounds(settled0);
            lemma_count_set(settled0, s as int);
            lemma_count_bounds(settled@);
            assert(best_cost <= rounds * MAX_TOLL);
            assert(rounds < 256);
            assert(rounds * MAX_TOLL <= 255 * MAX_TOLL) by (nonlinear_arith)
                requires
                    rounds <= 255,
            ;
        }
        let mut u: usize = 0;
        while u < 256
            invariant
                u <= 256,
                topology.wf(),
                g == tolls_graph(topology@.edges, tolls@),
                settled0.len() == 256,
                settled@ == settled0.update(s as int, true),
                dist@.len() == 256,
                d0.len() == 256,
                d0[s as int] == Some(best_cost),
                best_cost <= 255 * MAX_TOLL,
                step.is_some() == step_cost(g, s, dst).is_some(),
                step.is_some() ==> step.unwrap() == step_cost(g, s, dst).unwrap() && step.unwrap()
                    <= MAX_TOLL,
                relaxed(g, dst, d0, settled@, s, dist@, u as int),
            decreases 256 - u,
        {
            if !settled[u] && topology.has_edge(u as u8, s) {
                match step {
                    Some(c) => {
                        let cand: u64 = c + best_cost;
                        let better = match dist[u] {
                            Some(y) => cand < y,
                            None => true,
                        };
                        if better {
                            dist[u] = Some(cand);
                        }
                    },
                    None => {},
                }
            }
            u += 1;
        }
        proof {
            assert forall|t: NodeId|
                !settled0[t as int] && (#[trigger] d0[t as int]).is_some() implies d0[s as int].unwrap()
                <= d0[t as int].unwrap() by {}
            lemma_settle(g, dst, d0, settled0, rounds as nat, s, dist@);
        }
        rounds += 1;
    }
    dist
}

/// The suffix of a chain of steps that are in line with the table costs what
/// the table says of its first node.
proof fn lemma_chain_cost(g: Graph, dst: NodeId, d: Seq<Option<u64>>, r: Seq<NodeId>, i: int)
    requires
        g.wf(),
        certified(g, dst, d),
        r.len() >= 1,
        r.last() == dst,
        0 <= i < r.len(),
        forall|k: int| 0 <= k < r.len() - 1 ==> #[trigger] r[k] != dst,
        forall|k: int| 0 <= k < r.len() - 1 ==> in_line(g, dst, d, #[trigger] r[k], r[k + 1]),
    ensures
        g.is_walk(r[i], dst, r.subrange(i, r.len() as int)),
        d[r[i] as int].is_some(),
        g.walk_cost(r.subrange(i, r.len() as int)) == d[r[i] as int].unwrap(),
    decreases r.len() - i,
{
    let suffix = r.subrange(i, r.len() as int);
    if i == r.len() - 1 {
        assert(suffix =~= seq![dst]);
    } else {
        lemma_chain_cost(g, dst, d, r, i + 1);
        let rest = r.subrange(i + 1, r.len() as int);
        assert(in_line(g, dst, d, r[i], r[i + 1]));
        assert(suffix =~= seq![r[i]] + rest);
        if rest.len() >= 2 {
            assert(r[i + 1] != dst);
        }
        lemma_extend_walk(g, r[i], dst, rest);
    }
}

/// A chain of steps from `src` to `dst`, each the lowest that is in line
/// with a certified table, is the route.
proof fn lemma_chain_is_route(g: Graph, src: NodeId, dst: NodeId, d: Seq<Option<u64>>, r: Seq<NodeId>)
    requires
        g.wf(),
        certified(g, dst, d),
        r.len() >= 1,
        r[0] == src,
        r.last() == dst,
        forall|k: int| 0 <= k < r.len() - 1 ==> #[trigger] r[k] != dst,
        forall|k: int| 0 <= k < r.len() - 1 ==> in_line(g, dst, d, #[trigger] r[k], r[k + 1]),
        forall|k: int, v: NodeId|
            0 <= k < r.len() - 1 && v < r[k + 1] ==> !#[trigger] in_line(g, dst, d, r[k], v),
    ensures
        g.is_route(src, dst, r),
{
    lemma_chain_cost(g, dst, d, r, 0);
    assert(r.subrange(0, r.len() as int) =~= r);
    assert(g.reachable(src, dst));
    assert forall|q: Seq<NodeId>| #[trigger] g.is_walk(src, dst, q) implies g.walk_cost(r)
        <= g.walk_cost(q) by {
        lemma_table_bounds(g, dst, d, src, q);
    }
    assert forall|i: int| 0 <= i < r.len() - 1 implies #[trigger] g.leads_on(r[i], r[i + 1], dst) by {
        assert(r[i] != dst);
        assert(in_line(g, dst, d, r[i], r[i + 1]));
        lemma_in_line_leads_on(g, dst, d, r[i], r[i + 1]);
    }
    assert forall|i: int, v: NodeId| 0 <= i < r.len() - 1 && v < r[i + 1] implies !#[trigger] g.leads_on(
        r[i],
        v,
        dst,
    ) by {
        assert(r[i] != dst);
        assert(!in_line(g, dst, d, r[i], v));
        lemma_in_line_leads_on(g, dst, d, r[i], v);
    }
}

/// The route from `src` to `dst` in the graph of the topology's edges and
/// the given tolls.
fn cheapest_route(topology: &Topology, tolls: &Vec<Option<u64>>, src: NodeId, dst: NodeId) -> (route:
    Vec<NodeId>)
    requires
        topology.wf(),
        tolls@.len() == 256,
        tolls_graph(topology@.edges, tolls@).wf(),
    ensures
        tolls_graph(topology@.edges, tolls@).is_route(src, dst, route@),
        route@ == tolls_graph(topology@.edges, tolls@).route(src, dst),
{
    let ghost g = tolls_graph(topology@.edges, tolls@);
    let dist = cheapest_costs(topology, tolls, dst);
    let mut route: Vec<NodeId> = Vec::new();
    let mut cost: u64 = match dist[src as usize] {
        Some(x) => x,
        None => {
            proof {
                if g.reachable(src, dst) {
                    let p = choose|p: Seq<NodeId>| g.is_walk(src, dst, p);
                    lemma_table_bounds(g, dst, dist@, src, p);
                }
                lemma_route_is(g, src, dst, route@);
            }
            return route;
        },
    };
    route.push(src);
    let mut cur: NodeId = src;
    while cur != dst
        invariant
            topology.wf(),
            tolls@.len() == 256,
            g == tolls_graph(topology@.edges, tolls@),
            g.wf(),
            certified(g, dst, dist@),
            route@.len() >= 1,
            route@[0] == src,
            route@.last() == cur,
            dist@[cur as int] == Some(cost),
            forall|k: int| 0 <= k < route@.len() - 1 ==> #[trigger] route@[k] != dst,
            forall|k: int|
                0 <= k < route@.len() - 1 ==> in_line(g, dst, dist@, #[trigger] route@[k], route@[k + 1]),
            forall|k: int, v: NodeId|
                0 <= k < route@.len() - 1 && v < route@[k + 1] ==> !#[trigger] in_line(
                    g,
                    dst,
                    dist@,
                    route@[k],
                    v,
                ),
        decreases
                if cur == dst {
                    0
                } else {
                    cost + 1
                },
    {
        let mut v: usize = 0;
        let mut next: Option<(u8, u64)> = None;
        while v < 256 && next.is_none()
            invariant
                v <= 256,
                topology.wf(),
                tolls@.len() == 256,
                dist@.len() == 256,
                g == tolls_graph(topology@.edges, tolls@),
                dist@[cur as int] == Some(cost),
                match next {
                    Some((w, rest)) => {
                        &&& w + 1 == v
                        &&& in_line(g, dst, dist@, cur, w)
                        &&& dist@[w as int] == Some(rest)
                        &&& forall|x: NodeId| x < w ==> !in_line(g, dst, dist@, cur, x)
                    },
                    None => forall|x: NodeId| x < v ==> !in_line(g, dst, dist@, cur, x),
                },
            decreases 256 - v + if next.is_none() { 1int } else { 0int },
        {
            if topology.has_edge(cur, v as u8) {
                let step: Option<u64> = if v as u8 == dst {
                    Some(0)
                } else {
                    tolls[v]
                };
                match (step, dist[v]) {
                    (Some(c), Some(rest)) => {
                        if rest <= cost && cost - rest == c {
                            next = Some((v as u8, rest));
                        }
                    },
                    _ => {},
                }
            }
            v += 1;
        }
        let ghost before = route@;
        match next {
            Some((w, rest)) => {
                proof {
                    if w != dst {
                        assert(g.passable(w));
                        assert(g.tolls[w] >= 1);
                    }
                }
                route.push(w);
                cur = w;
                cost = rest;
                proof {
                    assert forall|k: int| 0 <= k < route@.len() - 1 implies in_line(
                        g,
                        dst,
                        dist@,
                        #[trigger] route@[k],
                        route@[k + 1],
                    ) by {
                        if k < before.len() - 1 {
                            assert(route@[k] == before[k] && route@[k + 1] == before[k + 1]);
                        }
                    }
                    assert forall|k: int, x: NodeId|
                        0 <= k < route@.len() - 1 && x < route@[k + 1] implies !#[trigger] in_line(
                        g,
                        dst,
                        dist@,
                        route@[k],
                        x,
                    ) by {
                        if k < before.len() - 1 {
                            assert(route@[k] == before[k] && route@[k + 1] == before[k + 1]);
                        }
                    }
                }
            },
            None => {
                proof {
                    let w = choose|w: NodeId| in_line(g, dst, dist@, cur, w);
                    assert(in_line(g, dst, dist@, cur, w));
                    assert(false);
                }
                return route;
            },
        }
    }
    proof {
        lemma_chain_is_route(g, src, dst, dist@, route@);
        lemma_route_is(g, src, dst, route@);
    }
    route
}

/// What a drone with history `h` adds to its toll: a hundred times the
/// share of the packets it was given that it dropped, rounded down.
pub open spec fn drop_penalty(h: NodeHistory) -> nat {
    if h.forwarded == 0 {
        0
    } else {
        ((100 * h.dropped) / (h.forwarded as int)) as nat
    }
}

/// The toll of a drone with history `h`.
pub open spec fn toll_of(h: NodeHistory) -> nat {
    1 + drop_penalty(h)
}

/// A drone that dropped a larger share of its packets charges no less.
pub proof fn lemma_toll_monotonic(h1: NodeHistory, h2: NodeHistory)
    requires
        h1.forwarded > 0,
        h2.forwarded > 0,
        h1.dropped * h2.forwarded <= h2.dropped * h1.forwarded,
    ensures
        toll_of(h1) <= toll_of(h2),
{
    let d1 = h1.dropped as int;
    let f1 = h1.forwarded as int;
    let d2 = h2.dropped as int;
    let f2 = h2.forwarded as int;
    let q1 = (100 * d1) / f1;
    let q2 = (100 * d2) / f2;
    assert(q1 <= q2) by (nonlinear_arith)
        requires
            f1 > 0,
            f2 > 0,
            d1 >= 0,
            d2 >= 0,
            d1 * f2 <= d2 * f1,
            q1 == (100 * d1) / f1,
            q2 == (100 * d2) / f2,
    ;
}

/// A toll is at least 1, and at most [`MAX_TOLL`] for a drone that dropped
/// no more than it was given.
pub proof fn lemma_toll_bounds(h: NodeHistory)
    requires
        h.dropped <= h.forwarded,
    ensures
        1 <= toll_of(h) <= MAX_TOLL,
{
    if h.forwarded > 0 {
        let d = h.dropped as int;
        let f = h.forwarded as int;
        assert(0 <= (100 * d) / f <= 100) by (nonlinear_arith)
            requires
                0 <= d <= f,
                f > 0,
        ;
    }
}

/// The graph in which packets are routed: the edges of the topology, with
/// the drones as the only nodes that let packets through, each for a toll
/// that grows with the share of packets it dropped.
pub open spec fn drone_graph(t: TopologyView) -> Graph {
    Graph {
        edges: t.edges,
        tolls: Map::new(|v: NodeId| t.is_drone(v), |v: NodeId| toll_of(t.history[v])),
    }
}

/// The node may stand between the ends of a route by hops: it is a drone,
/// or of no known kind. A node known as a client or a server may not.
pub open spec fn may_relay(t: TopologyView, v: NodeId) -> bool {
    !t.kinds.contains_key(v) || t.kinds[v] == NodeType::Drone
}

/// The graph in which every drone and every node of no known kind lets
/// packets through for a toll of 1, and clients and servers let nothing
/// through, so that the cheapest walk is the one with the fewest hops.
pub open spec fn hop_graph(t: TopologyView) -> Graph {
    Graph { edges: t.edges, tolls: Map::new(|v: NodeId| may_relay(t, v), |v: NodeId| 1nat) }
}

/// The route on which the client sends from `src` to `dst`.
pub open spec fn spec_shortest_route(t: TopologyView, src: NodeId, dst: NodeId) -> Seq<NodeId> {
    drone_graph(t).route(src, dst)
}

/// The header of a packet that sets out from `src` for `dst`: the route,
/// about to leave its first node.
pub open spec fn spec_routing_header(t: TopologyView, src: NodeId, dst: NodeId) -> crate::packet::RouteView {
    crate::packet::RouteView { hop_index: 1, hops: spec_shortest_route(t, src, dst) }
}

fn toll_of_history(h: NodeHistory) -> (toll: u64)
    requires
        h.dropped <= h.forwarded,
    ensures
        toll == toll_of(h),
        1 <= toll <= MAX_TOLL,
{
    proof {
        lemma_toll_bounds(h);
    }
    if h.forwarded == 0 {
        1
    } else {
        let scaled: u128 = 100u128 * (h.dropped as u128);
        let penalty: u128 = scaled / (h.forwarded as u128);
        1 + penalty as u64
    }
}

fn drone_tolls(topology: &Topology) -> (tolls: Vec<Option<u64>>)
    requires
        topology.wf(),
    ensures
        tolls@.len() == 256,
        tolls_graph(topology@.edges, tolls@) == drone_graph(topology@),
        drone_graph(topology@).wf(),
{
    let mut tolls: Vec<Option<u64>> = Vec::new();
    let mut j: usize = 0;
    while j < 256
        invariant
            j <= 256,
            topology.wf(),
            tolls@.len() == j,
            forall|v: NodeId|
                v < j ==> #[trigger] tolls@[v as int] == if topology@.is_drone(v) {
                    Some(toll_of(topology@.history[v]) as u64)
                } else {
                    None
                },
        decreases 256 - j,
    {
        let id: u8 = j as u8;
        let toll = match topology.get_node_type(id) {
            Some(NodeType::Drone) => {
                let h = topology.get_node_history(id);
                assert(topology@.history[id].dropped <= topology@.history[id].forwarded);
                Some(toll_of_history(h))
            },
            _ => None,
        };
        tolls.push(toll);
        j += 1;
    }
    proof {
        assert forall|v: NodeId| #[trigger] drone_graph(topology@).passable(v) implies 1
            <= drone_graph(topology@).tolls[v] <= MAX_TOLL by {
            assert(topology@.history[v].dropped <= topology@.history[v].forwarded);
            lemma_toll_bounds(topology@.history[v]);
        }
        assert forall|v: NodeId| topology@.is_drone(v) implies toll_of(topology@.history[v])
            <= MAX_TOLL by {
            assert(topology@.history[v].dropped <= topology@.history[v].forwarded);
            lemma_toll_bounds(topology@.history[v]);
        }
        assert(tolls_graph(topology@.edges, tolls@).tolls =~= drone_graph(topology@).tolls);
    }
    tolls
}

/// The route with the fewest hops from `source_id` to `destination_id`:
/// empty where there is none. Clients and servers are the ends of a route
/// only; between them it passes through drones and through nodes of no
/// known kind. Among next hops that are equally good the lowest id is taken.
pub fn compute_route(topology: &Topology, source_id: NodeId, destination_id: NodeId) -> (route:
    Vec<NodeId>)
    requires
        topology.wf(),
    ensures
        hop_graph(topology@).is_route(source_id, destination_id, route@),
        route@ == hop_graph(topology@).route(source_id, destination_id),
{
    let mut tolls: Vec<Option<u64>> = Vec::new();
    let mut j: usize = 0;
    while j < 256
        invariant
            j <= 256,
            topology.wf(),
            tolls@.len() == j,
            forall|v: NodeId|
                v < j ==> #[trigger] tolls@[v as int] == if may_relay(topology@, v) {
                    Some(1u64)
                } else {
                    None
                },
        decreases 256 - j,
    {
        let toll = match topology.get_node_type(j as u8) {
            Some(NodeType::Client) => None,
            Some(NodeType::Server) => None,
            _ => Some(1u64),
        };
        tolls.push(toll);
        j += 1;
    }
    proof {
        assert(tolls_graph(topology@.edges, tolls@).tolls =~= hop_graph(topology@).tolls);
    }
    cheapest_route(topology, &tolls, source_id, destination_id)
}

/// A route by hops passes through no node that is known as a client or a
/// server.
pub proof fn lemma_route_relays(t: TopologyView, src: NodeId, dst: NodeId, r: Seq<NodeId>, i: int)
    requires
        hop_graph(t).is_route(src, dst, r),
        0 < i < r.len() - 1,
    ensures
        may_relay(t, r[i]),
{
    lemma_route_shape(hop_graph(t), src, dst, r);
    assert(hop_graph(t).passable(r[i]));
}

/// The route on which the client sends passes through drones only.
pub proof fn lemma_route_through_drones(t: TopologyView, src: NodeId, dst: NodeId, r: Seq<NodeId>, i: int)
    requires
        drone_graph(t).is_route(src, dst, r),
        0 < i < r.len() - 1,
    ensures
        t.is_drone(r[i]),
        r == spec_shortest_route(t, src, dst),
{
    lemma_route_is(drone_graph(t), src, dst, r);
    lemma_route_shape(drone_graph(t), src, dst, r);
    assert(drone_graph(t).passable(r[i]));
}

impl Topology {
    /// The cheapest route from `src` to `dst` that passes through drones
    /// only: empty where there is none. Among next hops that are equally
    /// good the lowest id is taken.
    pub fn shortest_route(&self, src: NodeId, dst: NodeId) -> (route: Vec<NodeId>)
        requires
            self.wf(),
        ensures
            drone_graph(self@).is_route(src, dst, route@),
            route@ == spec_shortest_route(self@, src, dst),
    {
        let tolls = drone_tolls(self);
        cheapest_route(self, &tolls, src, dst)
    }

    /// The header for a packet from `source_id` to `destination_id`.
    pub fn get_routing_header(&self, source_id: NodeId, destination_id: NodeId) -> (header:
        SourceRoutingHeader)
        requires
            self.wf(),
        ensures
            header@ == spec_routing_header(self@, source_id, destination_id),
    {
        SourceRoutingHeader { hop_index: 1, hops: self.shortest_route(source_id, destination_id) }
    }
}

/// A route is empty exactly where the destination cannot be reached; else it
/// starts at the source, ends at the destination, follows edges, passes
/// through nothing but nodes that let packets through, and costs no more
/// than any other walk.
pub proof fn lemma_route_shape(g: Graph, src: NodeId, dst: NodeId, r: Seq<NodeId>)
    requires
        g.is_route(src, dst, r),
    ensures
        r.len() == 0 <==> !g.reachable(src, dst),
        r.len() > 0 ==> r[0] == src && r.last() == dst && g.is_cheapest(src, dst, r),
        src == dst ==> r == seq![src],
{
    if src == dst {
        let p = seq![src];
        assert(g.is_walk(src, dst, p));
        if r.len() > 1 {
            assert(r[0] != dst);
        }
        assert(r =~= p);
    }
}

} // verus!
