//! What holds of the client on every input: laws of the state machine,
//! proved from its definition.

use crate::message::ServerType;
use crate::model::{
    all_set, before_last, broadcast_to, flood_probe, ingest_node, ingest_trace, needs_query,
    ClientEvent, ClientView, Ids, OutgoingView, MIN_FLOOD_INTERVAL,
};
use crate::packet::{Fragment, Nack, NackType, NodeId, NodeType, PacketView, RouteView};
use crate::routing::spec_routing_header;
use crate::topology::{lemma_update_history_keeps_wf, lemma_without, TopologyView};
use vstd::prelude::*;

verus! {

/// Between two floods that the client starts itself at least
/// [`MIN_FLOOD_INTERVAL`] passes: an attempt before that changes nothing,
/// and one at or after it starts a flood and moves the time of the last
/// flood there.
pub proof fn lemma_flood_rate_limit(c: ClientView, now: u128, ids: Ids)
    ensures
        now < c.last_flood + MIN_FLOOD_INTERVAL ==> c.send_flood_request(now, ids) == c,
        now >= c.last_flood + MIN_FLOOD_INTERVAL ==> c.send_flood_request(now, ids).last_flood
            == now && c.send_flood_request(now, ids).flood_ids == c.flood_ids.push(ids.flood_id),
        c.send_flood_request(now, ids).last_flood >= c.last_flood,
{
}

/// After a flood was started at `first`, an attempt at any time `second`
/// before `first + MIN_FLOOD_INTERVAL` starts none: no request goes out and
/// no flood id is recorded. So any two floods that the client starts are at
/// least the interval apart, and no window of that length holds two.
pub proof fn lemma_one_flood_per_interval(c: ClientView, first: u128, second: u128, a: Ids, b: Ids)
    requires
        c.flood_allowed(first),
        second < first + MIN_FLOOD_INTERVAL,
    ensures
        c.send_flood_request(first, a).send_flood_request(second, b) == c.send_flood_request(
            first,
            a,
        ),
        c.send_flood_request(first, a).flood_ids == c.flood_ids.push(a.flood_id),
        c.send_flood_request(first, a).outbox.len() == c.outbox.len() + c.neighbors.len(),
{
}

/// Taking in the same acknowledgment twice leaves the state as it was after
/// the first.
pub proof fn lemma_ack_idempotent(c: ClientView, session_id: u64, fragment_index: u64)
    ensures
        c.on_ack_received(session_id, fragment_index).on_ack_received(session_id, fragment_index)
            == c.on_ack_received(session_id, fragment_index),
{
    let once = c.on_ack_received(session_id, fragment_index);
    let twice = once.on_ack_received(session_id, fragment_index);
    if c.ack_error(session_id, fragment_index).is_none() {
        let session = c.sessions[session_id];
        let acked = session.acked.update(fragment_index as int, true);
        if !all_set(acked) {
            assert(once.sessions[session_id].acked == acked);
            assert(acked.update(fragment_index as int, true) =~= acked);
            assert(twice.sessions =~= once.sessions);
        }
    }
}

/// An acknowledgment only sets bits: a session that is still pending
/// afterwards has as many bits as before, every bit set that was set, its
/// log unchanged, and, where the acknowledgment was not ignored, the bit of
/// the fragment set and some bit still unset. A session whose bits are all
/// set is retired at once. No other session changes.
pub proof fn lemma_ack_monotone(c: ClientView, session_id: u64, fragment_index: u64)
    requires
        c.sessions.contains_key(session_id),
    ensures
        ({
            let after = c.on_ack_received(session_id, fragment_index);
            let before = c.sessions[session_id];
            if after.sessions.contains_key(session_id) {
                let session = after.sessions[session_id];
                &&& session.log == before.log
                &&& session.acked.len() == before.acked.len()
                &&& forall|i: int| 0 <= i < before.acked.len() && before.acked[i] ==> session.acked[i]
                &&& fragment_index < before.acked.len() ==> session.acked[fragment_index as int]
                    && !all_set(session.acked)
            } else {
                fragment_index < before.acked.len() && all_set(
                    before.acked.update(fragment_index as int, true),
                )
            }
        }),
        forall|other: u64|
            other != session_id ==> (c.on_ack_received(
                session_id,
                fragment_index,
            ).sessions.contains_key(other) <==> c.sessions.contains_key(other)),
        forall|other: u64|
            other != session_id && c.sessions.contains_key(other) ==> c.on_ack_received(
                session_id,
                fragment_index,
            ).sessions[other] == c.sessions[other],
{
}

/// A session that was retired stays out of the log: acknowledgments and
/// negative acknowledgments for it change nothing.
pub proof fn lemma_retired_stays_out(
    c: ClientView,
    session_id: u64,
    fragment_index: u64,
    header: RouteView,
    nack: Nack,
    now: u128,
    ids: Ids,
)
    requires
        !c.sessions.contains_key(session_id),
    ensures
        c.on_ack_received(session_id, fragment_index) == c,
        c.on_nack_received(header, session_id, nack, now, ids) == c,
{
}

/// A negative acknowledgment logs nothing: whether it is ignored, or the
/// fragment goes out again, or waits for a route, the log and the bits of
/// every session are as they were. In a session whose log holds each
/// fragment once, it holds each once afterwards.
pub proof fn lemma_resend_keeps_log(c: ClientView, header: RouteView, session_id: u64, nack: Nack, now: u128, ids: Ids)
    ensures
        c.on_nack_received(header, session_id, nack, now, ids).sessions == c.sessions,
        c.nack_applies(session_id, nack) && c.sessions[session_id].log[nack.fragment_index as int].routing_header.hops.len()
            > 0 ==> {
            let lost = c.sessions[session_id].log[nack.fragment_index as int];
            let after = c.on_nack_received(header, session_id, nack, now, ids);
            ||| after.outbox.len() > 0 && after.outbox.last().packet.pack_type == lost.pack_type
                && after.outbox.last().packet.session_id == lost.session_id
            ||| after.pending.contains_key(lost.routing_header.destination().unwrap())
                && after.pending[lost.routing_header.destination().unwrap()].pack_type
                == lost.pack_type && after.resent.contains(
                lost.routing_header.destination().unwrap(),
            )
            ||| after.events.len() > 0 && after.events.last() == (ClientEvent::SendFailed {
                session_id: lost.session_id,
            })
        },
{
}

/// A negative acknowledgment for a fragment beyond the log of its session
/// changes nothing.
pub proof fn lemma_nack_beyond_log(c: ClientView, header: RouteView, session_id: u64, nack: Nack, now: u128, ids: Ids)
    requires
        c.sessions.contains_key(session_id),
        nack.fragment_index >= c.sessions[session_id].log.len(),
    ensures
        c.on_nack_received(header, session_id, nack, now, ids) == c,
{
}

/// A negative acknowledgment that reports a routing error at a node removes
/// the node: afterwards the topology does not list it and has no edge at it.
pub proof fn lemma_routing_error_removes_node(
    c: ClientView,
    header: RouteView,
    session_id: u64,
    fragment_index: u64,
    node: NodeId,
    now: u128,
    ids: Ids,
)
    requires
        c.wf(),
        c.nack_applies(session_id, Nack { fragment_index, nack_type: NackType::ErrorInRouting(node) }),
    ensures
        ({
            let after = c.on_nack_received(
                header,
                session_id,
                Nack { fragment_index, nack_type: NackType::ErrorInRouting(node) },
                now,
                ids,
            );
            &&& !after.topology.nodes.contains(node)
            &&& forall|n: NodeId| !after.topology.has_edge(node, n) && !after.topology.has_edge(n, node)
            &&& after.topology.nodes == crate::topology::without(c.topology.nodes, node)
        }),
{
    let nack = Nack { fragment_index, nack_type: NackType::ErrorInRouting(node) };
    let noted = c.send_flood_request(now, ids);
    let pruned = ClientView { topology: noted.topology.remove_node(node), ..noted };
    lemma_without(c.topology.nodes, node);
    crate::topology::lemma_operations_keep_wf(
        c.topology,
        node,
        node,
        NodeType::Drone,
        ServerType::Chat,
        false,
    );
    let lost = c.sessions[session_id].log[fragment_index as int];
    match lost.routing_header.destination() {
        Some(destination_id) => {
            let again = PacketView {
                routing_header: spec_routing_header(pruned.topology, c.id, destination_id),
                ..lost
            };
            lemma_send_packet_keeps_graph(pruned, again, destination_id, now, ids);
        },
        None => {},
    }
}

/// For every fragment that comes in with a sender, exactly one
/// acknowledgment of that fragment and session is produced: it goes out to
/// the next hop, or waits for a route to the sender, or is reported as
/// failed. Nothing else enters the queue of waiting packets, and nothing
/// else goes out but the requests of a flood.
pub proof fn lemma_one_ack_per_fragment(c: ClientView, packet: PacketView, fragment: Fragment, now: u128, ids: Ids)
    requires
        packet.routing_header.source().is_some(),
    ensures
        ({
            let source = packet.routing_header.source().unwrap();
            let after = c.on_fragment_received(packet, fragment, now, ids);
            let ack = c.ack_packet(fragment.fragment_index, source, packet.session_id);
            &&& ack.session_id == packet.session_id
            &&& ack.pack_type == crate::packet::PacketTypeView::Ack(
                crate::packet::Ack { fragment_index: fragment.fragment_index },
            )
            &&& if ack.routing_header.hops.len() == 0 {
                &&& after.pending == c.pending.insert(source, ack)
                &&& after.outbox == c.outbox || after.outbox == c.outbox + broadcast_to(
                    c.neighbors,
                    flood_probe(c.id, ids),
                )
                &&& after.events == c.events || after.events == c.events.push(
                    ClientEvent::FloodRequestSent,
                )
            } else if ack.routing_header.next_hop().is_some() && c.neighbors.contains(
                ack.routing_header.next_hop().unwrap(),
            ) {
                &&& after.pending == c.pending
                &&& after.outbox == c.outbox.push(
                    OutgoingView { to: ack.routing_header.next_hop().unwrap(), packet: ack },
                )
                &&& after.events == c.events.push(
                    ClientEvent::PacketSent {
                        session_id: packet.session_id,
                        packet_type: crate::packet::PacketKind::Ack,
                    },
                )
            } else {
                &&& after.pending == c.pending
                &&& after.outbox == c.outbox
                &&& after.events == c.events.push(
                    ClientEvent::SendFailed { session_id: packet.session_id },
                )
            }
        }),
{
}

/// Draining the destinations below `upto` leaves the packets that wait for
/// the destinations from `upto` on where they are.
pub proof fn lemma_drain_keeps_later(c: ClientView, upto: nat, now: u128, ids: Ids, d: NodeId)
    requires
        upto <= d,
    ensures
        c.drain(upto, now, ids).pending.contains_key(d) == c.pending.contains_key(d),
        c.pending.contains_key(d) ==> c.drain(upto, now, ids).pending[d] == c.pending[d],
        c.drain(upto, now, ids).resent.contains(d) == c.resent.contains(d),
        c.drain(upto, now, ids).id == c.id,
        c.drain(upto, now, ids).neighbors == c.neighbors,
    decreases upto,
{
    if upto > 0 {
        lemma_drain_keeps_later(c, (upto - 1) as nat, now, ids, d);
        lemma_drain_keeps_later(c, (upto - 1) as nat, now, ids, (upto - 1) as NodeId);
    }
}

/// Draining the destinations from `from` on leaves an empty place of a
/// destination below `from` empty, and only adds to the outbox.
pub proof fn lemma_drain_keeps_earlier(c: ClientView, upto: nat, now: u128, ids: Ids, d: NodeId)
    requires
        d < upto <= 256,
    ensures
        c.drain(upto, now, ids).pending.contains_key(d) == c.drain(
            (d + 1) as nat,
            now,
            ids,
        ).pending.contains_key(d),
        c.drain(upto, now, ids).outbox.len() >= c.drain((d + 1) as nat, now, ids).outbox.len(),
        forall|i: int|
            0 <= i < c.drain((d + 1) as nat, now, ids).outbox.len() ==> c.drain(
                upto,
                now,
                ids,
            ).outbox[i] == c.drain((d + 1) as nat, now, ids).outbox[i],
    decreases upto,
{
    if upto > d + 1 {
        lemma_drain_keeps_earlier(c, (upto - 1) as nat, now, ids, d);
    }
}

/// A packet that waits for a route to `d` is handed on exactly once when a
/// route is there: when the turn of `d` comes and the topology gives a
/// route whose next hop is a neighbour, the packet goes out on that route,
/// once, and the place of `d` is empty from then to the end of the drain.
/// It is logged then unless it is in the log of its session already.
pub proof fn lemma_waiting_packet_sent_once(c: ClientView, now: u128, ids: Ids, d: NodeId)
    requires
        c.pending.contains_key(d),
    ensures
        ({
            let before = c.drain(d as nat, now, ids);
            let after = c.drain((d + 1) as nat, now, ids);
            let route = spec_routing_header(before.topology, c.id, d);
            let packet = PacketView { routing_header: route, ..c.pending[d] };
            route.hops.len() > 0 && route.next_hop().is_some() && c.neighbors.contains(
                route.next_hop().unwrap(),
            ) ==> {
                &&& after.outbox == before.outbox.push(
                    OutgoingView { to: route.next_hop().unwrap(), packet },
                )
                &&& !after.pending.contains_key(d)
                &&& after.sessions == if c.resent.contains(d) {
                    before.sessions
                } else {
                    before.sessions.insert(
                        packet.session_id,
                        crate::model::session_after_send(before.sessions, packet),
                    )
                }
                &&& !c.drain(256, now, ids).pending.contains_key(d)
                &&& c.drain(256, now, ids).outbox.len() >= after.outbox.len()
                &&& c.drain(256, now, ids).outbox[before.outbox.len() as int] == (OutgoingView {
                    to: route.next_hop().unwrap(),
                    packet,
                })
            }
        }),
{
    lemma_drain_keeps_later(c, d as nat, now, ids, d);
    lemma_drain_keeps_earlier(c, 256, now, ids, d);
}

/// The kind and the server type that the topology records for a node.
pub open spec fn label(t: TopologyView, n: NodeId) -> (Option<NodeType>, Option<ServerType>) {
    (
        if t.kinds.contains_key(n) {
            Some(t.kinds[n])
        } else {
            None
        },
        if t.server_types.contains_key(n) {
            Some(t.server_types[n])
        } else {
            None
        },
    )
}

/// What a tag in a path trace does to the label of the node it tags.
pub open spec fn relabel(l: (Option<NodeType>, Option<ServerType>), tag: NodeType) -> (
    Option<NodeType>,
    Option<ServerType>,
) {
    if tag == NodeType::Server {
        if l.0 == Some(NodeType::Server) {
            l
        } else {
            (Some(NodeType::Server), l.1)
        }
    } else {
        (Some(tag), None)
    }
}

/// The label of node `n` after the tags that `trace` gives it, in order.
pub open spec fn relabel_all(
    l: (Option<NodeType>, Option<ServerType>),
    trace: Seq<(NodeId, NodeType)>,
    n: NodeId,
) -> (Option<NodeType>, Option<ServerType>)
    decreases trace.len(),
{
    if trace.len() == 0 {
        l
    } else if trace.last().0 == n {
        relabel(relabel_all(l, trace.drop_last(), n), trace.last().1)
    } else {
        relabel_all(l, trace.drop_last(), n)
    }
}

/// The trace tags `n` as something else than a server.
pub open spec fn tagged_plain(trace: Seq<(NodeId, NodeType)>, n: NodeId) -> bool {
    exists|k: int| 0 <= k < trace.len() && trace[k].0 == n && trace[k].1 != NodeType::Server
}

/// The trace names `n`.
pub open spec fn named(trace: Seq<(NodeId, NodeType)>, n: NodeId) -> bool {
    exists|k: int| 0 <= k < trace.len() && trace[k].0 == n
}

/// The edges that a path trace shows, each in both directions.
pub open spec fn trace_edges(trace: Seq<(NodeId, NodeType)>) -> Set<(NodeId, NodeId)>
    decreases trace.len(),
{
    if trace.len() < 2 {
        Set::empty()
    } else {
        trace_edges(trace.drop_last()).insert((trace[trace.len() - 2].0, trace.last().0)).insert(
            (trace.last().0, trace[trace.len() - 2].0),
        )
    }
}

proof fn lemma_ingest_parts(t: TopologyView, trace: Seq<(NodeId, NodeType)>)
    ensures
        ingest_trace(t, trace).edges == t.edges + trace_edges(trace),
        ingest_trace(t, trace).history == t.history,
        forall|n: NodeId| label(ingest_trace(t, trace), n) == relabel_all(label(t, n), trace, n),
        forall|n: NodeId| t.nodes.contains(n) ==> ingest_trace(t, trace).nodes.contains(n),
        forall|k: int| 0 <= k < trace.len() ==> ingest_trace(t, trace).nodes.contains(trace[k].0),
        (forall|k: int| 0 <= k < trace.len() ==> t.nodes.contains(trace[k].0)) ==> ingest_trace(
            t,
            trace,
        ).nodes == t.nodes,
    decreases trace.len(),
{
    if trace.len() == 0 {
        assert(t.edges + trace_edges(trace) =~= t.edges);
    } else {
        let init = trace.drop_last();
        let node = trace.last();
        let before = ingest_trace(t, init);
        let after = ingest_node(before, before_last(trace), node);
        lemma_ingest_parts(t, init);
        assert(after.edges =~= t.edges + trace_edges(trace));
        assert forall|n: NodeId| label(after, n) == relabel_all(label(t, n), trace, n) by {
            assert(label(before, n) == relabel_all(label(t, n), init, n));
        }
        assert forall|n: NodeId| before.nodes.contains(n) implies after.nodes.contains(n) by {
            crate::topology::lemma_push_contains(before.nodes, node.0, n);
        }
        assert(after.nodes.contains(node.0)) by {
            crate::topology::lemma_push_contains(before.nodes, node.0, node.0);
        }
        assert forall|k: int| 0 <= k < trace.len() implies after.nodes.contains(trace[k].0) by {
            if k < init.len() {
                assert(init[k] == trace[k]);
                assert(before.nodes.contains(init[k].0));
            }
        }
        if forall|k: int| 0 <= k < trace.len() ==> t.nodes.contains(trace[k].0) {
            assert forall|k: int| 0 <= k < init.len() implies t.nodes.contains(init[k].0) by {
                assert(init[k] == trace[k]);
            }
            assert(t.nodes.contains(trace[trace.len() - 1].0));
        }
    }
}

proof fn lemma_plain_tag_decides(
    l1: (Option<NodeType>, Option<ServerType>),
    l2: (Option<NodeType>, Option<ServerType>),
    trace: Seq<(NodeId, NodeType)>,
    n: NodeId,
)
    requires
        tagged_plain(trace, n),
    ensures
        relabel_all(l1, trace, n) == relabel_all(l2, trace, n),
    decreases trace.len(),
{
    let k = choose|k: int| 0 <= k < trace.len() && trace[k].0 == n && trace[k].1 != NodeType::Server;
    let init = trace.drop_last();
    if k < trace.len() - 1 {
        assert(init[k] == trace[k]);
        lemma_plain_tag_decides(l1, l2, init, n);
    }
}

proof fn lemma_server_tags_only(
    l: (Option<NodeType>, Option<ServerType>),
    trace: Seq<(NodeId, NodeType)>,
    n: NodeId,
)
    requires
        !tagged_plain(trace, n),
    ensures
        named(trace, n) ==> relabel_all(l, trace, n).0 == Some(NodeType::Server),
        !named(trace, n) ==> relabel_all(l, trace, n) == l,
        l.0 == Some(NodeType::Server) ==> relabel_all(l, trace, n) == l,
    decreases trace.len(),
{
    if trace.len() > 0 {
        let init = trace.drop_last();
        assert(!tagged_plain(init, n)) by {
            if tagged_plain(init, n) {
                let k = choose|k: int|
                    0 <= k < init.len() && init[k].0 == n && init[k].1 != NodeType::Server;
                assert(trace[k] == init[k]);
            }
        }
        lemma_server_tags_only(l, init, n);
        if trace.last().0 == n {
            assert(trace[trace.len() - 1].0 == n);
            assert(trace.last().1 == NodeType::Server);
        } else {
            if named(trace, n) {
                let k = choose|k: int| 0 <= k < trace.len() && trace[k].0 == n;
                assert(init[k] == trace[k]);
            }
        }
        if named(init, n) {
            let k = choose|k: int| 0 <= k < init.len() && init[k].0 == n;
            assert(trace[k] == init[k]);
        }
    }
}

/// Taking in the same path trace twice leaves the topology as it was after
/// the first time.
pub proof fn lemma_ingest_idempotent(t: TopologyView, trace: Seq<(NodeId, NodeType)>)
    ensures
        ingest_trace(ingest_trace(t, trace), trace) == ingest_trace(t, trace),
{
    let once = ingest_trace(t, trace);
    let twice = ingest_trace(once, trace);
    lemma_ingest_parts(t, trace);
    lemma_ingest_parts(once, trace);
    assert(twice.edges =~= once.edges);
    assert forall|n: NodeId| label(twice, n) == label(once, n) by {
        let l = label(t, n);
        let f = label(once, n);
        if tagged_plain(trace, n) {
            lemma_plain_tag_decides(f, l, trace, n);
        } else {
            lemma_server_tags_only(l, trace, n);
            lemma_server_tags_only(f, trace, n);
        }
    }
    assert forall|n: NodeId| #[trigger]
        twice.kinds.dom().contains(n) == once.kinds.dom().contains(n) by {
        assert(label(twice, n) == label(once, n));
    }
    assert forall|n: NodeId| twice.kinds.dom().contains(n) implies #[trigger] twice.kinds[n]
        == once.kinds[n] by {
        assert(label(twice, n) == label(once, n));
    }
    assert(twice.kinds =~= once.kinds);
    assert forall|n: NodeId| #[trigger]
        twice.server_types.dom().contains(n) == once.server_types.dom().contains(n) by {
        assert(label(twice, n) == label(once, n));
    }
    assert forall|n: NodeId|
        twice.server_types.dom().contains(n) implies #[trigger] twice.server_types[n]
        == once.server_types[n] by {
        assert(label(twice, n) == label(once, n));
    }
    assert(twice.server_types =~= once.server_types);
    assert(twice =~= once);
}

/// Two topologies know the same nodes, edges, kinds and server types; the
/// counters of their drones may differ.
pub open spec fn same_graph(a: TopologyView, b: TopologyView) -> bool {
    &&& a.nodes == b.nodes
    &&& a.edges == b.edges
    &&& a.kinds == b.kinds
    &&& a.server_types == b.server_types
}

/// Handing a packet on changes nothing in the topology but the counters.
pub proof fn lemma_send_packet_keeps_graph(c: ClientView, packet: PacketView, destination_id: NodeId, now: u128, ids: Ids)
    requires
        c.wf(),
    ensures
        c.send_packet(packet, destination_id, now, ids).wf(),
        same_graph(c.send_packet(packet, destination_id, now, ids).topology, c.topology),
{
    lemma_update_history_keeps_wf(c.topology, packet.routing_header.hops, false);
}

/// Sending fragments changes nothing in the topology but the counters.
pub proof fn lemma_send_fragments_keeps_graph(
    c: ClientView,
    destination_id: NodeId,
    fragments: Seq<Fragment>,
    now: u128,
    ids: Ids,
)
    requires
        c.wf(),
    ensures
        c.send_fragments(destination_id, fragments, now, ids).wf(),
        same_graph(c.send_fragments(destination_id, fragments, now, ids).topology, c.topology),
    decreases fragments.len(),
{
    if fragments.len() > 0 {
        lemma_send_fragments_keeps_graph(c, destination_id, fragments.drop_last(), now, ids);
        let before = c.send_fragments(destination_id, fragments.drop_last(), now, ids);
        lemma_send_packet_keeps_graph(
            before,
            before.fragment_packet(fragments.last(), destination_id, ids.session_id),
            destination_id,
            now,
            ids,
        );
    }
}

/// Trying the waiting packets again changes nothing in the topology but the
/// counters.
pub proof fn lemma_drain_keeps_graph(c: ClientView, upto: nat, now: u128, ids: Ids)
    requires
        c.wf(),
    ensures
        c.drain(upto, now, ids).wf(),
        same_graph(c.drain(upto, now, ids).topology, c.topology),
    decreases upto,
{
    if upto > 0 {
        lemma_drain_keeps_graph(c, (upto - 1) as nat, now, ids);
        let before = c.drain((upto - 1) as nat, now, ids);
        let d = (upto - 1) as NodeId;
        if before.pending.contains_key(d) {
            lemma_send_packet_keeps_graph(
                ClientView { pending: before.pending.remove(d), ..before },
                PacketView {
                    routing_header: spec_routing_header(before.topology, before.id, d),
                    ..before.pending[d]
                },
                d,
                now,
                ids,
            );
        }
    }
}

/// Taking in a node of a trace keeps a topology in order, and does the same
/// to topologies that know the same.
pub proof fn lemma_ingest_node_same(a: TopologyView, b: TopologyView, prev: Option<NodeId>, node: (NodeId, NodeType))
    requires
        a.wf(),
        same_graph(a, b),
    ensures
        ingest_node(a, prev, node).wf(),
        same_graph(ingest_node(a, prev, node), ingest_node(b, prev, node)),
        needs_query(a, node) == needs_query(b, node),
        ingest_node(a, prev, node).history == a.history,
{
    let listed = a.add_node(node.0);
    crate::topology::lemma_operations_keep_wf(a, node.0, node.0, node.1, ServerType::Chat, false);
    let typed = if needs_query(a, node) || node.1 != NodeType::Server {
        listed.set_node_type(node.0, node.1)
    } else {
        listed
    };
    crate::topology::lemma_operations_keep_wf(
        listed,
        node.0,
        node.0,
        node.1,
        ServerType::Chat,
        false,
    );
    match prev {
        Some(p) => {
            crate::topology::lemma_operations_keep_wf(
                typed,
                p,
                node.0,
                node.1,
                ServerType::Chat,
                false,
            );
        },
        None => {},
    }
}

/// What the client learns from a path trace is what the trace does to a
/// topology: the queries that the client sends on the way change nothing
/// but the counters.
pub proof fn lemma_absorb_is_ingest(
    c: ClientView,
    trace: Seq<(NodeId, NodeType)>,
    now: u128,
    ids: Ids,
    queries: Seq<Option<u64>>,
)
    requires
        c.wf(),
    ensures
        c.absorb_trace(trace, now, ids, queries).wf(),
        same_graph(c.absorb_trace(trace, now, ids, queries).topology, ingest_trace(c.topology, trace)),
    decreases trace.len(),
{
    if trace.len() > 0 {
        lemma_absorb_is_ingest(c, trace.drop_last(), now, ids, queries);
        let before = c.absorb_trace(trace.drop_last(), now, ids, queries);
        lemma_ingest_node_same(
            before.topology,
            ingest_trace(c.topology, trace.drop_last()),
            before_last(trace),
            trace.last(),
        );
        let known = ClientView {
            topology: ingest_node(before.topology, before_last(trace), trace.last()),
            ..before
        };
        if needs_query(before.topology, trace.last()) {
            lemma_send_fragments_keeps_graph(
                known,
                trace.last().0,
                crate::model::fragments_of(known.server_type_request),
                now,
                Ids { session_id: queries[trace.len() - 1].unwrap(), ..ids },
            );
        }
    }
}

/// Taking in traces does the same to topologies that know the same.
pub proof fn lemma_ingest_trace_same(a: TopologyView, b: TopologyView, trace: Seq<(NodeId, NodeType)>)
    requires
        a.wf(),
        b.wf(),
        same_graph(a, b),
    ensures
        ingest_trace(a, trace).wf(),
        ingest_trace(b, trace).wf(),
        same_graph(ingest_trace(a, trace), ingest_trace(b, trace)),
    decreases trace.len(),
{
    if trace.len() > 0 {
        lemma_ingest_trace_same(a, b, trace.drop_last());
        lemma_ingest_node_same(
            ingest_trace(a, trace.drop_last()),
            ingest_trace(b, trace.drop_last()),
            before_last(trace),
            trace.last(),
        );
        lemma_ingest_node_same(
            ingest_trace(b, trace.drop_last()),
            ingest_trace(a, trace.drop_last()),
            before_last(trace),
            trace.last(),
        );
    }
}

/// Handling a flood response with the same path trace twice leaves the
/// nodes, edges, kinds and server types of the topology as they were after
/// the first time, whenever the second comes and whatever is sent on the
/// way.
pub proof fn lemma_flood_response_idempotent(
    c: ClientView,
    flood_id: u64,
    trace: Seq<(NodeId, NodeType)>,
    first: u128,
    second: u128,
    a: Ids,
    b: Ids,
    asked: Seq<Option<u64>>,
    again: Seq<Option<u64>>,
)
    requires
        c.wf(),
    ensures
        ({
            let once = c.on_flood_response_received(flood_id, trace, first, a, asked);
            let twice = once.on_flood_response_received(flood_id, trace, second, b, again);
            &&& once.wf()
            &&& twice.wf()
            &&& same_graph(once.topology, ingest_trace(c.topology, trace))
            &&& same_graph(twice.topology, once.topology)
        }),
{
    let absorbed = c.absorb_trace(trace, first, a, asked);
    lemma_absorb_is_ingest(c, trace, first, a, asked);
    let told = ClientView {
        events: absorbed.events.push(ClientEvent::FloodResponse(flood_id)),
        ..absorbed
    };
    lemma_drain_keeps_graph(told, 256, first, a);
    let once = told.drain(256, first, a);
    let absorbed2 = once.absorb_trace(trace, second, b, again);
    lemma_absorb_is_ingest(once, trace, second, b, again);
    let told2 = ClientView {
        events: absorbed2.events.push(ClientEvent::FloodResponse(flood_id)),
        ..absorbed2
    };
    lemma_drain_keeps_graph(told2, 256, second, b);
    lemma_ingest_trace_same(c.topology, c.topology, trace);
    lemma_ingest_trace_same(once.topology, ingest_trace(c.topology, trace), trace);
    lemma_ingest_idempotent(c.topology, trace);
}

/// Sending a message keeps the client in order.
pub proof fn lemma_send_message_keeps_wf(c: ClientView, destination_id: NodeId, message: Seq<u8>, now: u128, ids: Ids)
    requires
        c.wf(),
    ensures
        c.send_message(destination_id, message, now, ids).wf(),
        same_graph(c.send_message(destination_id, message, now, ids).topology, c.topology),
{
    lemma_send_fragments_keeps_graph(
        c,
        destination_id,
        crate::model::fragments_of(message),
        now,
        ids,
    );
}

/// Asking servers what they offer keeps the client in order.
pub proof fn lemma_query_servers_keeps_wf(c: ClientView, servers: Seq<NodeId>, now: u128, ids: Ids, sessions: Seq<u64>)
    requires
        c.wf(),
    ensures
        c.query_servers(servers, now, ids, sessions).wf(),
        same_graph(c.query_servers(servers, now, ids, sessions).topology, c.topology),
    decreases servers.len(),
{
    if servers.len() > 0 {
        lemma_query_servers_keeps_wf(c, servers.drop_last(), now, ids, sessions);
        let before = c.query_servers(servers.drop_last(), now, ids, sessions);
        lemma_send_message_keeps_wf(
            before,
            servers.last(),
            before.server_type_request,
            now,
            Ids { session_id: sessions[servers.len() - 1], ..ids },
        );
    }
}

/// Whatever packet comes in, the client stays in order: the edges of its
/// topology run both ways, no node is listed twice, only servers have a
/// server type, no drone dropped more than it was given, and every buffer
/// keeps its fragments in order.
pub proof fn lemma_packet_keeps_wf(c: ClientView, packet: PacketView, now: u128, ids: Ids, queries: Seq<Option<u64>>)
    requires
        c.wf(),
    ensures
        c.on_drone_packet_received(packet, now, ids, queries).wf(),
{
    let noticed = c.noticed(packet.session_id);
    match packet.pack_type {
        crate::packet::PacketTypeView::MsgFragment(fragment) => {
            match packet.routing_header.source() {
                Some(source) => {
                    let taken = ClientView {
                        assembler: crate::assembler::assembler_after(
                            noticed.assembler,
                            fragment,
                            packet.session_id,
                        ),
                        ..noticed
                    };
                    if noticed.assembler.buffers.contains_key(packet.session_id) {
                        crate::assembler::lemma_insert_fragment(
                            noticed.assembler.buffers[packet.session_id].fragments,
                            fragment,
                        );
                    } else {
                        crate::assembler::lemma_insert_fragment(Seq::empty(), fragment);
                    }
                    assert(taken.assembler.wf());
                    lemma_send_packet_keeps_graph(
                        taken,
                        taken.ack_packet(fragment.fragment_index, source, packet.session_id),
                        source,
                        now,
                        ids,
                    );
                },
                None => {},
            }
        },
        crate::packet::PacketTypeView::Ack(_) => {},
        crate::packet::PacketTypeView::Nack(nack) => {
            if noticed.nack_applies(packet.session_id, nack) {
                let lost = noticed.sessions[packet.session_id].log[nack.fragment_index as int];
                let noted = if nack.nack_type == NackType::Dropped {
                    match packet.routing_header.source() {
                        Some(reporter) => {
                            lemma_update_history_keeps_wf(noticed.topology, seq![reporter], true);
                            ClientView {
                                topology: noticed.topology.update_node_history(seq![reporter], true),
                                ..noticed
                            }
                        },
                        None => noticed,
                    }
                } else {
                    noticed.send_flood_request(now, ids)
                };
                let pruned = match nack.nack_type {
                    NackType::ErrorInRouting(node) => {
                        crate::topology::lemma_operations_keep_wf(
                            noted.topology,
                            node,
                            node,
                            NodeType::Drone,
                            ServerType::Chat,
                            false,
                        );
                        ClientView { topology: noted.topology.remove_node(node), ..noted }
                    },
                    _ => noted,
                };
                match lost.routing_header.destination() {
                    Some(destination_id) => {
                        lemma_send_packet_keeps_graph(
                            pruned,
                            PacketView {
                                routing_header: spec_routing_header(
                                    pruned.topology,
                                    noticed.id,
                                    destination_id,
                                ),
                                ..lost
                            },
                            destination_id,
                            now,
                            ids,
                        );
                    },
                    None => {},
                }
            }
        },
        crate::packet::PacketTypeView::FloodRequest { .. } => {},
        crate::packet::PacketTypeView::FloodResponse { flood_id, path_trace } => {
            lemma_absorb_is_ingest(noticed, path_trace, now, ids, queries);
            let absorbed = noticed.absorb_trace(path_trace, now, ids, queries);
            let told = ClientView {
                events: absorbed.events.push(ClientEvent::FloodResponse(flood_id)),
                ..absorbed
            };
            lemma_drain_keeps_graph(told, 256, now, ids);
            let handled = told.drain(256, now, ids);
            if !handled.flood_ids.contains(flood_id) {
                match packet.routing_header.destination() {
                    Some(destination_id) => {
                        lemma_send_packet_keeps_graph(
                            handled,
                            PacketView { routing_header: packet.routing_header.advanced(), ..packet },
                            destination_id,
                            now,
                            ids,
                        );
                    },
                    None => {},
                }
            }
        },
    }
}

/// Taking and dropping neighbours, and starting, keep the client in order.
pub proof fn lemma_neighbors_keep_wf(c: ClientView, neighbor: NodeId, now: u128, ids: Ids)
    requires
        c.wf(),
    ensures
        c.add_sender(neighbor, now, ids).wf(),
        c.remove_sender(neighbor).wf(),
        c.start(now, ids).wf(),
{
    crate::topology::lemma_operations_keep_wf(
        c.topology,
        neighbor,
        neighbor,
        NodeType::Drone,
        ServerType::Chat,
        false,
    );
    let listed = c.topology.add_node(neighbor);
    crate::topology::lemma_operations_keep_wf(
        listed,
        neighbor,
        neighbor,
        NodeType::Drone,
        ServerType::Chat,
        false,
    );
    let typed = listed.set_node_type(neighbor, NodeType::Drone);
    crate::topology::lemma_operations_keep_wf(
        typed,
        c.id,
        neighbor,
        NodeType::Drone,
        ServerType::Chat,
        false,
    );
    crate::topology::lemma_operations_keep_wf(
        c.topology,
        c.id,
        neighbor,
        NodeType::Drone,
        ServerType::Chat,
        false,
    );
    lemma_without(c.neighbors, neighbor);
    if !c.neighbors.contains(neighbor) {
        assert(c.neighbors.push(neighbor).no_duplicates()) by {
            let all = c.neighbors.push(neighbor);
            assert forall|i: int, j: int|
                0 <= i < all.len() && 0 <= j < all.len() && i != j implies all[i] != all[j] by {
                if i < c.neighbors.len() {
                    assert(c.neighbors.contains(c.neighbors[i]));
                }
                if j < c.neighbors.len() {
                    assert(c.neighbors.contains(c.neighbors[j]));
                }
            }
        }
    }
    lemma_know_neighbors_wf(c, c.neighbors.len());
}

proof fn lemma_know_neighbors_wf(c: ClientView, n: nat)
    requires
        c.wf(),
        n <= c.neighbors.len(),
    ensures
        c.know_neighbors(n).wf(),
    decreases n,
{
    if n > 0 {
        lemma_know_neighbors_wf(c, (n - 1) as nat);
        let neighbor = c.neighbors[n - 1];
        let t = c.know_neighbors((n - 1) as nat);
        crate::topology::lemma_operations_keep_wf(
            t,
            neighbor,
            neighbor,
            NodeType::Drone,
            ServerType::Chat,
            false,
        );
        let listed = t.add_node(neighbor);
        crate::topology::lemma_operations_keep_wf(
            listed,
            neighbor,
            neighbor,
            NodeType::Drone,
            ServerType::Chat,
            false,
        );
        let typed = listed.set_node_type(neighbor, NodeType::Drone);
        crate::topology::lemma_operations_keep_wf(
            typed,
            c.id,
            neighbor,
            NodeType::Drone,
            ServerType::Chat,
            false,
        );
    }
}

/// After the packets for the destinations below `upto` were tried again,
/// none of these destinations is noted as waiting to go out again unless a
/// packet waits for it.
pub proof fn lemma_drain_settles(c: ClientView, upto: nat, now: u128, ids: Ids, d: NodeId)
    requires
        d < upto <= 256,
    ensures
        c.drain(upto, now, ids).resent.contains(d) ==> c.drain(upto, now, ids).pending.contains_key(
            d,
        ),
    decreases upto,
{
    if upto > d + 1 {
        lemma_drain_settles(c, (upto - 1) as nat, now, ids, d);
    }
}

/// Where no packet waits and none is noted, trying again changes nothing.
pub proof fn lemma_drain_nothing(c: ClientView, upto: nat, now: u128, ids: Ids)
    requires
        upto <= 256,
        forall|d: NodeId| !#[trigger] c.pending.contains_key(d),
        forall|d: NodeId| !#[trigger] c.resent.contains(d),
    ensures
        c.drain(upto, now, ids) == c,
    decreases upto,
{
    if upto > 0 {
        lemma_drain_nothing(c, (upto - 1) as nat, now, ids);
        assert(!c.pending.contains_key((upto - 1) as NodeId));
        assert(c.resent.remove((upto - 1) as NodeId) =~= c.resent);
    }
}

/// Taking in a trace leaves no node of the trace without a kind, and takes
/// the kind from no node.
pub proof fn lemma_ingest_gives_kinds(t: TopologyView, trace: Seq<(NodeId, NodeType)>)
    ensures
        forall|k: int|
            0 <= k < trace.len() ==> ingest_trace(t, trace).kinds.contains_key(#[trigger] trace[k].0),
        forall|n: NodeId| t.kinds.contains_key(n) ==> ingest_trace(t, trace).kinds.contains_key(n),
    decreases trace.len(),
{
    if trace.len() > 0 {
        let init = trace.drop_last();
        lemma_ingest_gives_kinds(t, init);
        assert forall|k: int| 0 <= k < trace.len() implies ingest_trace(t, trace).kinds.contains_key(
            #[trigger] trace[k].0,
        ) by {
            if k < init.len() {
                assert(init[k] == trace[k]);
            }
        }
    }
}

/// Where the topology knows a kind of every node of a trace, taking the
/// trace in asks no server anything: nothing changes but the topology.
pub proof fn lemma_absorb_known(
    c: ClientView,
    trace: Seq<(NodeId, NodeType)>,
    now: u128,
    ids: Ids,
    queries: Seq<Option<u64>>,
)
    requires
        forall|k: int| 0 <= k < trace.len() ==> c.topology.kinds.contains_key(#[trigger] trace[k].0),
    ensures
        c.absorb_trace(trace, now, ids, queries) == (ClientView {
            topology: ingest_trace(c.topology, trace),
            ..c
        }),
        forall|k: int| 0 <= k < trace.len() ==> !c.queried_at(trace, now, ids, queries, k),
    decreases trace.len(),
{
    if trace.len() > 0 {
        let init = trace.drop_last();
        assert forall|k: int| 0 <= k < init.len() implies c.topology.kinds.contains_key(
            #[trigger] init[k].0,
        ) by {
            assert(init[k] == trace[k]);
        }
        lemma_absorb_known(c, init, now, ids, queries);
        lemma_ingest_gives_kinds(c.topology, init);
        assert(c.topology.kinds.contains_key(trace[trace.len() - 1].0));
        assert forall|k: int| 0 <= k < trace.len() implies !c.queried_at(
            trace,
            now,
            ids,
            queries,
            k,
        ) by {
            let prefix = trace.subrange(0, k);
            assert forall|j: int| 0 <= j < prefix.len() implies c.topology.kinds.contains_key(
                #[trigger] prefix[j].0,
            ) by {
                assert(prefix[j] == trace[j]);
            }
            if k < trace.len() - 1 {
                assert(init.subrange(0, k) =~= prefix);
                assert(init[k] == trace[k]);
                assert(!c.queried_at(init, now, ids, queries, k));
            } else {
                assert(prefix =~= init);
            }
            lemma_ingest_gives_kinds(c.topology, prefix);
            assert(c.topology.kinds.contains_key(trace[k].0));
        }
    } else {
        assert(c.topology =~= ingest_trace(c.topology, trace));
    }
}

/// Handling a flood response with the same path trace a second time, when
/// no packet is left waiting, changes nothing but to tell the controller
/// again: the topology is as it was after the first time, with no node and
/// no edge twice and every kind as it was; no server is asked again; and
/// nothing goes out.
pub proof fn lemma_flood_response_again(
    c: ClientView,
    flood_id: u64,
    trace: Seq<(NodeId, NodeType)>,
    first: u128,
    second: u128,
    a: Ids,
    b: Ids,
    asked: Seq<Option<u64>>,
    again: Seq<Option<u64>>,
)
    requires
        c.wf(),
        forall|d: NodeId|
            !#[trigger] c.on_flood_response_received(
                flood_id,
                trace,
                first,
                a,
                asked,
            ).pending.contains_key(d),
    ensures
        ({
            let once = c.on_flood_response_received(flood_id, trace, first, a, asked);
            let twice = once.on_flood_response_received(flood_id, trace, second, b, again);
            &&& twice == (ClientView {
                events: once.events.push(ClientEvent::FloodResponse(flood_id)),
                ..once
            })
            &&& forall|k: int| 0 <= k < trace.len() ==> !once.queried_at(trace, second, b, again, k)
        }),
{
    let absorbed = c.absorb_trace(trace, first, a, asked);
    lemma_absorb_is_ingest(c, trace, first, a, asked);
    let told = ClientView {
        events: absorbed.events.push(ClientEvent::FloodResponse(flood_id)),
        ..absorbed
    };
    lemma_drain_keeps_graph(told, 256, first, a);
    let once = told.drain(256, first, a);
    assert(once == c.on_flood_response_received(flood_id, trace, first, a, asked));
    lemma_ingest_gives_kinds(c.topology, trace);
    lemma_absorb_known(once, trace, second, b, again);
    lemma_ingest_trace_same(c.topology, c.topology, trace);
    lemma_ingest_trace_same(once.topology, ingest_trace(c.topology, trace), trace);
    lemma_ingest_idempotent(c.topology, trace);
    lemma_ingest_parts(once.topology, trace);
    let again_topology = ingest_trace(once.topology, trace);
    assert(again_topology =~= once.topology);
    let absorbed2 = once.absorb_trace(trace, second, b, again);
    assert(absorbed2 == once);
    let told2 = ClientView {
        events: once.events.push(ClientEvent::FloodResponse(flood_id)),
        ..once
    };
    assert forall|d: NodeId| !#[trigger] told2.pending.contains_key(d) by {
        assert(!once.pending.contains_key(d));
    }
    assert forall|d: NodeId| !#[trigger] told2.resent.contains(d) by {
        lemma_drain_settles(told, 256, first, a, d);
        assert(!once.pending.contains_key(d));
    }
    lemma_drain_nothing(told2, 256, second, b);
}

/// The state before fragment `k` of a message is handed on gives a route to
/// the destination whose next hop is a neighbour.
pub open spec fn routed_at(
    c: ClientView,
    destination_id: NodeId,
    fragments: Seq<Fragment>,
    now: u128,
    ids: Ids,
    k: int,
) -> bool {
    let before = c.send_fragments(destination_id, fragments.subrange(0, k), now, ids);
    let route = spec_routing_header(before.topology, before.id, destination_id);
    route.hops.len() > 0 && route.next_hop().is_some() && before.neighbors.contains(
        route.next_hop().unwrap(),
    )
}

/// What goes out for fragment `k` of a message: the fragment in its packet,
/// on the route that the state before it gives, to the first hop of that
/// route.
pub open spec fn sent_at(
    c: ClientView,
    destination_id: NodeId,
    fragments: Seq<Fragment>,
    now: u128,
    ids: Ids,
    k: int,
) -> OutgoingView {
    let before = c.send_fragments(destination_id, fragments.subrange(0, k), now, ids);
    let packet = before.fragment_packet(fragments[k], destination_id, ids.session_id);
    OutgoingView { to: packet.routing_header.next_hop().unwrap(), packet }
}

/// Where every fragment finds a route whose next hop is a neighbour, the
/// fragments go out one for one and in order: the outbox gains exactly one
/// packet for each, packet `k` carrying fragment `k` under the session of
/// the message, and nothing is left waiting on their account.
pub proof fn lemma_fragments_go_out(
    c: ClientView,
    destination_id: NodeId,
    fragments: Seq<Fragment>,
    now: u128,
    ids: Ids,
)
    requires
        forall|k: int|
            0 <= k < fragments.len() ==> #[trigger] routed_at(c, destination_id, fragments, now, ids, k),
    ensures
        ({
            let after = c.send_fragments(destination_id, fragments, now, ids);
            &&& after.outbox.len() == c.outbox.len() + fragments.len()
            &&& after.pending == c.pending
            &&& forall|i: int| 0 <= i < c.outbox.len() ==> after.outbox[i] == c.outbox[i]
            &&& forall|k: int|
                0 <= k < fragments.len() ==> #[trigger] after.outbox[c.outbox.len() + k] == sent_at(
                    c,
                    destination_id,
                    fragments,
                    now,
                    ids,
                    k,
                )
        }),
    decreases fragments.len(),
{
    if fragments.len() > 0 {
        let init = fragments.drop_last();
        assert forall|k: int| 0 <= k < init.len() implies #[trigger] routed_at(
            c,
            destination_id,
            init,
            now,
            ids,
            k,
        ) by {
            assert(routed_at(c, destination_id, fragments, now, ids, k));
            assert(init.subrange(0, k) =~= fragments.subrange(0, k));
        }
        lemma_fragments_go_out(c, destination_id, init, now, ids);
        let last = fragments.len() - 1;
        assert(routed_at(c, destination_id, fragments, now, ids, last));
        assert(fragments.subrange(0, last) =~= init);
        let before = c.send_fragments(destination_id, init, now, ids);
        let after = c.send_fragments(destination_id, fragments, now, ids);
        assert forall|k: int| 0 <= k < fragments.len() implies #[trigger] after.outbox[c.outbox.len()
            + k] == sent_at(c, destination_id, fragments, now, ids, k) by {
            if k < last {
                assert(after.outbox[c.outbox.len() + k] == before.outbox[c.outbox.len() + k]);
                assert(init[k] == fragments[k]);
                assert(init.subrange(0, k) =~= fragments.subrange(0, k));
                assert(sent_at(c, destination_id, init, now, ids, k) == sent_at(
                    c,
                    destination_id,
                    fragments,
                    now,
                    ids,
                    k,
                ));
            }
        }
    }
}

/// A message of exactly `128 * n` bytes, `n` at least 1, for which every
/// fragment finds a route whose next hop is a neighbour, goes out as
/// exactly `n` packets in order: packet `k` carries fragment `k` of `n`, of
/// length 128, with the bytes of the message from `128 * k` on. No empty
/// fragment follows.
pub proof fn lemma_whole_blocks_go_out(
    c: ClientView,
    destination_id: NodeId,
    message: Seq<u8>,
    fragments: Seq<Fragment>,
    n: nat,
    now: u128,
    ids: Ids,
)
    requires
        message.len() == 128 * n,
        n >= 1,
        crate::disassembler::are_fragments_of(fragments, message),
        forall|k: int|
            0 <= k < n ==> #[trigger] routed_at(c, destination_id, fragments, now, ids, k),
    ensures
        ({
            let after = c.send_message(destination_id, message, now, ids);
            &&& after.outbox.len() == c.outbox.len() + n
            &&& forall|k: int|
                0 <= k < n ==> {
                    let out = #[trigger] after.outbox[c.outbox.len() + k];
                    &&& out == sent_at(c, destination_id, fragments, now, ids, k)
                    &&& out.packet.session_id == ids.session_id
                    &&& out.packet.pack_type == crate::packet::PacketTypeView::MsgFragment(
                        fragments[k],
                    )
                    &&& fragments[k].fragment_index == k
                    &&& fragments[k].total_n_fragments == n
                    &&& fragments[k].length == 128
                    &&& forall|j: int|
                        0 <= j < 128 ==> #[trigger] fragments[k].data@[j] == message[128 * k + j]
                }
        }),
{
    crate::model::lemma_fragments_of(fragments, message);
    crate::disassembler::lemma_whole_blocks(fragments, message, n);
    lemma_fragments_go_out(c, destination_id, fragments, now, ids);
    assert forall|k: int| 0 <= k < n implies {
        &&& fragments[k].fragment_index == k
        &&& fragments[k].total_n_fragments == n
        &&& forall|j: int| 0 <= j < 128 ==> #[trigger] fragments[k].data@[j] == message[128 * k + j]
    } by {
        assert(crate::disassembler::is_fragment_of(fragments[k], message, k as nat));
    }
}

} // verus!
