//! The client as a state machine over mathematical values: what each
//! operation of the transport does to the state, and what it hands out.

use crate::assembler::{assembler_after, payload_completed, AssemblerView};
use crate::disassembler::{are_fragments_of, is_fragment_of};
use crate::packet::{
    spec_flood_response, Ack, Fragment, Nack, NackType, NodeId, NodeType, PacketKind, PacketTypeView,
    PacketView, RouteView,
};
use crate::routing::spec_routing_header;
use crate::topology::TopologyView;
use vstd::prelude::*;

verus! {

broadcast use vstd::array::group_array_axioms;

/// Milliseconds that must pass between two floods the client starts itself.
pub const MIN_FLOOD_INTERVAL: u128 = 500;

/// Identifiers for an operation to use where it needs fresh ones: for the
/// session of a message it sends, for a flood it starts, and for the session
/// under which the flood's requests travel.
#[derive(Clone, Copy, Debug, PartialEq, Eq, Structural)]
pub struct Ids {
    pub session_id: u64,
    pub flood_id: u64,
    pub flood_session_id: u64,
}

/// What the transport tells the controller.
#[derive(Clone, Copy, Debug, PartialEq, Eq, Structural)]
pub enum ClientEvent {
    /// The client started a flood.
    FloodRequestSent,
    /// The response to the flood with this id came in.
    FloodResponse(u64),
    /// Every fragment of the message of this session was handed on.
    MessageSent { session_id: u64 },
    /// A packet of this session and kind went out to a neighbour on its
    /// route.
    PacketSent { session_id: u64, packet_type: PacketKind },
    /// A packet of this session came in.
    PacketReceived(u64),
    /// A packet of this session could not be handed on: its route names no
    /// next hop, or one that is no neighbour.
    SendFailed { session_id: u64 },
}

/// Why a packet that came in was ignored. The state is as it was before
/// the packet, but for the note that it came in.
#[derive(Clone, Copy, Debug, PartialEq, Eq, Structural)]
pub enum ProtocolError {
    /// An acknowledgment, positive or negative, for a session that is not
    /// pending.
    UnknownSession { session_id: u64 },
    /// An acknowledgment for a fragment beyond the bits of its session, or a
    /// negative one for a fragment beyond the log of its session.
    FragmentOutOfRange { session_id: u64, fragment_index: u64 },
    /// A fragment whose route names no sender.
    NoSender { session_id: u64 },
    /// A flood request whose path trace is empty.
    EmptyPathTrace { session_id: u64 },
}

/// A packet for a neighbour, as a mathematical value.
pub struct OutgoingView {
    pub to: NodeId,
    pub packet: PacketView,
}

/// What the client remembers of one session it sends in.
pub struct SessionView {
    /// Every packet handed on, in order.
    pub log: Seq<PacketView>,
    /// One bit per fragment, set once the fragment was acknowledged; empty
    /// until the first fragment is handed on.
    pub acked: Seq<bool>,
}

/// The fragments of a payload.
pub open spec fn fragments_of(payload: Seq<u8>) -> Seq<Fragment> {
    choose|fragments: Seq<Fragment>| are_fragments_of(fragments, payload)
}

/// A payload has one list of fragments only.
pub proof fn lemma_fragments_unique(a: Seq<Fragment>, b: Seq<Fragment>, payload: Seq<u8>)
    requires
        are_fragments_of(a, payload),
        are_fragments_of(b, payload),
    ensures
        a == b,
{
    assert forall|i: int| 0 <= i < a.len() implies a[i] == b[i] by {
        assert(is_fragment_of(a[i], payload, i as nat));
        assert(is_fragment_of(b[i], payload, i as nat));
        assert forall|j: int| 0 <= j < 128 implies a[i].data[j] == b[i].data[j] by {
            assert(a[i].data@[j] == b[i].data@[j]);
        }
        assert(a[i].data =~= b[i].data);
    }
    assert(a =~= b);
}

/// The fragments of a payload are what [`fragments_of`] names.
pub proof fn lemma_fragments_of(fragments: Seq<Fragment>, payload: Seq<u8>)
    requires
        are_fragments_of(fragments, payload),
    ensures
        fragments_of(payload) == fragments,
{
    lemma_fragments_unique(fragments, fragments_of(payload), payload);
}

/// Every bit of `bits` is set.
pub open spec fn all_set(bits: Seq<bool>) -> bool {
    forall|i: int| 0 <= i < bits.len() ==> bits[i]
}

/// A session can keep a bit for each of `total` fragments.
pub open spec fn fits_bitmap(total: u64) -> bool {
    total <= usize::MAX / 2
}

/// The request a flood sends to each neighbour.
pub open spec fn flood_probe(id: NodeId, ids: Ids) -> PacketView {
    PacketView {
        routing_header: RouteView { hop_index: 1, hops: Seq::empty() },
        session_id: ids.flood_session_id,
        pack_type: PacketTypeView::FloodRequest {
            flood_id: ids.flood_id,
            initiator_id: id,
            path_trace: seq![(id, NodeType::Client)],
        },
    }
}

/// `packet`, once for every node of `to`, in order.
pub open spec fn broadcast_to(to: Seq<NodeId>, packet: PacketView) -> Seq<OutgoingView> {
    Seq::new(to.len(), |i: int| OutgoingView { to: to[i], packet })
}

/// `nodes` without `skip`, in order.
pub open spec fn all_but(nodes: Seq<NodeId>, skip: NodeId) -> Seq<NodeId> {
    crate::topology::without(nodes, skip)
}

/// The session a packet is logged in, after the packet has been logged.
pub open spec fn session_after_send(sessions: Map<u64, SessionView>, packet: PacketView) -> SessionView {
    let session = if sessions.contains_key(packet.session_id) {
        sessions[packet.session_id]
    } else {
        SessionView { log: Seq::empty(), acked: Seq::empty() }
    };
    SessionView {
        log: session.log.push(packet),
        acked: match packet.pack_type {
            PacketTypeView::MsgFragment(f) => if session.acked.len() == 0 && fits_bitmap(
                f.total_n_fragments,
            ) {
                Seq::new(f.total_n_fragments as nat, |i: int| false)
            } else {
                session.acked
            },
            _ => session.acked,
        },
    }
}

/// The topology knows the node as a server.
pub open spec fn known_server(t: TopologyView, id: NodeId) -> bool {
    t.kinds.contains_key(id) && t.kinds[id] == NodeType::Server
}

/// What taking in one node of a path trace does to the topology: the node
/// is listed, takes the kind the trace gives it, and is joined to the node
/// before it in the trace. A node known as a server stays as it is known
/// when the trace calls it a server.
pub open spec fn ingest_node(t: TopologyView, prev: Option<NodeId>, node: (NodeId, NodeType)) -> TopologyView {
    let listed = t.add_node(node.0);
    let typed = if node.1 == NodeType::Server && known_server(t, node.0) {
        listed
    } else {
        listed.set_node_type(node.0, node.1)
    };
    match prev {
        Some(p) => typed.add_edge(p, node.0),
        None => typed,
    }
}

/// The trace calls the node a server, and the topology knew no kind of it:
/// the server is newly discovered, and the client asks it what it offers.
pub open spec fn needs_query(t: TopologyView, node: (NodeId, NodeType)) -> bool {
    node.1 == NodeType::Server && !t.kinds.contains_key(node.0)
}

/// The node before the last in a trace, if there is one.
pub open spec fn before_last(trace: Seq<(NodeId, NodeType)>) -> Option<NodeId> {
    if trace.len() >= 2 {
        Some(trace[trace.len() - 2].0)
    } else {
        None
    }
}

/// What taking in a whole path trace does to the topology.
pub open spec fn ingest_trace(t: TopologyView, trace: Seq<(NodeId, NodeType)>) -> TopologyView
    decreases trace.len(),
{
    if trace.len() == 0 {
        t
    } else {
        ingest_node(ingest_trace(t, trace.drop_last()), before_last(trace), trace.last())
    }
}

/// Mathematical value of a client's transport state.
#[verifier::ext_equal]
pub struct ClientView {
    pub id: NodeId,
    /// The neighbours, in the order in which they were added, each once.
    pub neighbors: Seq<NodeId>,
    pub topology: TopologyView,
    /// The sessions that are not fully acknowledged yet.
    pub sessions: Map<u64, SessionView>,
    /// The inbound sessions that are not complete yet.
    pub assembler: AssemblerView,
    /// For each destination without a route, the packet that waits for one.
    pub pending: Map<NodeId, PacketView>,
    /// The destinations whose waiting packet is in the log of its session
    /// already: it was handed on before and waits to go out again.
    pub resent: Set<NodeId>,
    /// The ids of the floods the client started itself.
    pub flood_ids: Seq<u64>,
    /// When the client last started a flood.
    pub last_flood: u128,
    pub running: bool,
    /// The payload of the query that asks a server what it offers.
    pub server_type_request: Seq<u8>,
    /// The packets handed out and not yet taken.
    pub outbox: Seq<OutgoingView>,
    /// The events raised and not yet taken.
    pub events: Seq<ClientEvent>,
}

impl ClientView {
    /// A client that knows nothing yet.
    pub open spec fn init(id: NodeId, neighbors: Seq<NodeId>, server_type_request: Seq<u8>) -> ClientView {
        ClientView {
            id,
            neighbors,
            topology: TopologyView::empty(),
            sessions: Map::empty(),
            assembler: AssemblerView::empty(),
            pending: Map::empty(),
            resent: Set::empty(),
            flood_ids: Seq::empty(),
            last_flood: 0,
            running: false,
            server_type_request,
            outbox: Seq::empty(),
            events: Seq::empty(),
        }
    }

    pub open spec fn wf(self) -> bool {
        &&& self.topology.wf()
        &&& self.neighbors.no_duplicates()
        &&& self.assembler.wf()
    }

    /// Enough time has passed since the last flood to start another.
    pub open spec fn flood_allowed(self, now: u128) -> bool {
        self.last_flood + MIN_FLOOD_INTERVAL <= now
    }

    /// Starts a flood, unless the last one is too recent: a request goes to
    /// every neighbour, and the flood's id is recorded.
    pub open spec fn send_flood_request(self, now: u128, ids: Ids) -> ClientView {
        if self.flood_allowed(now) {
            ClientView {
                last_flood: now,
                flood_ids: self.flood_ids.push(ids.flood_id),
                outbox: self.outbox + broadcast_to(self.neighbors, flood_probe(self.id, ids)),
                events: self.events.push(ClientEvent::FloodRequestSent),
                ..self
            }
        } else {
            self
        }
    }

    /// Hands a packet on, for the first time or `again`. Without a route the
    /// packet waits for one, in place of any packet that waited for the same
    /// destination, and a flood is started. With a route whose next hop is a
    /// neighbour the hops are counted, the packet goes out, and the
    /// controller is told; a packet that goes out for the first time is
    /// logged in its session, one that goes out again is in the log already.
    /// Otherwise the failure is reported.
    pub open spec fn hand_on(
        self,
        packet: PacketView,
        destination_id: NodeId,
        now: u128,
        ids: Ids,
        again: bool,
    ) -> ClientView {
        if packet.routing_header.hops.len() == 0 {
            ClientView {
                pending: self.pending.insert(destination_id, packet),
                resent: if again {
                    self.resent.insert(destination_id)
                } else {
                    self.resent.remove(destination_id)
                },
                ..self
            }.send_flood_request(now, ids)
        } else if packet.routing_header.next_hop().is_some() && self.neighbors.contains(
            packet.routing_header.next_hop().unwrap(),
        ) {
            ClientView {
                topology: self.topology.update_node_history(packet.routing_header.hops, false),
                sessions: if again {
                    self.sessions
                } else {
                    self.sessions.insert(packet.session_id, session_after_send(self.sessions, packet))
                },
                outbox: self.outbox.push(
                    OutgoingView { to: packet.routing_header.next_hop().unwrap(), packet },
                ),
                events: self.events.push(
                    ClientEvent::PacketSent {
                        session_id: packet.session_id,
                        packet_type: packet.pack_type.kind(),
                    },
                ),
                ..self
            }
        } else {
            ClientView {
                events: self.events.push(ClientEvent::SendFailed { session_id: packet.session_id }),
                ..self
            }
        }
    }

    /// Hands a packet on for the first time: see [`ClientView::hand_on`].
    pub open spec fn send_packet(self, packet: PacketView, destination_id: NodeId, now: u128, ids: Ids) -> ClientView {
        self.hand_on(packet, destination_id, now, ids, false)
    }

    /// Hands on again a packet that is in the log of its session: see
    /// [`ClientView::hand_on`]. The log stays as it is.
    pub open spec fn resend_packet(self, packet: PacketView, destination_id: NodeId, now: u128, ids: Ids) -> ClientView {
        self.hand_on(packet, destination_id, now, ids, true)
    }

    /// The packet that carries fragment `f` of session `session_id` to
    /// `destination_id`, on the route the topology gives now.
    pub open spec fn fragment_packet(self, f: Fragment, destination_id: NodeId, session_id: u64) -> PacketView {
        PacketView {
            routing_header: spec_routing_header(self.topology, self.id, destination_id),
            session_id,
            pack_type: PacketTypeView::MsgFragment(f),
        }
    }

    /// Hands on the given fragments, one after the other, each on the route
    /// the topology gives when its turn comes.
    pub open spec fn send_fragments(
        self,
        destination_id: NodeId,
        fragments: Seq<Fragment>,
        now: u128,
        ids: Ids,
    ) -> ClientView
        decreases fragments.len(),
    {
        if fragments.len() == 0 {
            self
        } else {
            let before = self.send_fragments(destination_id, fragments.drop_last(), now, ids);
            before.send_packet(
                before.fragment_packet(fragments.last(), destination_id, ids.session_id),
                destination_id,
                now,
                ids,
            )
        }
    }

    /// Sends a message: its fragments are handed on in order under the
    /// session `ids.session_id`, and the controller is told.
    pub open spec fn send_message(self, destination_id: NodeId, message: Seq<u8>, now: u128, ids: Ids) -> ClientView {
        let sent = self.send_fragments(destination_id, fragments_of(message), now, ids);
        ClientView {
            events: sent.events.push(ClientEvent::MessageSent { session_id: ids.session_id }),
            ..sent
        }
    }

    /// Asks a server what it offers.
    pub open spec fn send_server_type_request(self, server_id: NodeId, now: u128, ids: Ids) -> ClientView {
        self.send_message(server_id, self.server_type_request, now, ids)
    }

    /// The acknowledgment of fragment `fragment_index` of session
    /// `session_id`, on the route the topology gives now.
    pub open spec fn ack_packet(self, fragment_index: u64, destination_id: NodeId, session_id: u64) -> PacketView {
        PacketView {
            routing_header: spec_routing_header(self.topology, self.id, destination_id),
            session_id,
            pack_type: PacketTypeView::Ack(Ack { fragment_index }),
        }
    }

    pub open spec fn send_ack(
        self,
        fragment_index: u64,
        destination_id: NodeId,
        session_id: u64,
        now: u128,
        ids: Ids,
    ) -> ClientView {
        self.send_packet(
            self.ack_packet(fragment_index, destination_id, session_id),
            destination_id,
            now,
            ids,
        )
    }

    /// Takes in a fragment. A fragment whose route names no sender is
    /// ignored. Else the assembler takes it, or discards it if its session is
    /// complete, and exactly one acknowledgment is handed on to the sender.
    pub open spec fn on_fragment_received(self, packet: PacketView, fragment: Fragment, now: u128, ids: Ids) -> ClientView {
        match packet.routing_header.source() {
            Some(source) => ClientView {
                assembler: assembler_after(self.assembler, fragment, packet.session_id),
                ..self
            }.send_ack(fragment.fragment_index, source, packet.session_id, now, ids),
            None => self,
        }
    }

    /// The payload that a fragment completes, with its sender.
    pub open spec fn delivered_by(self, packet: PacketView, fragment: Fragment) -> Option<(NodeId, Seq<u8>)> {
        match packet.routing_header.source() {
            Some(source) => match payload_completed(self.assembler, fragment, packet.session_id) {
                Some(payload) => Some((source, payload)),
                None => None,
            },
            None => None,
        }
    }

    /// Why an acknowledgment is ignored, if it is: its session is not
    /// pending, or the session has no bit for its fragment.
    pub open spec fn ack_error(self, session_id: u64, fragment_index: u64) -> Option<ProtocolError> {
        if !self.sessions.contains_key(session_id) {
            Some(ProtocolError::UnknownSession { session_id })
        } else if fragment_index >= self.sessions[session_id].acked.len() {
            Some(ProtocolError::FragmentOutOfRange { session_id, fragment_index })
        } else {
            None
        }
    }

    /// Takes in an acknowledgment. One that is ignored changes nothing: see
    /// [`ClientView::ack_error`]. Else the bit of the fragment is set, and
    /// the session is retired once every bit is set.
    pub open spec fn on_ack_received(self, session_id: u64, fragment_index: u64) -> ClientView {
        if self.ack_error(session_id, fragment_index).is_some() {
            self
        } else {
            let session = self.sessions[session_id];
            let acked = session.acked.update(fragment_index as int, true);
            if all_set(acked) {
                ClientView { sessions: self.sessions.remove(session_id), ..self }
            } else {
                ClientView {
                    sessions: self.sessions.insert(
                        session_id,
                        SessionView { log: session.log, acked },
                    ),
                    ..self
                }
            }
        }
    }

    /// The negative acknowledgment names a fragment the client has logged.
    pub open spec fn nack_applies(self, session_id: u64, nack: Nack) -> bool {
        self.sessions.contains_key(session_id) && nack.fragment_index
            < self.sessions[session_id].log.len()
    }

    /// Why a negative acknowledgment is ignored, if it is: its session is
    /// not pending, or the log of the session has no such fragment.
    pub open spec fn nack_error(self, session_id: u64, nack: Nack) -> Option<ProtocolError> {
        if !self.sessions.contains_key(session_id) {
            Some(ProtocolError::UnknownSession { session_id })
        } else if !self.nack_applies(session_id, nack) {
            Some(
                ProtocolError::FragmentOutOfRange {
                    session_id,
                    fragment_index: nack.fragment_index,
                },
            )
        } else {
            None
        }
    }

    /// Takes in a negative acknowledgment. One that names no logged
    /// fragment changes nothing. Else: a drop is counted against the drone
    /// that reported it; any other kind starts a flood; a routing error
    /// removes the node it names; and the fragment is handed on again, on
    /// the route the topology gives then. The log of the session stays as it
    /// is: the fragment is in it already.
    pub open spec fn on_nack_received(self, header: RouteView, session_id: u64, nack: Nack, now: u128, ids: Ids) -> ClientView {
        if !self.nack_applies(session_id, nack) {
            self
        } else {
            let lost = self.sessions[session_id].log[nack.fragment_index as int];
            let noted = if nack.nack_type == NackType::Dropped {
                match header.source() {
                    Some(reporter) => ClientView {
                        topology: self.topology.update_node_history(seq![reporter], true),
                        ..self
                    },
                    None => self,
                }
            } else {
                self.send_flood_request(now, ids)
            };
            let pruned = match nack.nack_type {
                NackType::ErrorInRouting(node) => ClientView {
                    topology: noted.topology.remove_node(node),
                    ..noted
                },
                _ => noted,
            };
            match lost.routing_header.destination() {
                Some(destination_id) => pruned.resend_packet(
                    PacketView {
                        routing_header: spec_routing_header(pruned.topology, self.id, destination_id),
                        ..lost
                    },
                    destination_id,
                    now,
                    ids,
                ),
                None => pruned,
            }
        }
    }

    /// Why a flood request is ignored, if it is: its path trace is empty, so
    /// that nothing says where it came from.
    pub open spec fn flood_request_error(session_id: u64, path_trace: Seq<(NodeId, NodeType)>) -> Option<
        ProtocolError,
    > {
        if path_trace.len() == 0 {
            Some(ProtocolError::EmptyPathTrace { session_id })
        } else {
            None
        }
    }

    /// Takes in a flood request. The client adds itself to the path trace.
    /// With exactly one neighbour it answers, back to the node the request
    /// came from; else it passes the request on to every other neighbour.
    /// A request with an empty path trace is ignored.
    pub open spec fn on_flood_request_received(
        self,
        session_id: u64,
        flood_id: u64,
        initiator_id: NodeId,
        path_trace: Seq<(NodeId, NodeType)>,
    ) -> ClientView {
        if path_trace.len() == 0 {
            self
        } else {
            let sender = path_trace.last().0;
            let trace = path_trace.push((self.id, NodeType::Client));
            if self.neighbors.len() == 1 {
                if self.neighbors.contains(sender) {
                    ClientView {
                        outbox: self.outbox.push(
                            OutgoingView {
                                to: sender,
                                packet: spec_flood_response(flood_id, trace, session_id),
                            },
                        ),
                        ..self
                    }
                } else {
                    ClientView {
                        events: self.events.push(ClientEvent::SendFailed { session_id }),
                        ..self
                    }
                }
            } else {
                ClientView {
                    outbox: self.outbox + broadcast_to(
                        all_but(self.neighbors, sender),
                        PacketView {
                            routing_header: RouteView { hop_index: 0, hops: Seq::empty() },
                            session_id,
                            pack_type: PacketTypeView::FloodRequest {
                                flood_id,
                                initiator_id,
                                path_trace: trace,
                            },
                        },
                    ),
                    ..self
                }
            }
        }
    }

    /// Takes in the nodes of a path trace, one after the other. A node that
    /// turns out to be a server is asked what it offers, under the session
    /// that `queries` gives for its place in the trace.
    pub open spec fn absorb_trace(
        self,
        trace: Seq<(NodeId, NodeType)>,
        now: u128,
        ids: Ids,
        queries: Seq<Option<u64>>,
    ) -> ClientView
        decreases trace.len(),
    {
        if trace.len() == 0 {
            self
        } else {
            let before = self.absorb_trace(trace.drop_last(), now, ids, queries);
            let known = ClientView {
                topology: ingest_node(before.topology, before_last(trace), trace.last()),
                ..before
            };
            if needs_query(before.topology, trace.last()) {
                known.send_server_type_request(
                    trace.last().0,
                    now,
                    Ids { session_id: queries[trace.len() - 1].unwrap(), ..ids },
                )
            } else {
                known
            }
        }
    }

    /// Whether the node at place `k` of the trace is asked what it offers.
    pub open spec fn queried_at(
        self,
        trace: Seq<(NodeId, NodeType)>,
        now: u128,
        ids: Ids,
        queries: Seq<Option<u64>>,
        k: int,
    ) -> bool {
        needs_query(self.absorb_trace(trace.subrange(0, k), now, ids, queries).topology, trace[k])
    }

    /// Tries again to hand on the packets that wait for a route, for the
    /// destinations below `upto` in ascending order: each on the route the
    /// topology gives when its turn comes. A packet that is in the log of
    /// its session already is not logged again.
    pub open spec fn drain(self, upto: nat, now: u128, ids: Ids) -> ClientView
        decreases upto,
    {
        if upto == 0 {
            self
        } else {
            let before = self.drain((upto - 1) as nat, now, ids);
            let destination_id = (upto - 1) as NodeId;
            if before.pending.contains_key(destination_id) {
                ClientView {
                    pending: before.pending.remove(destination_id),
                    resent: before.resent.remove(destination_id),
                    ..before
                }.hand_on(
                    PacketView {
                        routing_header: spec_routing_header(
                            before.topology,
                            before.id,
                            destination_id,
                        ),
                        ..before.pending[destination_id]
                    },
                    destination_id,
                    now,
                    ids,
                    before.resent.contains(destination_id),
                )
            } else {
                ClientView { resent: before.resent.remove(destination_id), ..before }
            }
        }
    }

    /// Takes in a flood response: the path trace goes into the topology, the
    /// controller is told, and the packets that wait for a route are tried
    /// again.
    pub open spec fn on_flood_response_received(
        self,
        flood_id: u64,
        path_trace: Seq<(NodeId, NodeType)>,
        now: u128,
        ids: Ids,
        queries: Seq<Option<u64>>,
    ) -> ClientView {
        let absorbed = self.absorb_trace(path_trace, now, ids, queries);
        ClientView {
            events: absorbed.events.push(ClientEvent::FloodResponse(flood_id)),
            ..absorbed
        }.drain(256, now, ids)
    }

    /// Passes a flood response on along its route, unless the client started
    /// the flood itself or the route has no hop.
    pub open spec fn forward_flood_response(self, packet: PacketView, flood_id: u64, now: u128, ids: Ids) -> ClientView {
        if self.flood_ids.contains(flood_id) {
            self
        } else {
            match packet.routing_header.destination() {
                Some(destination_id) => self.send_packet(
                    PacketView { routing_header: packet.routing_header.advanced(), ..packet },
                    destination_id,
                    now,
                    ids,
                ),
                None => self,
            }
        }
    }

    /// Why a packet that comes in is ignored, if it is.
    pub open spec fn protocol_error(self, packet: PacketView) -> Option<ProtocolError> {
        match packet.pack_type {
            PacketTypeView::MsgFragment(_) => if packet.routing_header.source().is_none() {
                Some(ProtocolError::NoSender { session_id: packet.session_id })
            } else {
                None
            },
            PacketTypeView::Ack(ack) => self.ack_error(packet.session_id, ack.fragment_index),
            PacketTypeView::Nack(nack) => self.nack_error(packet.session_id, nack),
            PacketTypeView::FloodRequest { flood_id, initiator_id, path_trace } => Self::flood_request_error(
            packet.session_id, path_trace),
            PacketTypeView::FloodResponse { .. } => None,
        }
    }

    /// The state once the controller is told that a packet came in.
    pub open spec fn noticed(self, session_id: u64) -> ClientView {
        ClientView { events: self.events.push(ClientEvent::PacketReceived(session_id)), ..self }
    }

    /// Takes in a packet from a drone, whatever its kind: the controller is
    /// told, and the packet is handled as its kind asks.
    pub open spec fn on_drone_packet_received(
        self,
        packet: PacketView,
        now: u128,
        ids: Ids,
        queries: Seq<Option<u64>>,
    ) -> ClientView {
        let noticed = self.noticed(packet.session_id);
        match packet.pack_type {
            PacketTypeView::MsgFragment(fragment) => noticed.on_fragment_received(
                packet,
                fragment,
                now,
                ids,
            ),
            PacketTypeView::Ack(ack) => noticed.on_ack_received(
                packet.session_id,
                ack.fragment_index,
            ),
            PacketTypeView::Nack(nack) => noticed.on_nack_received(
                packet.routing_header,
                packet.session_id,
                nack,
                now,
                ids,
            ),
            PacketTypeView::FloodRequest { flood_id, initiator_id, path_trace } => noticed.on_flood_request_received(
            packet.session_id, flood_id, initiator_id, path_trace),
            PacketTypeView::FloodResponse { flood_id, path_trace } => noticed.on_flood_response_received(
            flood_id, path_trace, now, ids, queries).forward_flood_response(packet, flood_id, now, ids),
        }
    }

    /// Asks each of `servers`, in order, what it offers: the server at place
    /// `k` under the session `sessions[k]`.
    pub open spec fn query_servers(self, servers: Seq<NodeId>, now: u128, ids: Ids, sessions: Seq<u64>) -> ClientView
        decreases servers.len(),
    {
        if servers.len() == 0 {
            self
        } else {
            self.query_servers(servers.drop_last(), now, ids, sessions).send_server_type_request(
                servers.last(),
                now,
                Ids { session_id: sessions[servers.len() - 1], ..ids },
            )
        }
    }

    /// Asks every server whose type is not known yet what it offers, in
    /// ascending order of their ids.
    pub open spec fn request_server_types(self, now: u128, ids: Ids, sessions: Seq<u64>) -> ClientView {
        self.query_servers(self.topology.untyped_servers(), now, ids, sessions)
    }

    /// Makes a drone a neighbour: it is listed as one, known to the topology
    /// as a drone next to the client, and a flood is started.
    pub open spec fn add_sender(self, neighbor: NodeId, now: u128, ids: Ids) -> ClientView {
        ClientView {
            neighbors: if self.neighbors.contains(neighbor) {
                self.neighbors
            } else {
                self.neighbors.push(neighbor)
            },
            topology: self.topology.add_node(neighbor).set_node_type(
                neighbor,
                NodeType::Drone,
            ).add_edge(self.id, neighbor),
            ..self
        }.send_flood_request(now, ids)
    }

    /// Drops a neighbour, and the edge to it.
    pub open spec fn remove_sender(self, neighbor: NodeId) -> ClientView {
        ClientView {
            neighbors: all_but(self.neighbors, neighbor),
            topology: self.topology.remove_edges(self.id, neighbor),
            ..self
        }
    }

    /// Takes the first `n` neighbours into the topology, as drones next to
    /// the client.
    pub open spec fn know_neighbors(self, n: nat) -> TopologyView
        decreases n,
    {
        if n == 0 {
            self.topology
        } else {
            self.know_neighbors((n - 1) as nat).add_node(self.neighbors[n - 1]).set_node_type(
                self.neighbors[n - 1],
                NodeType::Drone,
            ).add_edge(self.id, self.neighbors[n - 1])
        }
    }

    /// Starts the client: a topology that holds nothing yet takes in the
    /// neighbours, and with at least one neighbour a flood is started.
    pub open spec fn start(self, now: u128, ids: Ids) -> ClientView {
        let known = ClientView {
            topology: if self.topology.nodes.len() == 0 && self.topology.edges
                == Set::<(NodeId, NodeId)>::empty() {
                self.know_neighbors(self.neighbors.len())
            } else {
                self.topology
            },
            running: true,
            ..self
        };
        if self.neighbors.len() > 0 {
            known.send_flood_request(now, ids)
        } else {
            known
        }
    }
}

} // verus!
