//! The transport of a client: it owns the topology, the sessions that wait
//! for acknowledgments, the buffers of inbound sessions and the packets that
//! wait for a route, and hands out packets and events through an outbox.

use crate::assembler::Assembler;
use crate::disassembler::Disassembler;
use crate::model::{
    all_set, broadcast_to, flood_probe, session_after_send, ClientEvent, ClientView, Ids,
    OutgoingView, ProtocolError, SessionView, MIN_FLOOD_INTERVAL,
};
use crate::packet::{
    packet_views, Ack, FloodRequest, Fragment, Nack, NackType, NodeId, NodeType, Packet, PacketType,
    PacketTypeView, PacketView, SourceRoutingHeader,
};
use crate::topology::Topology;
use std::collections::HashMap;
use vstd::prelude::*;

verus! {

broadcast use vstd::std_specs::hash::group_hash_axioms;

/// A packet for a neighbour.
#[derive(Debug, PartialEq, Eq)]
pub struct Outgoing {
    pub to: NodeId,
    pub packet: Packet,
}

impl View for Outgoing {
    type V = OutgoingView;

    open spec fn view(&self) -> OutgoingView {
        OutgoingView { to: self.to, packet: self.packet@ }
    }
}

impl Clone for Outgoing {
    fn clone(&self) -> (copy: Self)
        ensures
            copy@ == self@,
    {
        Outgoing { to: self.to, packet: self.packet.clone() }
    }
}

/// What the client remembers of one session it sends in.
pub struct PendingSession {
    fragments: Vec<Packet>,
    acked: Vec<bool>,
}

impl View for PendingSession {
    type V = SessionView;

    closed spec fn view(&self) -> SessionView {
        SessionView { log: packet_views(self.fragments@), acked: self.acked@ }
    }
}

/// A random 64-bit number from the thread's generator, by `rand::random`.
/// Nothing is known of the number.
#[verifier::external_body]
fn random_u64() -> (n: u64) {
    rand::random::<u64>()
}

impl Ids {
    /// Three identifiers chosen at random.
    pub fn random() -> (ids: Ids) {
        Ids { session_id: random_u64(), flood_id: random_u64(), flood_session_id: random_u64() }
    }
}

/// `ids` without repetitions: each id where it first occurs.
pub open spec fn distinct(ids: Seq<NodeId>) -> Seq<NodeId>
    decreases ids.len(),
{
    if ids.len() == 0 {
        ids
    } else if distinct(ids.drop_last()).contains(ids.last()) {
        distinct(ids.drop_last())
    } else {
        distinct(ids.drop_last()).push(ids.last())
    }
}

/// Whether `ids` holds `id`.
fn holds(ids: &Vec<NodeId>, id: NodeId) -> (found: bool)
    ensures
        found == ids@.contains(id),
{
    let mut i: usize = 0;
    while i < ids.len()
        invariant
            i <= ids.len(),
            forall|k: int| 0 <= k < i ==> ids@[k] != id,
        decreases ids.len() - i,
    {
        if ids[i] == id {
            return true;
        }
        i += 1;
    }
    false
}

/// Whether `ids` holds `id`.
fn holds_flood(ids: &Vec<u64>, id: u64) -> (found: bool)
    ensures
        found == ids@.contains(id),
{
    let mut i: usize = 0;
    while i < ids.len()
        invariant
            i <= ids.len(),
            forall|k: int| 0 <= k < i ==> ids@[k] != id,
        decreases ids.len() - i,
    {
        if ids[i] == id {
            return true;
        }
        i += 1;
    }
    false
}

proof fn lemma_push_keeps_distinct(ids: Seq<NodeId>, id: NodeId)
    requires
        ids.no_duplicates(),
        !ids.contains(id),
    ensures
        ids.push(id).no_duplicates(),
{
    let all = ids.push(id);
    assert forall|i: int, j: int| 0 <= i < all.len() && 0 <= j < all.len() && i != j implies all[i]
        != all[j] by {
        if i < ids.len() {
            assert(all[i] == ids[i]);
            assert(ids.contains(ids[i]));
        }
        if j < ids.len() {
            assert(all[j] == ids[j]);
            assert(ids.contains(ids[j]));
        }
    }
}

/// The transport state of a client.
pub struct Client {
    client_id: NodeId,
    neighbors: Vec<NodeId>,
    topology: Topology,
    sessions: HashMap<u64, PendingSession>,
    assembler: Assembler,
    disassembler: Disassembler,
    packets_to_send: Vec<Option<Packet>>,
    resent: Vec<bool>,
    sent_flood_ids: Vec<u64>,
    last_flood_timestamp: u128,
    running: bool,
    server_type_request: Vec<u8>,
    outbox: Vec<Outgoing>,
    events: Vec<ClientEvent>,
}

impl View for Client {
    type V = ClientView;

    closed spec fn view(&self) -> ClientView {
        ClientView {
            id: self.client_id,
            neighbors: self.neighbors@,
            topology: self.topology@,
            sessions: self.sessions@.map_values(|s: PendingSession| s@),
            assembler: self.assembler@,
            pending: Map::new(
                |d: NodeId| self.packets_to_send@[d as int].is_some(),
                |d: NodeId| self.packets_to_send@[d as int].unwrap()@,
            ),
            resent: Set::new(|d: NodeId| self.resent@[d as int]),
            flood_ids: self.sent_flood_ids@,
            last_flood: self.last_flood_timestamp,
            running: self.running,
            server_type_request: self.server_type_request@,
            outbox: self.outbox@.map_values(|o: Outgoing| o@),
            events: self.events@,
        }
    }
}

impl Client {
    /// The parts of the state are in order.
    pub closed spec fn sized(self) -> bool {
        &&& self.packets_to_send@.len() == 256
        &&& self.resent@.len() == 256
        &&& self.topology.wf()
        &&& self.assembler.wf()
    }

    pub open spec fn wf(self) -> bool {
        self.sized() && self@.wf()
    }

    /// A client that knows nothing yet but its neighbours and how to ask a
    /// server what it offers.
    pub fn new(client_id: NodeId, neighbors: Vec<NodeId>, server_type_request: Vec<u8>) -> (client:
        Client)
        ensures
            client.wf(),
            client@ == ClientView::init(client_id, distinct(neighbors@), server_type_request@),
    {
        let mut known: Vec<NodeId> = Vec::new();
        let mut i: usize = 0;
        while i < neighbors.len()
            invariant
                i <= neighbors.len(),
                known@ == distinct(neighbors@.subrange(0, i as int)),
                known@.no_duplicates(),
            decreases neighbors.len() - i,
        {
            proof {
                let prefix = neighbors@.subrange(0, i + 1);
                assert(prefix.drop_last() =~= neighbors@.subrange(0, i as int));
                assert(prefix.last() == neighbors@[i as int]);
            }
            if !holds(&known, neighbors[i]) {
                proof {
                    lemma_push_keeps_distinct(known@, neighbors@[i as int]);
                }
                known.push(neighbors[i]);
            }
            i += 1;
        }
        assert(neighbors@.subrange(0, neighbors.len() as int) =~= neighbors@);
        let mut packets_to_send: Vec<Option<Packet>> = Vec::new();
        let mut j: usize = 0;
        while j < 256
            invariant
                j <= 256,
                packets_to_send@.len() == j,
                forall|k: int| 0 <= k < j ==> packets_to_send@[k].is_none(),
            decreases 256 - j,
        {
            packets_to_send.push(None);
            j += 1;
        }
        let client = Client {
            client_id,
            neighbors: known,
            topology: Topology::new(),
            sessions: HashMap::new(),
            assembler: Assembler::new(),
            disassembler: Disassembler::new(),
            packets_to_send,
            resent: vec![false; 256],
            sent_flood_ids: Vec::new(),
            last_flood_timestamp: 0,
            running: false,
            server_type_request,
            outbox: Vec::new(),
            events: Vec::new(),
        };
        proof {
            let expected = ClientView::init(client_id, distinct(neighbors@), server_type_request@);
            assert(client@.sessions =~= expected.sessions);
            assert(client@.pending =~= expected.pending);
            assert(client@.resent =~= expected.resent);
            assert(client@.outbox =~= expected.outbox);
            assert(client@.assembler =~= expected.assembler);
        }
        client
    }

    pub fn client_id(&self) -> (id: NodeId)
        ensures
            id == self@.id,
    {
        self.client_id
    }

    /// The neighbours, in the order in which they were added.
    pub fn neighbors(&self) -> (neighbors: &Vec<NodeId>)
        ensures
            neighbors@ == self@.neighbors,
    {
        &self.neighbors
    }

    pub fn topology(&self) -> (topology: &Topology)
        ensures
            topology@ == self@.topology,
            self.wf() ==> topology.wf(),
    {
        &self.topology
    }

    pub fn is_running(&self) -> (running: bool)
        ensures
            running == self@.running,
    {
        self.running
    }

    /// The ids of the floods the client started itself.
    pub fn sent_flood_ids(&self) -> (ids: &Vec<u64>)
        ensures
            ids@ == self@.flood_ids,
    {
        &self.sent_flood_ids
    }

    pub fn last_flood_timestamp(&self) -> (at: u128)
        ensures
            at == self@.last_flood,
    {
        self.last_flood_timestamp
    }

    /// Whether session `session_id` still waits for acknowledgments.
    pub fn is_pending(&self, session_id: u64) -> (pending: bool)
        ensures
            pending == self@.sessions.contains_key(session_id),
    {
        self.sessions.contains_key(&session_id)
    }

    /// The packets handed on in session `session_id`, if it is pending.
    pub fn sent_packets(&self, session_id: u64) -> (log: Option<Vec<Packet>>)
        ensures
            log.is_some() == self@.sessions.contains_key(session_id),
            log.is_some() ==> packet_views(log.unwrap()@) == self@.sessions[session_id].log,
    {
        match self.sessions.get(&session_id) {
            Some(session) => {
                let mut log: Vec<Packet> = Vec::new();
                let mut i: usize = 0;
                while i < session.fragments.len()
                    invariant
                        i <= session.fragments.len(),
                        log@.len() == i,
                        forall|k: int| 0 <= k < i ==> log@[k]@ == session.fragments@[k]@,
                    decreases session.fragments.len() - i,
                {
                    log.push(session.fragments[i].clone());
                    i += 1;
                }
                assert(packet_views(log@) =~= packet_views(session.fragments@));
                Some(log)
            },
            None => None,
        }
    }

    /// The acknowledgment bits of session `session_id`, if it is pending.
    pub fn acked_packets(&self, session_id: u64) -> (bits: Option<Vec<bool>>)
        ensures
            bits.is_some() == self@.sessions.contains_key(session_id),
            bits.is_some() ==> bits.unwrap()@ == self@.sessions[session_id].acked,
    {
        match self.sessions.get(&session_id) {
            Some(session) => {
                let bits = session.acked.clone();
                assert(bits@ =~= session.acked@);
                Some(bits)
            },
            None => None,
        }
    }

    /// The packet that waits for a route to `destination_id`, if one does.
    pub fn packet_to_send(&self, destination_id: NodeId) -> (packet: Option<Packet>)
        requires
            self.wf(),
        ensures
            packet.is_some() == self@.pending.contains_key(destination_id),
            packet.is_some() ==> packet.unwrap()@ == self@.pending[destination_id],
    {
        match &self.packets_to_send[destination_id as usize] {
            Some(p) => Some(p.clone()),
            None => None,
        }
    }

    /// Takes what is in the outbox, oldest first.
    pub fn take_outbox(&mut self) -> (out: Vec<Outgoing>)
        ensures
            out@.map_values(|o: Outgoing| o@) == old(self)@.outbox,
            final(self)@ == (ClientView { outbox: Seq::empty(), ..old(self)@ }),
            old(self).wf() ==> final(self).wf(),
    {
        let mut out: Vec<Outgoing> = Vec::new();
        std::mem::swap(&mut out, &mut self.outbox);
        proof {
            assert(self@.outbox =~= Seq::<OutgoingView>::empty());
        }
        out
    }

    /// Takes the events raised so far, oldest first.
    pub fn take_events(&mut self) -> (events: Vec<ClientEvent>)
        ensures
            events@ == old(self)@.events,
            final(self)@ == (ClientView { events: Seq::empty(), ..old(self)@ }),
            old(self).wf() ==> final(self).wf(),
    {
        let mut events: Vec<ClientEvent> = Vec::new();
        std::mem::swap(&mut events, &mut self.events);
        events
    }

    fn emit(&mut self, to: NodeId, packet: Packet)
        ensures
            final(self)@ == (ClientView {
                outbox: old(self)@.outbox.push(OutgoingView { to, packet: packet@ }),
                ..old(self)@
            }),
            old(self).wf() ==> final(self).wf(),
    {
        self.outbox.push(Outgoing { to, packet });
        proof {
            assert(self@.outbox =~= old(self)@.outbox.push(OutgoingView { to, packet: packet@ }));
        }
    }

    /// Starts a flood, unless the last one is less than
    /// [`MIN_FLOOD_INTERVAL`] before `now`.
    pub fn send_flood_request(&mut self, now: u128, ids: Ids)
        requires
            old(self).wf(),
        ensures
            final(self).wf(),
            final(self)@ == old(self)@.send_flood_request(now, ids),
    {
        if now < self.last_flood_timestamp || now - self.last_flood_timestamp < MIN_FLOOD_INTERVAL {
            return ;
        }
        self.last_flood_timestamp = now;
        self.sent_flood_ids.push(ids.flood_id);
        let n: usize = self.neighbors.len();
        let mut i: usize = 0;
        let ghost probe = flood_probe(self.client_id, ids);
        while i < n
            invariant
                i <= n,
                n == self.neighbors@.len(),
                probe == flood_probe(self.client_id, ids),
                old(self).wf(),
                self.wf(),
                self@ == (ClientView {
                    last_flood: now,
                    flood_ids: old(self)@.flood_ids.push(ids.flood_id),
                    outbox: old(self)@.outbox + broadcast_to(
                        old(self)@.neighbors.subrange(0, i as int),
                        probe,
                    ),
                    ..old(self)@
                }),
            decreases n - i,
        {
            let mut path_trace: Vec<(NodeId, NodeType)> = Vec::new();
            path_trace.push((self.client_id, NodeType::Client));
            let packet = Packet {
                routing_header: SourceRoutingHeader { hop_index: 1, hops: Vec::new() },
                session_id: ids.flood_session_id,
                pack_type: PacketType::FloodRequest(
                    FloodRequest {
                        flood_id: ids.flood_id,
                        initiator_id: self.client_id,
                        path_trace,
                    },
                ),
            };
            assert(packet@.pack_type =~= probe.pack_type);
            assert(packet@.routing_header =~= probe.routing_header);
            let to = self.neighbors[i];
            let ghost before = self@;
            self.emit(to, packet);
            proof {
                assert(self@.outbox =~= old(self)@.outbox + broadcast_to(
                    old(self)@.neighbors.subrange(0, i + 1),
                    probe,
                ));
            }
            i += 1;
        }
        assert(old(self)@.neighbors.subrange(0, n as int) =~= old(self)@.neighbors);
        self.events.push(ClientEvent::FloodRequestSent);
    }

    fn raise(&mut self, event: ClientEvent)
        ensures
            final(self)@ == (ClientView { events: old(self)@.events.push(event), ..old(self)@ }),
            old(self).wf() ==> final(self).wf(),
    {
        self.events.push(event);
    }

    /// Puts a packet that was not handed on yet where it waits for a route
    /// to `destination_id`, in place of any packet that waited there.
    pub fn enqueue(&mut self, destination_id: NodeId, packet: Packet)
        requires
            old(self).wf(),
        ensures
            final(self).wf(),
            final(self)@ == (ClientView {
                pending: old(self)@.pending.insert(destination_id, packet@),
                resent: old(self)@.resent.remove(destination_id),
                ..old(self)@
            }),
    {
        self.park(destination_id, packet, false);
    }

    /// Puts a packet where it waits for a route, and notes whether it is in
    /// the log of its session already.
    fn park(&mut self, destination_id: NodeId, packet: Packet, again: bool)
        requires
            old(self).wf(),
        ensures
            final(self).wf(),
            final(self)@ == (ClientView {
                pending: old(self)@.pending.insert(destination_id, packet@),
                resent: if again {
                    old(self)@.resent.insert(destination_id)
                } else {
                    old(self)@.resent.remove(destination_id)
                },
                ..old(self)@
            }),
    {
        let ghost view = packet@;
        self.packets_to_send[destination_id as usize] = Some(packet);
        self.resent[destination_id as usize] = again;
        proof {
            assert(self@.pending =~= old(self)@.pending.insert(destination_id, view));
            if again {
                assert(self@.resent =~= old(self)@.resent.insert(destination_id));
            } else {
                assert(self@.resent =~= old(self)@.resent.remove(destination_id));
            }
        }
    }

    /// Takes the packet that waits for a route to `destination_id`, with
    /// the note whether it is in the log of its session already.
    fn dequeue(&mut self, destination_id: NodeId) -> (waiting: (Option<Packet>, bool))
        requires
            old(self).wf(),
        ensures
            final(self).wf(),
            waiting.0.is_some() == old(self)@.pending.contains_key(destination_id),
            waiting.0.is_some() ==> waiting.0.unwrap()@ == old(self)@.pending[destination_id],
            waiting.1 == old(self)@.resent.contains(destination_id),
            final(self)@ == (ClientView {
                pending: old(self)@.pending.remove(destination_id),
                resent: old(self)@.resent.remove(destination_id),
                ..old(self)@
            }),
    {
        let mut packet: Option<Packet> = None;
        std::mem::swap(&mut packet, &mut self.packets_to_send[destination_id as usize]);
        let again = self.resent[destination_id as usize];
        self.resent[destination_id as usize] = false;
        proof {
            assert(self@.pending =~= old(self)@.pending.remove(destination_id));
            assert(self@.resent =~= old(self)@.resent.remove(destination_id));
        }
        (packet, again)
    }

    fn log(&mut self, packet: Packet)
        requires
            old(self).wf(),
        ensures
            final(self).wf(),
            final(self)@ == (ClientView {
                sessions: old(self)@.sessions.insert(
                    packet.session_id,
                    session_after_send(old(self)@.sessions, packet@),
                ),
                ..old(self)@
            }),
    {
        let session_id = packet.session_id;
        let mut session = match self.sessions.remove(&session_id) {
            Some(session) => session,
            None => PendingSession { fragments: Vec::new(), acked: Vec::new() },
        };
        let ghost before = session@;
        assert(before == if old(self)@.sessions.contains_key(session_id) {
            old(self)@.sessions[session_id]
        } else {
            SessionView { log: Seq::empty(), acked: Seq::empty() }
        }) by {
            if !old(self)@.sessions.contains_key(session_id) {
                assert(session@.log =~= Seq::<PacketView>::empty());
            }
        }
        match &packet.pack_type {
            PacketType::MsgFragment(fragment) => {
                if session.acked.len() == 0 && fragment.total_n_fragments <= (usize::MAX
                    / 2) as u64 {
                    session.acked = vec![false; fragment.total_n_fragments as usize];
                    assert(session.acked@ =~= Seq::new(
                        fragment.total_n_fragments as nat,
                        |i: int| false,
                    ));
                }
            },
            _ => {},
        }
        let ghost view = packet@;
        session.fragments.push(packet);
        proof {
            assert(packet_views(session.fragments@) =~= before.log.push(view));
            assert(session@ == session_after_send(old(self)@.sessions, view));
        }
        let ghost after = session@;
        self.sessions.insert(session_id, session);
        proof {
            assert(self@.sessions =~= old(self)@.sessions.insert(session_id, after));
        }
    }

    /// Hands a packet on towards `destination_id`, for the first time or
    /// again: see [`ClientView::hand_on`].
    fn hand_on(&mut self, message: Packet, destination_id: NodeId, now: u128, ids: Ids, again: bool)
        requires
            old(self).wf(),
        ensures
            final(self).wf(),
            final(self)@ == old(self)@.hand_on(message@, destination_id, now, ids, again),
    {
        if message.routing_header.hops.len() == 0 {
            self.park(destination_id, message, again);
            self.send_flood_request(now, ids);
            return ;
        }
        let next = message.routing_header.next_hop();
        let hop: NodeId = match next {
            Some(hop) => hop,
            None => {
                self.raise(ClientEvent::SendFailed { session_id: message.session_id });
                return ;
            },
        };
        if !holds(&self.neighbors, hop) {
            self.raise(ClientEvent::SendFailed { session_id: message.session_id });
            return ;
        }
        proof {
            crate::topology::lemma_update_history_keeps_wf(
                self@.topology,
                message@.routing_header.hops,
                false,
            );
        }
        self.topology.update_node_history(&message.routing_header.hops, false);
        if !again {
            self.log(message.clone());
        }
        let event = ClientEvent::PacketSent {
            session_id: message.session_id,
            packet_type: message.pack_type.kind(),
        };
        self.emit(hop, message);
        self.raise(event);
    }

    /// Hands a packet on towards `destination_id` for the first time: see
    /// [`ClientView::send_packet`].
    pub fn send_packet(&mut self, message: Packet, destination_id: NodeId, now: u128, ids: Ids)
        requires
            old(self).wf(),
        ensures
            final(self).wf(),
            final(self)@ == old(self)@.send_packet(message@, destination_id, now, ids),
    {
        self.hand_on(message, destination_id, now, ids, false);
    }

    /// Hands on again a packet that is in the log of its session: see
    /// [`ClientView::resend_packet`]. The log stays as it is.
    pub fn resend_packet(&mut self, message: Packet, destination_id: NodeId, now: u128, ids: Ids)
        requires
            old(self).wf(),
        ensures
            final(self).wf(),
            final(self)@ == old(self)@.resend_packet(message@, destination_id, now, ids),
            final(self)@.sessions == old(self)@.sessions,
    {
        self.hand_on(message, destination_id, now, ids, true);
    }

    /// Hands on the acknowledgment of a fragment.
    pub fn send_ack(
        &mut self,
        fragment_index: u64,
        destination_id: NodeId,
        session_id: u64,
        now: u128,
        ids: Ids,
    )
        requires
            old(self).wf(),
        ensures
            final(self).wf(),
            final(self)@ == old(self)@.send_ack(fragment_index, destination_id, session_id, now, ids),
    {
        let packet = Packet {
            routing_header: self.topology.get_routing_header(self.client_id, destination_id),
            session_id,
            pack_type: PacketType::Ack(Ack { fragment_index }),
        };
        self.send_packet(packet, destination_id, now, ids);
    }

    /// Sends a message to `destination_id` under the session
    /// `ids.session_id`: see [`ClientView::send_message`].
    pub fn send_message(&mut self, destination_id: NodeId, message: Vec<u8>, now: u128, ids: Ids)
        requires
            old(self).wf(),
        ensures
            final(self).wf(),
            final(self)@ == old(self)@.send_message(destination_id, message@, now, ids),
    {
        let ghost payload = message@;
        let fragments = self.disassembler.disassemble_message(message, ids.session_id);
        proof {
            crate::model::lemma_fragments_of(fragments@, payload);
        }
        let n: usize = fragments.len();
        let mut i: usize = 0;
        while i < n
            invariant
                i <= n,
                n == fragments@.len(),
                self.wf(),
                self@ == old(self)@.send_fragments(
                    destination_id,
                    fragments@.subrange(0, i as int),
                    now,
                    ids,
                ),
            decreases n - i,
        {
            proof {
                let prefix = fragments@.subrange(0, i + 1);
                assert(prefix.drop_last() =~= fragments@.subrange(0, i as int));
                assert(prefix.last() == fragments@[i as int]);
            }
            let packet = Packet {
                routing_header: self.topology.get_routing_header(self.client_id, destination_id),
                session_id: ids.session_id,
                pack_type: PacketType::MsgFragment(fragments[i]),
            };
            self.send_packet(packet, destination_id, now, ids);
            i += 1;
        }
        assert(fragments@.subrange(0, n as int) =~= fragments@);
        self.raise(ClientEvent::MessageSent { session_id: ids.session_id });
    }

    /// Asks the server `server_id` what it offers.
    pub fn send_server_type_request(&mut self, server_id: NodeId, now: u128, ids: Ids)
        requires
            old(self).wf(),
        ensures
            final(self).wf(),
            final(self)@ == old(self)@.send_server_type_request(server_id, now, ids),
    {
        let request = self.server_type_request.clone();
        assert(request@ =~= self.server_type_request@);
        self.send_message(server_id, request, now, ids);
    }

    /// Takes in a fragment: see [`ClientView::on_fragment_received`]. Hands
    /// back the payload, with its sender, if the fragment completes one.
    pub fn on_fragment_received(&mut self, packet: &Packet, fragment: Fragment, now: u128, ids: Ids) -> (delivered: Option<(NodeId, Vec<u8>)>)
        requires
            old(self).wf(),
        ensures
            final(self).wf(),
            final(self)@ == old(self)@.on_fragment_received(packet@, fragment, now, ids),
            match delivered {
                Some((source, payload)) => old(self)@.delivered_by(packet@, fragment) == Some(
                    (source, payload@),
                ),
                None => old(self)@.delivered_by(packet@, fragment).is_none(),
            },
    {
        let source: NodeId = match packet.routing_header.source() {
            Some(source) => source,
            None => {
                return None;
            },
        };
        let payload = self.assembler.add_fragment(fragment, packet.session_id);
        self.send_ack(fragment.fragment_index, source, packet.session_id, now, ids);
        match payload {
            Some(bytes) => Some((source, bytes)),
            None => None,
        }
    }

    /// Takes in an acknowledgment: see [`ClientView::on_ack_received`].
    /// Hands back why it was ignored, if it was.
    pub fn on_ack_received(&mut self, session_id: u64, fragment_index: u64) -> (ignored: Option<
        ProtocolError,
    >)
        requires
            old(self).wf(),
        ensures
            final(self).wf(),
            final(self)@ == old(self)@.on_ack_received(session_id, fragment_index),
            ignored == old(self)@.ack_error(session_id, fragment_index),
    {
        let mut session = match self.sessions.remove(&session_id) {
            Some(session) => session,
            None => {
                assert(self@.sessions =~= old(self)@.sessions);
                return Some(ProtocolError::UnknownSession { session_id });
            },
        };
        let ghost before = session@;
        assert(before == old(self)@.sessions[session_id]);
        let len: usize = session.acked.len();
        if fragment_index >= len as u64 {
            self.sessions.insert(session_id, session);
            proof {
                assert(self@.sessions =~= old(self)@.sessions);
            }
            return Some(ProtocolError::FragmentOutOfRange { session_id, fragment_index });
        }
        session.acked[fragment_index as usize] = true;
        let mut complete = true;
        let mut i: usize = 0;
        while i < session.acked.len()
            invariant
                i <= session.acked@.len(),
                complete == all_set(session.acked@.subrange(0, i as int)),
            decreases session.acked.len() - i,
        {
            proof {
                let shorter = session.acked@.subrange(0, i as int);
                let longer = session.acked@.subrange(0, i + 1);
                if !session.acked@[i as int] {
                    assert(!longer[i as int]);
                } else if complete {
                    assert forall|k: int| 0 <= k < i + 1 implies longer[k] by {
                        if k < i {
                            assert(shorter[k]);
                        }
                    }
                } else {
                    let k = choose|k: int| 0 <= k < i && !shorter[k];
                    assert(!longer[k]);
                }
            }
            if !session.acked[i] {
                complete = false;
            }
            i += 1;
        }
        assert(session.acked@.subrange(0, session.acked@.len() as int) =~= session.acked@);
        if complete {
            proof {
                assert(self@.sessions =~= old(self)@.sessions.remove(session_id));
            }
        } else {
            let ghost after = session@;
            assert(after.log == before.log);
            self.sessions.insert(session_id, session);
            proof {
                assert(self@.sessions =~= old(self)@.sessions.insert(session_id, after));
            }
        }
        None
    }

    /// Takes in a negative acknowledgment: see
    /// [`ClientView::on_nack_received`]. Hands back why it was ignored, if
    /// it was.
    pub fn on_nack_received(&mut self, packet: &Packet, nack: Nack, now: u128, ids: Ids) -> (ignored: Option<
        ProtocolError,
    >)
        requires
            old(self).wf(),
        ensures
            final(self).wf(),
            final(self)@ == old(self)@.on_nack_received(
                packet@.routing_header,
                packet.session_id,
                nack,
                now,
                ids,
            ),
            ignored == old(self)@.nack_error(packet.session_id, nack),
            final(self)@.sessions == old(self)@.sessions,
    {
        let lost: Packet = match self.sessions.get(&packet.session_id) {
            Some(session) => {
                if nack.fragment_index >= session.fragments.len() as u64 {
                    return Some(
                        ProtocolError::FragmentOutOfRange {
                            session_id: packet.session_id,
                            fragment_index: nack.fragment_index,
                        },
                    );
                }
                session.fragments[nack.fragment_index as usize].clone()
            },
            None => {
                return Some(ProtocolError::UnknownSession { session_id: packet.session_id });
            },
        };
        assert(lost@ == old(self)@.sessions[packet.session_id].log[nack.fragment_index as int]);
        match nack.nack_type {
            NackType::Dropped => {
                match packet.routing_header.source() {
                    Some(reporter) => {
                        let mut route: Vec<NodeId> = Vec::new();
                        route.push(reporter);
                        assert(route@ =~= seq![reporter]);
                        self.topology.update_node_history(&route, true);
                    },
                    None => {},
                }
            },
            _ => {
                self.send_flood_request(now, ids);
            },
        }
        match nack.nack_type {
            NackType::ErrorInRouting(node) => {
                self.topology.remove_node(node);
            },
            _ => {},
        }
        match lost.routing_header.destination() {
            Some(destination_id) => {
                let again = Packet {
                    routing_header: self.topology.get_routing_header(self.client_id, destination_id),
                    session_id: lost.session_id,
                    pack_type: lost.pack_type,
                };
                self.resend_packet(again, destination_id, now, ids);
            },
            None => {},
        }
        None
    }

    /// Takes in a flood request: see
    /// [`ClientView::on_flood_request_received`]. Hands back why it was
    /// ignored, if it was.
    pub fn on_flood_request_received(&mut self, packet: &Packet, request: &FloodRequest) -> (ignored: Option<
        ProtocolError,
    >)
        requires
            old(self).wf(),
        ensures
            final(self).wf(),
            final(self)@ == old(self)@.on_flood_request_received(
                packet.session_id,
                request.flood_id,
                request.initiator_id,
                request.path_trace@,
            ),
            ignored == ClientView::flood_request_error(packet.session_id, request.path_trace@),
    {
        let len: usize = request.path_trace.len();
        if len == 0 {
            return Some(ProtocolError::EmptyPathTrace { session_id: packet.session_id });
        }
        let sender: NodeId = request.path_trace[len - 1].0;
        let mut request = request.clone();
        request.increment(self.client_id, NodeType::Client);
        if self.neighbors.len() == 1 {
            if holds(&self.neighbors, sender) {
                let response = request.generate_response(packet.session_id);
                self.emit(sender, response);
            } else {
                self.raise(ClientEvent::SendFailed { session_id: packet.session_id });
            }
            return None;
        }
        let ghost forward = PacketView {
            routing_header: crate::packet::RouteView { hop_index: 0, hops: Seq::empty() },
            session_id: packet.session_id,
            pack_type: request@,
        };
        let n: usize = self.neighbors.len();
        let mut i: usize = 0;
        while i < n
            invariant
                i <= n,
                n == self.neighbors@.len(),
                self.wf(),
                forward == (PacketView {
                    routing_header: crate::packet::RouteView { hop_index: 0, hops: Seq::empty() },
                    session_id: packet.session_id,
                    pack_type: request@,
                }),
                self@ == (ClientView {
                    outbox: old(self)@.outbox + broadcast_to(
                        crate::topology::without(old(self)@.neighbors.subrange(0, i as int), sender),
                        forward,
                    ),
                    ..old(self)@
                }),
            decreases n - i,
        {
            let to = self.neighbors[i];
            proof {
                let prefix = old(self)@.neighbors.subrange(0, i + 1);
                assert(prefix.drop_last() =~= old(self)@.neighbors.subrange(0, i as int));
                assert(prefix.last() == to);
            }
            if to != sender {
                let copy = Packet {
                    routing_header: SourceRoutingHeader::empty_route(),
                    session_id: packet.session_id,
                    pack_type: PacketType::FloodRequest(request.clone()),
                };
                self.emit(to, copy);
                proof {
                    assert(self@.outbox =~= old(self)@.outbox + broadcast_to(
                        crate::topology::without(old(self)@.neighbors.subrange(0, i + 1), sender),
                        forward,
                    ));
                }
            }
            i += 1;
        }
        assert(old(self)@.neighbors.subrange(0, n as int) =~= old(self)@.neighbors);
        None
    }

    /// Tries again to hand on every packet that waits for a route: see
    /// [`ClientView::drain`].
    pub fn send_waiting_packets(&mut self, now: u128, ids: Ids)
        requires
            old(self).wf(),
        ensures
            final(self).wf(),
            final(self)@ == old(self)@.drain(256, now, ids),
    {
        let mut d: usize = 0;
        while d < 256
            invariant
                d <= 256,
                self.wf(),
                self@ == old(self)@.drain(d as nat, now, ids),
            decreases 256 - d,
        {
            let destination_id: NodeId = d as u8;
            let ghost before = self@;
            let (taken, again) = self.dequeue(destination_id);
            match taken {
                Some(waiting) => {
                    let packet = Packet {
                        routing_header: self.topology.get_routing_header(
                            self.client_id,
                            destination_id,
                        ),
                        session_id: waiting.session_id,
                        pack_type: waiting.pack_type,
                    };
                    self.hand_on(packet, destination_id, now, ids, again);
                },
                None => {
                    assert(before.pending.remove(destination_id) =~= before.pending);
                    assert(self@.pending =~= before.pending);

                },
            }
            d += 1;
        }
    }

    /// Takes in a flood response: see
    /// [`ClientView::on_flood_response_received`]. Hands back, for each
    /// node of the path trace, the session under which the node was asked
    /// what it offers, or `None` where it was not asked.
    pub fn on_flood_response_received(
        &mut self,
        flood_id: u64,
        path_trace: &Vec<(NodeId, NodeType)>,
        now: u128,
        ids: Ids,
    ) -> (queries: Vec<Option<u64>>)
        requires
            old(self).wf(),
        ensures
            final(self).wf(),
            queries@.len() == path_trace@.len(),
            forall|k: int|
                0 <= k < queries@.len() ==> (#[trigger] queries@[k]).is_some() == old(
                    self,
                )@.queried_at(path_trace@, now, ids, queries@, k),
            final(self)@ == old(self)@.on_flood_response_received(
                flood_id,
                path_trace@,
                now,
                ids,
                queries@,
            ),
    {
        let mut queries: Vec<Option<u64>> = Vec::new();
        let n: usize = path_trace.len();
        let mut i: usize = 0;
        while i < n
            invariant
                i <= n,
                n == path_trace@.len(),
                self.wf(),
                queries@.len() == i,
                self@ == old(self)@.absorb_trace(path_trace@.subrange(0, i as int), now, ids, queries@),
                forall|k: int|
                    0 <= k < i ==> (#[trigger] queries@[k]).is_some() == old(self)@.queried_at(
                        path_trace@,
                        now,
                        ids,
                        queries@,
                        k,
                    ),
            decreases n - i,
        {
            let node = path_trace[i];
            let ghost prefix = path_trace@.subrange(0, i as int);
            let ghost longer = path_trace@.subrange(0, i + 1);
            let ghost asked = queries@;
            proof {
                assert(longer.drop_last() =~= prefix);
                assert(longer.last() == node);
                assert(crate::model::before_last(longer) == if i > 0 {
                    Some(path_trace@[i - 1].0)
                } else {
                    None
                });
            }
            let kind = self.topology.get_node_type(node.0);
            let known_server = match kind {
                Some(NodeType::Server) => true,
                _ => false,
            };
            let is_server = match node.1 {
                NodeType::Server => true,
                _ => false,
            };
            let query = is_server && kind.is_none();
            assert(query == crate::model::needs_query(self@.topology, node));
            assert(known_server == crate::model::known_server(self@.topology, node.0));
            self.topology.add_node(node.0);
            if !(is_server && known_server) {
                self.topology.set_node_type(node.0, node.1);
            }
            if i > 0 {
                self.topology.add_edge(path_trace[i - 1].0, node.0);
            }
            if query {
                let session_id = random_u64();
                queries.push(Some(session_id));
                self.send_server_type_request(
                    node.0,
                    now,
                    Ids { session_id, flood_id: ids.flood_id, flood_session_id: ids.flood_session_id },
                );
            } else {
                queries.push(None);
            }
            proof {
                lemma_absorb_ignores_later(old(self)@, prefix, now, ids, asked, queries@);
                assert forall|k: int| 0 <= k < i + 1 implies (#[trigger] queries@[k]).is_some() == old(
                    self,
                )@.queried_at(path_trace@, now, ids, queries@, k) by {
                    lemma_absorb_ignores_later(
                        old(self)@,
                        path_trace@.subrange(0, k),
                        now,
                        ids,
                        asked,
                        queries@,
                    );
                    if k < i {
                        assert(asked[k] == queries@[k]);
                    } else {
                        assert(path_trace@.subrange(0, k) =~= prefix);
                    }
                }
            }
            i += 1;
        }
        assert(path_trace@.subrange(0, n as int) =~= path_trace@);
        self.raise(ClientEvent::FloodResponse(flood_id));
        self.send_waiting_packets(now, ids);
        queries
    }

    /// Passes a flood response on: see
    /// [`ClientView::forward_flood_response`].
    pub fn forward_flood_response(&mut self, packet: &Packet, flood_id: u64, now: u128, ids: Ids)
        requires
            old(self).wf(),
        ensures
            final(self).wf(),
            final(self)@ == old(self)@.forward_flood_response(packet@, flood_id, now, ids),
    {
        if holds_flood(&self.sent_flood_ids, flood_id) {
            return ;
        }
        match packet.routing_header.destination() {
            Some(destination_id) => {
                let mut onward = packet.clone();
                onward.routing_header.increase_hop_index();
                self.send_packet(onward, destination_id, now, ids);
            },
            None => {},
        }
    }

    /// Takes in a packet from a drone, whatever its kind: see
    /// [`ClientView::on_drone_packet_received`].
    pub fn on_drone_packet_received(&mut self, packet: Packet, now: u128, ids: Ids) -> (received:
        Received)
        requires
            old(self).wf(),
        ensures
            final(self).wf(),
            final(self)@ == old(self)@.on_drone_packet_received(packet@, now, ids, received.queries@),
            match packet@.pack_type {
                PacketTypeView::MsgFragment(fragment) => match received.delivered {
                    Some((source, payload)) => old(self)@.delivered_by(packet@, fragment) == Some(
                        (source, payload@),
                    ),
                    None => old(self)@.delivered_by(packet@, fragment).is_none(),
                },
                _ => received.delivered.is_none(),
            },
            match packet@.pack_type {
                PacketTypeView::FloodResponse { flood_id, path_trace } => {
                    &&& received.queries@.len() == path_trace.len()
                    &&& forall|k: int|
                        0 <= k < path_trace.len() ==> (#[trigger] received.queries@[k]).is_some()
                            == old(self)@.noticed(packet.session_id).queried_at(
                            path_trace,
                            now,
                            ids,
                            received.queries@,
                            k,
                        )
                },
                _ => received.queries@.len() == 0,
            },
            received.error == old(self)@.protocol_error(packet@),
    {
        self.raise(ClientEvent::PacketReceived(packet.session_id));
        match &packet.pack_type {
            PacketType::MsgFragment(fragment) => {
                let error = match packet.routing_header.source() {
                    Some(_) => None,
                    None => Some(ProtocolError::NoSender { session_id: packet.session_id }),
                };
                let delivered = self.on_fragment_received(&packet, *fragment, now, ids);
                Received { delivered, queries: Vec::new(), error }
            },
            PacketType::Ack(ack) => {
                let error = self.on_ack_received(packet.session_id, ack.fragment_index);
                Received { delivered: None, queries: Vec::new(), error }
            },
            PacketType::Nack(nack) => {
                let error = self.on_nack_received(&packet, *nack, now, ids);
                Received { delivered: None, queries: Vec::new(), error }
            },
            PacketType::FloodRequest(request) => {
                let error = self.on_flood_request_received(&packet, request);
                Received { delivered: None, queries: Vec::new(), error }
            },
            PacketType::FloodResponse(response) => {
                let queries = self.on_flood_response_received(
                    response.flood_id,
                    &response.path_trace,
                    now,
                    ids,
                );
                self.forward_flood_response(&packet, response.flood_id, now, ids);
                Received { delivered: None, queries, error: None }
            },
        }
    }

    /// Asks every server whose type is not known yet what it offers: see
    /// [`ClientView::request_server_types`]. Hands back the sessions of the
    /// queries, one per server asked, in ascending order of the servers' ids.
    pub fn request_server_types(&mut self, now: u128, ids: Ids) -> (sessions: Vec<u64>)
        requires
            old(self).wf(),
        ensures
            final(self).wf(),
            sessions@.len() == old(self)@.topology.untyped_servers().len(),
            final(self)@ == old(self)@.request_server_types(now, ids, sessions@),
    {
        let servers = self.topology.untyped_servers();
        let mut sessions: Vec<u64> = Vec::new();
        let n: usize = servers.len();
        let mut i: usize = 0;
        while i < n
            invariant
                i <= n,
                n == servers@.len(),
                self.wf(),
                sessions@.len() == i,
                self@ == old(self)@.query_servers(servers@.subrange(0, i as int), now, ids, sessions@),
            decreases n - i,
        {
            let ghost asked = sessions@;
            let ghost prefix = servers@.subrange(0, i as int);
            proof {
                let longer = servers@.subrange(0, i + 1);
                assert(longer.drop_last() =~= prefix);
                assert(longer.last() == servers@[i as int]);
            }
            let session_id = random_u64();
            sessions.push(session_id);
            proof {
                lemma_query_ignores_later(old(self)@, prefix, now, ids, asked, sessions@);
            }
            self.send_server_type_request(
                servers[i],
                now,
                Ids { session_id, flood_id: ids.flood_id, flood_session_id: ids.flood_session_id },
            );
            i += 1;
        }
        assert(servers@.subrange(0, n as int) =~= servers@);
        sessions
    }

    /// Makes a drone a neighbour: see [`ClientView::add_sender`].
    pub fn add_sender(&mut self, neighbor: NodeId, now: u128, ids: Ids)
        requires
            old(self).wf(),
        ensures
            final(self).wf(),
            final(self)@ == old(self)@.add_sender(neighbor, now, ids),
    {
        if !holds(&self.neighbors, neighbor) {
            proof {
                lemma_push_keeps_distinct(self.neighbors@, neighbor);
            }
            self.neighbors.push(neighbor);
        }
        self.topology.add_node(neighbor);
        self.topology.set_node_type(neighbor, NodeType::Drone);
        self.topology.add_edge(self.client_id, neighbor);
        self.send_flood_request(now, ids);
    }

    /// Drops a neighbour: see [`ClientView::remove_sender`].
    pub fn remove_sender(&mut self, neighbor: NodeId)
        requires
            old(self).wf(),
        ensures
            final(self).wf(),
            final(self)@ == old(self)@.remove_sender(neighbor),
    {
        let mut kept: Vec<NodeId> = Vec::new();
        let n: usize = self.neighbors.len();
        let mut i: usize = 0;
        while i < n
            invariant
                i <= n,
                n == self.neighbors@.len(),
                self.neighbors == old(self).neighbors,
                kept@ == crate::topology::without(self.neighbors@.subrange(0, i as int), neighbor),
            decreases n - i,
        {
            proof {
                let prefix = self.neighbors@.subrange(0, i + 1);
                assert(prefix.drop_last() =~= self.neighbors@.subrange(0, i as int));
                assert(prefix.last() == self.neighbors@[i as int]);
            }
            if self.neighbors[i] != neighbor {
                kept.push(self.neighbors[i]);
            }
            i += 1;
        }
        proof {
            assert(self.neighbors@.subrange(0, n as int) =~= self.neighbors@);
            crate::topology::lemma_without(self.neighbors@, neighbor);
        }
        self.neighbors = kept;
        self.topology.remove_edges(self.client_id, neighbor);
    }

    /// Starts the client: see [`ClientView::start`].
    pub fn start(&mut self, now: u128, ids: Ids)
        requires
            old(self).wf(),
        ensures
            final(self).wf(),
            final(self)@ == old(self)@.start(now, ids),
    {
        if self.topology.is_blank() {
            let n: usize = self.neighbors.len();
            let mut i: usize = 0;
            while i < n
                invariant
                    i <= n,
                    n == self.neighbors@.len(),
                    self.wf(),
                    self@ == (ClientView {
                        topology: old(self)@.know_neighbors(i as nat),
                        ..old(self)@
                    }),
                decreases n - i,
            {
                let neighbor = self.neighbors[i];
                self.topology.add_node(neighbor);
                self.topology.set_node_type(neighbor, NodeType::Drone);
                self.topology.add_edge(self.client_id, neighbor);
                i += 1;
            }
        }
        self.running = true;
        if self.neighbors.len() > 0 {
            self.send_flood_request(now, ids);
        }
    }

    /// Stops the client. Its state stays as it is.
    pub fn stop(&mut self)
        ensures
            final(self)@ == (ClientView { running: false, ..old(self)@ }),
            old(self).wf() ==> final(self).wf(),
    {
        self.running = false;
    }

    /// The topology, to change it. The client is in order again once the
    /// topology is.
    pub fn topology_mut(&mut self) -> (topology: &mut Topology)
        ensures
            topology@ == old(self)@.topology,
            old(self).wf() ==> topology.wf(),
            final(self)@ == (ClientView { topology: final(topology)@, ..old(self)@ }),
            old(self).wf() && final(topology).wf() ==> final(self).wf(),
    {
        &mut self.topology
    }
}

/// What taking in a packet handed back.
pub struct Received {
    /// The payload that the packet completed, with its sender.
    pub delivered: Option<(NodeId, Vec<u8>)>,
    /// For a flood response: for each node of its path trace, the session
    /// under which the node was asked what it offers.
    pub queries: Vec<Option<u64>>,
    /// Why the packet was ignored, if it was.
    pub error: Option<ProtocolError>,
}

/// Asking servers looks at the sessions for those servers only.
pub proof fn lemma_query_ignores_later(
    c: ClientView,
    servers: Seq<NodeId>,
    now: u128,
    ids: Ids,
    s1: Seq<u64>,
    s2: Seq<u64>,
)
    requires
        s1.len() >= servers.len(),
        s2.len() >= servers.len(),
        forall|k: int| 0 <= k < servers.len() ==> s1[k] == s2[k],
    ensures
        c.query_servers(servers, now, ids, s1) == c.query_servers(servers, now, ids, s2),
    decreases servers.len(),
{
    if servers.len() > 0 {
        lemma_query_ignores_later(c, servers.drop_last(), now, ids, s1, s2);
    }
}

/// Taking in a trace looks at the sessions of the queries for its own nodes
/// only.
pub proof fn lemma_absorb_ignores_later(
    c: ClientView,
    trace: Seq<(NodeId, NodeType)>,
    now: u128,
    ids: Ids,
    q1: Seq<Option<u64>>,
    q2: Seq<Option<u64>>,
)
    requires
        q1.len() >= trace.len(),
        q2.len() >= trace.len(),
        forall|k: int| 0 <= k < trace.len() ==> q1[k] == q2[k],
    ensures
        c.absorb_trace(trace, now, ids, q1) == c.absorb_trace(trace, now, ids, q2),
    decreases trace.len(),
{
    if trace.len() > 0 {
        lemma_absorb_ignores_later(c, trace.drop_last(), now, ids, q1, q2);
    }
}

} // verus!
