//! Packets as they travel between nodes, and their mathematical views.

use vstd::prelude::*;

verus! {

/// Identifier of a node, unique within the network.
pub type NodeId = u8;

/// Number of payload bytes a fragment carries.
pub const FRAGMENT_DSIZE: usize = 128;

/// The kind of a node as a path trace tags it.
#[derive(Clone, Copy, Debug, PartialEq, Eq, Structural)]
pub enum NodeType {
    Client,
    Drone,
    Server,
}

/// Why a fragment was not delivered.
#[derive(Clone, Copy, Debug, PartialEq, Eq, Structural)]
pub enum NackType {
    ErrorInRouting(NodeId),
    DestinationIsDrone,
    Dropped,
    UnexpectedRecipient,
}

/// One chunk of a session's payload. Only the first `length` bytes of `data`
/// belong to the payload.
#[derive(Clone, Copy, Debug, PartialEq, Eq)]
pub struct Fragment {
    pub fragment_index: u64,
    pub total_n_fragments: u64,
    pub length: u8,
    pub data: [u8; 128],
}

#[derive(Clone, Copy, Debug, PartialEq, Eq, Structural)]
pub struct Ack {
    pub fragment_index: u64,
}

#[derive(Clone, Copy, Debug, PartialEq, Eq, Structural)]
pub struct Nack {
    pub fragment_index: u64,
    pub nack_type: NackType,
}

#[derive(Debug, PartialEq, Eq)]
pub struct FloodRequest {
    pub flood_id: u64,
    pub initiator_id: NodeId,
    pub path_trace: Vec<(NodeId, NodeType)>,
}

#[derive(Debug, PartialEq, Eq)]
pub struct FloodResponse {
    pub flood_id: u64,
    pub path_trace: Vec<(NodeId, NodeType)>,
}

#[derive(Debug, PartialEq, Eq)]
pub enum PacketType {
    MsgFragment(Fragment),
    Ack(Ack),
    Nack(Nack),
    FloodRequest(FloodRequest),
    FloodResponse(FloodResponse),
}

/// The kind of a packet, without what the packet carries.
#[derive(Clone, Copy, Debug, PartialEq, Eq, Structural)]
pub enum PacketKind {
    MsgFragment,
    Ack,
    Nack,
    FloodRequest,
    FloodResponse,
}

/// A source route: the nodes to traverse, and the position in `hops` of the
/// node that receives the packet next.
#[derive(Debug, PartialEq, Eq)]
pub struct SourceRoutingHeader {
    pub hop_index: u8,
    pub hops: Vec<NodeId>,
}

#[derive(Debug, PartialEq, Eq)]
pub struct Packet {
    pub routing_header: SourceRoutingHeader,
    pub session_id: u64,
    pub pack_type: PacketType,
}

/// Mathematical value of a [`SourceRoutingHeader`].
pub struct RouteView {
    pub hop_index: u8,
    pub hops: Seq<NodeId>,
}

/// Mathematical value of a [`PacketType`].
pub enum PacketTypeView {
    MsgFragment(Fragment),
    Ack(Ack),
    Nack(Nack),
    FloodRequest { flood_id: u64, initiator_id: NodeId, path_trace: Seq<(NodeId, NodeType)> },
    FloodResponse { flood_id: u64, path_trace: Seq<(NodeId, NodeType)> },
}

/// Mathematical value of a [`Packet`].
pub struct PacketView {
    pub routing_header: RouteView,
    pub session_id: u64,
    pub pack_type: PacketTypeView,
}

impl View for SourceRoutingHeader {
    type V = RouteView;

    open spec fn view(&self) -> RouteView {
        RouteView { hop_index: self.hop_index, hops: self.hops@ }
    }
}

impl View for FloodRequest {
    type V = PacketTypeView;

    open spec fn view(&self) -> PacketTypeView {
        PacketTypeView::FloodRequest {
            flood_id: self.flood_id,
            initiator_id: self.initiator_id,
            path_trace: self.path_trace@,
        }
    }
}

impl View for FloodResponse {
    type V = PacketTypeView;

    open spec fn view(&self) -> PacketTypeView {
        PacketTypeView::FloodResponse { flood_id: self.flood_id, path_trace: self.path_trace@ }
    }
}

impl View for PacketType {
    type V = PacketTypeView;

    open spec fn view(&self) -> PacketTypeView {
        match *self {
            PacketType::MsgFragment(f) => PacketTypeView::MsgFragment(f),
            PacketType::Ack(a) => PacketTypeView::Ack(a),
            PacketType::Nack(n) => PacketTypeView::Nack(n),
            PacketType::FloodRequest(r) => r@,
            PacketType::FloodResponse(r) => r@,
        }
    }
}

impl View for Packet {
    type V = PacketView;

    open spec fn view(&self) -> PacketView {
        PacketView {
            routing_header: self.routing_header@,
            session_id: self.session_id,
            pack_type: self.pack_type@,
        }
    }
}

impl PacketTypeView {
    pub open spec fn kind(self) -> PacketKind {
        match self {
            PacketTypeView::MsgFragment(_) => PacketKind::MsgFragment,
            PacketTypeView::Ack(_) => PacketKind::Ack,
            PacketTypeView::Nack(_) => PacketKind::Nack,
            PacketTypeView::FloodRequest { .. } => PacketKind::FloodRequest,
            PacketTypeView::FloodResponse { .. } => PacketKind::FloodResponse,
        }
    }
}

impl PacketType {
    pub fn kind(&self) -> (kind: PacketKind)
        ensures
            kind == self@.kind(),
    {
        match self {
            PacketType::MsgFragment(_) => PacketKind::MsgFragment,
            PacketType::Ack(_) => PacketKind::Ack,
            PacketType::Nack(_) => PacketKind::Nack,
            PacketType::FloodRequest(_) => PacketKind::FloodRequest,
            PacketType::FloodResponse(_) => PacketKind::FloodResponse,
        }
    }
}

/// The views of a sequence of packets, in order.
pub open spec fn packet_views(packets: Seq<Packet>) -> Seq<PacketView> {
    packets.map_values(|p: Packet| p@)
}

impl RouteView {
    /// The route walked backwards. The hop index becomes 1: the reversed
    /// route is about to leave its first node.
    pub open spec fn reversed(self) -> RouteView {
        RouteView { hop_index: 1, hops: self.hops.reverse() }
    }

    /// The same route, one hop further along. The index stays put at 255.
    pub open spec fn advanced(self) -> RouteView {
        RouteView {
            hop_index: if self.hop_index < 255 {
                (self.hop_index + 1) as u8
            } else {
                self.hop_index
            },
            hops: self.hops,
        }
    }

    /// The node that receives the packet next, if the index points at one.
    pub open spec fn next_hop(self) -> Option<NodeId> {
        if (self.hop_index as int) < self.hops.len() {
            Some(self.hops[self.hop_index as int])
        } else {
            None
        }
    }

    /// The node the route ends at, if it has any hop.
    pub open spec fn destination(self) -> Option<NodeId> {
        if self.hops.len() > 0 {
            Some(self.hops.last())
        } else {
            None
        }
    }

    /// The node the route starts at, if it has any hop.
    pub open spec fn source(self) -> Option<NodeId> {
        if self.hops.len() > 0 {
            Some(self.hops[0])
        } else {
            None
        }
    }
}

/// A copy of a list of node ids.
pub fn copy_ids(ids: &Vec<NodeId>) -> (copy: Vec<NodeId>)
    ensures
        copy@ == ids@,
{
    let mut copy: Vec<NodeId> = Vec::new();
    let mut i: usize = 0;
    while i < ids.len()
        invariant
            i <= ids.len(),
            copy@ == ids@.subrange(0, i as int),
        decreases ids.len() - i,
    {
        copy.push(ids[i]);
        i += 1;
    }
    copy
}

/// A copy of a path trace.
pub fn copy_trace(trace: &Vec<(NodeId, NodeType)>) -> (copy: Vec<(NodeId, NodeType)>)
    ensures
        copy@ == trace@,
{
    let mut copy: Vec<(NodeId, NodeType)> = Vec::new();
    let mut i: usize = 0;
    while i < trace.len()
        invariant
            i <= trace.len(),
            copy@ == trace@.subrange(0, i as int),
        decreases trace.len() - i,
    {
        copy.push(trace[i]);
        i += 1;
    }
    copy
}

impl SourceRoutingHeader {
    pub fn new(hops: Vec<NodeId>, hop_index: u8) -> (header: SourceRoutingHeader)
        ensures
            header@ == (RouteView { hop_index, hops: hops@ }),
    {
        SourceRoutingHeader { hop_index, hops }
    }

    /// The header of a packet that follows no route: no hops, index 0.
    pub fn empty_route() -> (header: SourceRoutingHeader)
        ensures
            header@ == (RouteView { hop_index: 0, hops: Seq::empty() }),
    {
        SourceRoutingHeader { hop_index: 0, hops: Vec::new() }
    }

    pub fn get_reversed(&self) -> (header: SourceRoutingHeader)
        ensures
            header@ == self@.reversed(),
    {
        let mut hops: Vec<NodeId> = Vec::new();
        let n: usize = self.hops.len();
        let mut i: usize = 0;
        while i < n
            invariant
                n == self.hops.len(),
                i <= n,
                hops@.len() == i,
                forall|j: int| 0 <= j < i ==> hops@[j] == self.hops@[n - 1 - j],
            decreases n - i,
        {
            hops.push(self.hops[n - 1 - i]);
            i += 1;
        }
        assert(hops@ =~= self.hops@.reverse());
        SourceRoutingHeader { hop_index: 1, hops }
    }

    pub fn increase_hop_index(&mut self)
        ensures
            final(self)@ == old(self)@.advanced(),
    {
        if self.hop_index < 255 {
            self.hop_index = self.hop_index + 1;
        }
    }

    pub fn next_hop(&self) -> (hop: Option<NodeId>)
        ensures
            hop == self@.next_hop(),
    {
        let i: usize = self.hop_index as usize;
        if i < self.hops.len() {
            Some(self.hops[i])
        } else {
            None
        }
    }

    pub fn destination(&self) -> (node: Option<NodeId>)
        ensures
            node == self@.destination(),
    {
        let n: usize = self.hops.len();
        if n > 0 {
            Some(self.hops[n - 1])
        } else {
            None
        }
    }

    pub fn source(&self) -> (node: Option<NodeId>)
        ensures
            node == self@.source(),
    {
        if self.hops.len() > 0 {
            Some(self.hops[0])
        } else {
            None
        }
    }
}

impl Clone for SourceRoutingHeader {
    fn clone(&self) -> (copy: Self)
        ensures
            copy@ == self@,
    {
        SourceRoutingHeader { hop_index: self.hop_index, hops: copy_ids(&self.hops) }
    }
}

impl Clone for FloodRequest {
    fn clone(&self) -> (copy: Self)
        ensures
            copy@ == self@,
    {
        FloodRequest {
            flood_id: self.flood_id,
            initiator_id: self.initiator_id,
            path_trace: copy_trace(&self.path_trace),
        }
    }
}

impl Clone for FloodResponse {
    fn clone(&self) -> (copy: Self)
        ensures
            copy@ == self@,
    {
        FloodResponse { flood_id: self.flood_id, path_trace: copy_trace(&self.path_trace) }
    }
}

impl Clone for PacketType {
    fn clone(&self) -> (copy: Self)
        ensures
            copy@ == self@,
    {
        match self {
            PacketType::MsgFragment(f) => PacketType::MsgFragment(*f),
            PacketType::Ack(a) => PacketType::Ack(*a),
            PacketType::Nack(n) => PacketType::Nack(*n),
            PacketType::FloodRequest(r) => PacketType::FloodRequest(r.clone()),
            PacketType::FloodResponse(r) => PacketType::FloodResponse(r.clone()),
        }
    }
}

impl Clone for Packet {
    fn clone(&self) -> (copy: Self)
        ensures
            copy@ == self@,
    {
        Packet {
            routing_header: self.routing_header.clone(),
            session_id: self.session_id,
            pack_type: self.pack_type.clone(),
        }
    }
}

impl FloodRequest {
    /// Appends a node to the path trace.
    pub fn increment(&mut self, node_id: NodeId, node_type: NodeType)
        ensures
            final(self).flood_id == old(self).flood_id,
            final(self).initiator_id == old(self).initiator_id,
            final(self).path_trace@ == old(self).path_trace@.push((node_id, node_type)),
    {
        self.path_trace.push((node_id, node_type));
    }
}

/// The ids of a path trace, last node first.
pub open spec fn trace_ids_reversed(trace: Seq<(NodeId, NodeType)>) -> Seq<NodeId> {
    Seq::new(trace.len(), |i: int| trace[trace.len() - 1 - i].0)
}

/// The response a flood request turns into at the node where it ends: it
/// keeps the flood id and the path trace, and travels the trace backwards.
pub open spec fn spec_flood_response(
    flood_id: u64,
    path_trace: Seq<(NodeId, NodeType)>,
    session_id: u64,
) -> PacketView {
    PacketView {
        routing_header: RouteView { hop_index: 1, hops: trace_ids_reversed(path_trace) },
        session_id,
        pack_type: PacketTypeView::FloodResponse { flood_id, path_trace },
    }
}

impl FloodRequest {
    pub fn generate_response(&self, session_id: u64) -> (packet: Packet)
        ensures
            packet@ == spec_flood_response(self.flood_id, self.path_trace@, session_id),
    {
        let n: usize = self.path_trace.len();
        let mut hops: Vec<NodeId> = Vec::new();
        let mut i: usize = 0;
        while i < n
            invariant
                n == self.path_trace.len(),
                i <= n,
                hops@.len() == i,
                forall|j: int| 0 <= j < i ==> hops@[j] == self.path_trace@[n - 1 - j].0,
            decreases n - i,
        {
            hops.push(self.path_trace[n - 1 - i].0);
            i += 1;
        }
        assert(hops@ =~= trace_ids_reversed(self.path_trace@));
        Packet {
            routing_header: SourceRoutingHeader { hop_index: 1, hops },
            session_id,
            pack_type: PacketType::FloodResponse(
                FloodResponse { flood_id: self.flood_id, path_trace: copy_trace(&self.path_trace) },
            ),
        }
    }
}

} // verus!
