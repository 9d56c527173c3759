//! The chat profile: a transport, the chat servers the client knows, and
//! the servers it is registered to.

use crate::client::{Client, Received};
use crate::message::{
    ChatRequest, ChatRequestWrapper, ChatRequestWrapperView, ChatRequestView, ChatResponse,
    ChatResponseView, ChatResponseWrapper, ChatResponseWrapperView, CommandView,
    ControllerMessageView, ServerType, ServerTypeResponse, SimControllerCommand,
    SimControllerMessage,
};
use crate::model::{ClientView, Ids};
use crate::packet::{copy_ids, NodeId, Packet};
use vstd::prelude::*;
use vstd::string::StringExecFns;
use vstd::utf8::{decode_utf8, valid_utf8};

verus! {

/// What the chat client asks the caller to do.
pub enum ChatAction {
    /// Tell the controller.
    Reply(SimControllerMessage),
    /// Write the request out as a payload and send it to the server.
    Request { server_id: NodeId, request: ChatRequestWrapper },
    /// As `Request`, and tell the controller that a chat message for `to`
    /// was sent through the server.
    ChatMessage { server_id: NodeId, to: NodeId, request: ChatRequestWrapper },
    /// The command is none for a chat client, and was ignored.
    Unhandled,
}

/// Mathematical value of a [`ChatAction`].
pub enum ChatActionView {
    Reply(ControllerMessageView),
    Request { server_id: NodeId, request: ChatRequestWrapperView },
    ChatMessage { server_id: NodeId, to: NodeId, request: ChatRequestWrapperView },
    Unhandled,
}

impl View for ChatAction {
    type V = ChatActionView;

    open spec fn view(&self) -> ChatActionView {
        match *self {
            ChatAction::Reply(m) => ChatActionView::Reply(m@),
            ChatAction::Request { server_id, request } => ChatActionView::Request {
                server_id,
                request: request@,
            },
            ChatAction::ChatMessage { server_id, to, request } => ChatActionView::ChatMessage {
                server_id,
                to,
                request: request@,
            },
            ChatAction::Unhandled => ChatActionView::Unhandled,
        }
    }
}

/// The text shown in place of a chat message that is no valid UTF-8.
pub open spec fn invalid_text() -> Seq<char> {
    "Invalid UTF-8 sequence"@
}

/// The text of a chat message.
pub open spec fn message_text(message: Seq<u8>) -> Seq<char> {
    if valid_utf8(message) {
        decode_utf8(message)
    } else {
        invalid_text()
    }
}

/// The servers with an id below `n` that `known` has an entry for, each as
/// a chat server, in ascending order.
pub open spec fn chat_servers_below(known: Map<NodeId, Seq<NodeId>>, n: nat) -> Seq<
    (NodeId, ServerType),
>
    decreases n,
{
    if n == 0 {
        Seq::empty()
    } else if known.contains_key((n - 1) as NodeId) {
        chat_servers_below(known, (n - 1) as nat).push(((n - 1) as NodeId, ServerType::Chat))
    } else {
        chat_servers_below(known, (n - 1) as nat)
    }
}

/// Mathematical value of a [`ChatClient`].
#[verifier::ext_equal]
pub struct ChatView {
    pub client: ClientView,
    /// For each chat server the client knows, the clients registered to it.
    pub available_clients: Map<NodeId, Seq<NodeId>>,
    /// The servers the client is registered to, each once, in the order in
    /// which they first confirmed it.
    pub registered_servers: Seq<NodeId>,
}

impl ChatView {
    pub open spec fn wf(self) -> bool {
        self.client.wf()
    }

    /// The request that registers the client.
    pub open spec fn register(self, server_id: NodeId) -> ChatActionView {
        ChatActionView::Request {
            server_id,
            request: ChatRequestWrapperView::Chat(ChatRequestView::Register(self.client.id)),
        }
    }

    /// The request that asks a server for its clients.
    pub open spec fn send_client_list_req(self, server_id: NodeId) -> ChatActionView {
        ChatActionView::Request {
            server_id,
            request: ChatRequestWrapperView::Chat(ChatRequestView::ClientList),
        }
    }

    /// The request that sends a chat message to `to` through a server.
    pub open spec fn send_chat_message(self, server_id: NodeId, to: NodeId, message: Seq<char>) -> ChatActionView {
        ChatActionView::ChatMessage {
            server_id,
            to,
            request: ChatRequestWrapperView::Chat(
                ChatRequestView::SendMessage { from: self.client.id, to, message },
            ),
        }
    }

    /// The state after a response of the server `server_id` has come in: a
    /// client list replaces the one known for the server; a confirmed
    /// registration adds the server to the registered ones, unless it is
    /// among them; a server type is
    /// recorded in the topology, and a chat server starts with no clients.
    pub open spec fn handle_response(self, response: ChatResponseWrapperView, server_id: NodeId) -> ChatView {
        match response {
            ChatResponseWrapperView::Chat(ChatResponseView::ClientList(list)) => ChatView {
                available_clients: self.available_clients.insert(server_id, list),
                ..self
            },
            ChatResponseWrapperView::Chat(ChatResponseView::ClientRegistered) => ChatView {
                registered_servers: if self.registered_servers.contains(server_id) {
                    self.registered_servers
                } else {
                    self.registered_servers.push(server_id)
                },
                ..self
            },
            ChatResponseWrapperView::Chat(_) => self,
            ChatResponseWrapperView::ServerType(ServerTypeResponse::ServerType(t)) => ChatView {
                client: ClientView {
                    topology: self.client.topology.set_server_type(server_id, t),
                    ..self.client
                },
                available_clients: if t == ServerType::Chat {
                    self.available_clients.insert(server_id, Seq::empty())
                } else {
                    self.available_clients
                },
                ..self
            },
        }
    }

    /// What the controller is told when a response has come in.
    pub open spec fn reply_to(response: ChatResponseWrapperView, server_id: NodeId) -> Option<
        ControllerMessageView,
    > {
        match response {
            ChatResponseWrapperView::Chat(ChatResponseView::ClientList(list)) => Some(
                ControllerMessageView::ClientListResponse(server_id, list),
            ),
            ChatResponseWrapperView::Chat(ChatResponseView::MessageFrom { from, message }) => Some(
                ControllerMessageView::MessageReceived(server_id, from, message_text(message)),
            ),
            ChatResponseWrapperView::Chat(_) => None,
            ChatResponseWrapperView::ServerType(ServerTypeResponse::ServerType(t)) => Some(
                ControllerMessageView::ServerTypeResponse(server_id, t),
            ),
        }
    }

    /// The state after a command of the controller.
    pub open spec fn handle_command(self, command: CommandView, now: u128, ids: Ids, sessions: Seq<u64>) -> ChatView {
        match command {
            CommandView::FloodRequest => ChatView {
                client: self.client.send_flood_request(now, ids),
                ..self
            },
            CommandView::KnownServers => ChatView {
                client: self.client.request_server_types(now, ids, sessions),
                ..self
            },
            CommandView::AddSender(n) => ChatView { client: self.client.add_sender(n, now, ids), ..self },
            CommandView::RemoveSender(n) => ChatView { client: self.client.remove_sender(n), ..self },
            CommandView::RequestServerType(s) => ChatView {
                client: self.client.send_server_type_request(s, now, ids),
                ..self
            },
            CommandView::Shutdown => ChatView {
                client: ClientView { running: false, ..self.client },
                ..self
            },
            _ => self,
        }
    }

    /// How many queries a command of the controller sends: one for every
    /// server whose type is not known where it asks for the known servers,
    /// none else.
    pub open spec fn command_queries(self, command: CommandView) -> nat {
        match command {
            CommandView::KnownServers => self.client.topology.untyped_servers().len(),
            _ => 0,
        }
    }

    /// What the caller is asked to do for a command of the controller.
    pub open spec fn command_actions(self, command: CommandView) -> Seq<ChatActionView> {
        match command {
            CommandView::SendMessage(text, server_id, to) => seq![
                self.send_chat_message(server_id, to, text),
            ],
            CommandView::Register(server_id) => seq![self.register(server_id)],
            CommandView::ClientList(server_id) => seq![self.send_client_list_req(server_id)],
            CommandView::Topology => seq![
                ChatActionView::Reply(ControllerMessageView::TopologyResponse(self.client.topology)),
            ],
            CommandView::RegisteredServers => seq![
                ChatActionView::Reply(
                    ControllerMessageView::RegisteredServersResponse(self.registered_servers),
                ),
            ],
            CommandView::KnownServers => seq![
                ChatActionView::Reply(
                    ControllerMessageView::KnownServers(chat_servers_below(self.available_clients, 256)),
                ),
            ],
            CommandView::RequestFileList(_) => seq![ChatActionView::Unhandled],
            CommandView::RequestTextFile(_, _) => seq![ChatActionView::Unhandled],
            CommandView::RequestMediaFile(_, _) => seq![ChatActionView::Unhandled],
            _ => Seq::empty(),
        }
    }
}

/// The text of `bytes` if they are valid UTF-8, by `core::str::from_utf8`:
/// `None` exactly where they are not.
#[verifier::external_body]
fn utf8_text(bytes: &Vec<u8>) -> (text: Option<String>)
    ensures
        match text {
            Some(s) => valid_utf8(bytes@) && s@ == decode_utf8(bytes@),
            None => !valid_utf8(bytes@),
        },
{
    match core::str::from_utf8(bytes.as_slice()) {
        Ok(s) => Some(s.to_owned()),
        Err(_) => None,
    }
}

/// Whether `ids` holds `id`.
fn holds(ids: &Vec<NodeId>, id: NodeId) -> (found: bool)
    ensures
        found == ids@.contains(id),
{
    let mut i: usize = 0;
    while i < ids.len()
        invariant
            i <= ids.len(),
            forall|k: int| 0 <= k < i ==> ids@[k] != id,
        decreases ids.len() - i,
    {
        if ids[i] == id {
            return true;
        }
        i += 1;
    }
    false
}

/// The views of a list of actions, in order.
pub open spec fn chat_action_views(actions: Seq<ChatAction>) -> Seq<ChatActionView> {
    actions.map_values(|a: ChatAction| a@)
}

/// A chat client.
pub struct ChatClient {
    client: Client,
    available_clients: Vec<Option<Vec<NodeId>>>,
    registered_servers: Vec<NodeId>,
}

impl View for ChatClient {
    type V = ChatView;

    closed spec fn view(&self) -> ChatView {
        ChatView {
            client: self.client@,
            available_clients: Map::new(
                |s: NodeId| self.available_clients@[s as int].is_some(),
                |s: NodeId| self.available_clients@[s as int].unwrap()@,
            ),
            registered_servers: self.registered_servers@,
        }
    }
}

impl ChatClient {
    pub closed spec fn sized(self) -> bool {
        self.available_clients@.len() == 256 && self.client.wf()
    }

    pub open spec fn wf(self) -> bool {
        self.sized() && self@.wf()
    }

    /// A chat client that knows nothing yet but its neighbours and the
    /// payload that asks a server what it offers.
    pub fn new(client_id: NodeId, neighbors: Vec<NodeId>, server_type_request: Vec<u8>) -> (chat:
        ChatClient)
        ensures
            chat.wf(),
            chat@ == (ChatView {
                client: ClientView::init(
                    client_id,
                    crate::client::distinct(neighbors@),
                    server_type_request@,
                ),
                available_clients: Map::empty(),
                registered_servers: Seq::empty(),
            }),
    {
        let mut available_clients: Vec<Option<Vec<NodeId>>> = Vec::new();
        let mut j: usize = 0;
        while j < 256
            invariant
                j <= 256,
                available_clients@.len() == j,
                forall|k: int| 0 <= k < j ==> available_clients@[k].is_none(),
            decreases 256 - j,
        {
            available_clients.push(None);
            j += 1;
        }
        let chat = ChatClient {
            client: Client::new(client_id, neighbors, server_type_request),
            available_clients,
            registered_servers: Vec::new(),
        };
        assert(chat@.available_clients =~= Map::<NodeId, Seq<NodeId>>::empty());
        chat
    }

    pub fn client(&self) -> (client: &Client)
        ensures
            client@ == self@.client,
            self.wf() ==> client.wf(),
    {
        &self.client
    }

    /// The transport, to drive it. The chat client is in order again once
    /// the transport is.
    pub fn client_mut(&mut self) -> (client: &mut Client)
        ensures
            client@ == old(self)@.client,
            old(self).wf() ==> client.wf(),
            final(self)@ == (ChatView { client: final(client)@, ..old(self)@ }),
            old(self).wf() && final(client).wf() ==> final(self).wf(),
    {
        &mut self.client
    }

    /// The servers the client is registered to.
    pub fn get_registered_servers(&self) -> (servers: &Vec<NodeId>)
        ensures
            servers@ == self@.registered_servers,
    {
        &self.registered_servers
    }

    /// The clients registered to a chat server, if the client knows the
    /// server as one.
    pub fn get_client_list(&self, server_id: NodeId) -> (clients: Option<Vec<NodeId>>)
        requires
            self.wf(),
        ensures
            clients.is_some() == self@.available_clients.contains_key(server_id),
            clients.is_some() ==> clients.unwrap()@ == self@.available_clients[server_id],
    {
        match &self.available_clients[server_id as usize] {
            Some(list) => Some(copy_ids(list)),
            None => None,
        }
    }

    /// The chat servers the client knows, in ascending order of their ids.
    pub fn get_available_clients(&self) -> (servers: Vec<(NodeId, ServerType)>)
        requires
            self.wf(),
        ensures
            servers@ == chat_servers_below(self@.available_clients, 256),
    {
        let mut servers: Vec<(NodeId, ServerType)> = Vec::new();
        let mut j: usize = 0;
        while j < 256
            invariant
                j <= 256,
                self.wf(),
                servers@ == chat_servers_below(self@.available_clients, j as nat),
            decreases 256 - j,
        {
            if self.available_clients[j].is_some() {
                servers.push((j as u8, ServerType::Chat));
            }
            j += 1;
        }
        servers
    }

    /// The request that registers the client to a server.
    pub fn register(&self, server_id: NodeId) -> (action: ChatAction)
        ensures
            action@ == self@.register(server_id),
    {
        ChatAction::Request {
            server_id,
            request: ChatRequestWrapper::Chat(ChatRequest::Register(self.client.client_id())),
        }
    }

    /// The request that sends a chat message to `to` through a server.
    pub fn send_chat_message(&self, server_id: NodeId, to: NodeId, message: String) -> (action:
        ChatAction)
        ensures
            action@ == self@.send_chat_message(server_id, to, message@),
    {
        ChatAction::ChatMessage {
            server_id,
            to,
            request: ChatRequestWrapper::Chat(
                ChatRequest::SendMessage { from: self.client.client_id(), to, message },
            ),
        }
    }

    /// The request that asks a server for the clients registered to it.
    pub fn send_client_list_req(&self, server_id: NodeId) -> (action: ChatAction)
        ensures
            action@ == self@.send_client_list_req(server_id),
    {
        ChatAction::Request { server_id, request: ChatRequestWrapper::Chat(ChatRequest::ClientList) }
    }

    /// Sends a request, written out as a payload, to a server.
    pub fn transmit(&mut self, server_id: NodeId, payload: Vec<u8>, now: u128, ids: Ids)
        requires
            old(self).wf(),
        ensures
            final(self).wf(),
            final(self)@ == (ChatView {
                client: old(self)@.client.send_message(server_id, payload@, now, ids),
                ..old(self)@
            }),
    {
        self.client.send_message(server_id, payload, now, ids);
    }

    /// Takes in a packet from a drone: see
    /// [`Client::on_drone_packet_received`].
    pub fn on_drone_packet_received(&mut self, packet: Packet, now: u128, ids: Ids) -> (received:
        Received)
        requires
            old(self).wf(),
        ensures
            final(self).wf(),
            final(self)@ == (ChatView {
                client: old(self)@.client.on_drone_packet_received(
                    packet@,
                    now,
                    ids,
                    received.queries@,
                ),
                ..old(self)@
            }),
            match packet@.pack_type {
                crate::packet::PacketTypeView::MsgFragment(fragment) => match received.delivered {
                    Some((source, payload)) => old(self)@.client.delivered_by(packet@, fragment)
                        == Some((source, payload@)),
                    None => old(self)@.client.delivered_by(packet@, fragment).is_none(),
                },
                _ => received.delivered.is_none(),
            },
            match packet@.pack_type {
                crate::packet::PacketTypeView::FloodResponse { flood_id, path_trace } => {
                    &&& received.queries@.len() == path_trace.len()
                    &&& forall|k: int|
                        0 <= k < path_trace.len() ==> (#[trigger] received.queries@[k]).is_some()
                            == old(self)@.client.noticed(packet.session_id).queried_at(
                            path_trace,
                            now,
                            ids,
                            received.queries@,
                            k,
                        )
                },
                _ => received.queries@.len() == 0,
            },
            received.error == old(self)@.client.protocol_error(packet@),
    {
        self.client.on_drone_packet_received(packet, now, ids)
    }

    /// Takes in a response of the server `server_id`: see
    /// [`ChatView::handle_response`]. Hands back what to tell the controller.
    pub fn handle_response(&mut self, response: ChatResponseWrapper, server_id: NodeId) -> (reply:
        Option<SimControllerMessage>)
        requires
            old(self).wf(),
        ensures
            final(self).wf(),
            final(self)@ == old(self)@.handle_response(response@, server_id),
            match reply {
                Some(message) => ChatView::reply_to(response@, server_id) == Some(message@),
                None => ChatView::reply_to(response@, server_id).is_none(),
            },
    {
        match response {
            ChatResponseWrapper::Chat(ChatResponse::ClientList(list)) => {
                let copy = copy_ids(&list);
                self.available_clients[server_id as usize] = Some(copy);
                proof {
                    assert(self@.available_clients =~= old(self)@.available_clients.insert(
                        server_id,
                        list@,
                    ));
                }
                Some(SimControllerMessage::ClientListResponse(server_id, list))
            },
            ChatResponseWrapper::Chat(ChatResponse::MessageFrom { from, message }) => {
                let text = match utf8_text(&message) {
                    Some(text) => text,
                    None => String::from_str("Invalid UTF-8 sequence"),
                };
                proof {
                    assert(self@.available_clients =~= old(self)@.available_clients);
                }
                Some(SimControllerMessage::MessageReceived(server_id, from, text))
            },
            ChatResponseWrapper::Chat(ChatResponse::MessageSent) => {
                proof {
                    assert(self@.available_clients =~= old(self)@.available_clients);
                }
                None
            },
            ChatResponseWrapper::Chat(ChatResponse::ClientRegistered) => {
                if !holds(&self.registered_servers, server_id) {
                    self.registered_servers.push(server_id);
                }
                proof {
                    assert(self@.available_clients =~= old(self)@.available_clients);
                }
                None
            },
            ChatResponseWrapper::ServerType(ServerTypeResponse::ServerType(server_type)) => {
                self.client.topology_mut().set_server_type(server_id, server_type);
                match server_type {
                    ServerType::Chat => {
                        self.available_clients[server_id as usize] = Some(Vec::new());
                        proof {
                            assert(self@.available_clients =~= old(self)@.available_clients.insert(
                                server_id,
                                Seq::empty(),
                            ));
                        }
                    },
                    _ => {
                        proof {
                            assert(self@.available_clients =~= old(self)@.available_clients);
                        }
                    },
                }
                Some(SimControllerMessage::ServerTypeResponse(server_id, server_type))
            },
        }
    }

    /// Carries out a command of the controller: see
    /// [`ChatView::handle_command`] for what it does to the state and
    /// [`ChatView::command_actions`] for what it asks the caller to do. Hands
    /// back the actions, and the sessions of the queries it sent.
    pub fn handle_controller_commands(&mut self, command: SimControllerCommand, now: u128, ids: Ids) -> (outcome:
        (Vec<ChatAction>, Vec<u64>))
        requires
            old(self).wf(),
        ensures
            final(self).wf(),
            final(self)@ == old(self)@.handle_command(command@, now, ids, outcome.1@),
            chat_action_views(outcome.0@) == old(self)@.command_actions(command@),
            outcome.1@.len() == old(self)@.command_queries(command@),
    {
        let mut actions: Vec<ChatAction> = Vec::new();
        let mut sessions: Vec<u64> = Vec::new();
        match command {
            SimControllerCommand::SendMessage(message, server_id, to) => {
                actions.push(self.send_chat_message(server_id, to, message));
            },
            SimControllerCommand::Register(server_id) => {
                actions.push(self.register(server_id));
            },
            SimControllerCommand::ClientList(server_id) => {
                actions.push(self.send_client_list_req(server_id));
            },
            SimControllerCommand::FloodRequest => {
                self.client.send_flood_request(now, ids);
            },
            SimControllerCommand::Topology => {
                actions.push(
                    ChatAction::Reply(
                        SimControllerMessage::TopologyResponse(self.client.topology().clone()),
                    ),
                );
            },
            SimControllerCommand::RegisteredServers => {
                actions.push(
                    ChatAction::Reply(
                        SimControllerMessage::RegisteredServersResponse(
                            copy_ids(&self.registered_servers),
                        ),
                    ),
                );
            },
            SimControllerCommand::KnownServers => {
                actions.push(
                    ChatAction::Reply(SimControllerMessage::KnownServers(self.get_available_clients())),
                );
                sessions = self.client.request_server_types(now, ids);
            },
            SimControllerCommand::AddSender(neighbor) => {
                self.client.add_sender(neighbor, now, ids);
            },
            SimControllerCommand::RemoveSender(neighbor) => {
                self.client.remove_sender(neighbor);
            },
            SimControllerCommand::RequestServerType(server_id) => {
                self.client.send_server_type_request(server_id, now, ids);
            },
            SimControllerCommand::Shutdown => {
                self.client.stop();
            },
            SimControllerCommand::RequestFileList(_) => {
                actions.push(ChatAction::Unhandled);
            },
            SimControllerCommand::RequestTextFile(_, _) => {
                actions.push(ChatAction::Unhandled);
            },
            SimControllerCommand::RequestMediaFile(_, _) => {
                actions.push(ChatAction::Unhandled);
            },
        }
        proof {
            assert(self@.available_clients =~= old(self)@.available_clients);
            assert(chat_action_views(actions@) =~= old(self)@.command_actions(command@));
        }
        (actions, sessions)
    }
}

} // verus!
