//! Application messages exchanged with servers, and what passes between the
//! client and its controller.

use crate::packet::NodeId;
use crate::topology::{Topology, TopologyView};
use vstd::prelude::*;

verus! {

/// What a server offers.
#[derive(Clone, Copy, Debug, PartialEq, Eq, Structural)]
pub enum ServerType {
    Chat,
    Text,
    Media,
}

/// A message that travels through drones as a payload of bytes.
pub trait DroneSend {

}

/// A message from a client to a server.
pub trait Request: DroneSend {

}

/// A message from a server to a client.
pub trait Response: DroneSend {

}

/// A message with the node it came from and the session it came in.
#[derive(Debug)]
pub struct Message<M: DroneSend> {
    pub source_id: NodeId,
    pub session_id: u64,
    pub content: M,
}

impl<M: DroneSend> Message<M> {
    pub fn new(source_id: NodeId, session_id: u64, content: M) -> (message: Message<M>)
        ensures
            message.source_id == source_id,
            message.session_id == session_id,
            message.content == content,
    {
        Message { source_id, session_id, content }
    }
}

/// What a chat client asks of a chat server.
#[derive(Debug, PartialEq, Eq)]
pub enum ChatRequest {
    ClientList,
    Register(NodeId),
    SendMessage { from: NodeId, to: NodeId, message: String },
}

/// What a chat server answers.
#[derive(Debug, PartialEq, Eq)]
pub enum ChatResponse {
    ClientList(Vec<NodeId>),
    MessageFrom { from: NodeId, message: Vec<u8> },
    MessageSent,
    ClientRegistered,
}

/// The question what a server offers.
#[derive(Clone, Copy, Debug, PartialEq, Eq, Structural)]
pub enum ServerTypeRequest {
    ServerType,
}

/// The answer to the question what a server offers.
#[derive(Clone, Copy, Debug, PartialEq, Eq, Structural)]
pub enum ServerTypeResponse {
    ServerType(ServerType),
}

/// What a chat client sends: a chat request, or the question what the
/// server offers.
#[derive(Debug, PartialEq, Eq)]
pub enum ChatRequestWrapper {
    Chat(ChatRequest),
    ServerType(ServerTypeRequest),
}

/// What a chat client receives.
#[derive(Debug, PartialEq, Eq)]
pub enum ChatResponseWrapper {
    Chat(ChatResponse),
    ServerType(ServerTypeResponse),
}

/// What a browser asks of a content server.
#[derive(Clone, Copy, Debug, PartialEq, Eq, Structural)]
pub enum BrowserRequest {
    FileList,
    TextFileRequest(u8),
    MediaFileRequest(u8),
}

/// What a content server answers.
#[derive(Debug, PartialEq, Eq)]
pub enum BrowserResponse {
    FileList(Vec<u8>),
    TextFile(u8, String),
    MediaFile(u8, Vec<u8>),
}

/// What a browser sends: a request for content, or the question what the
/// server offers.
#[derive(Clone, Copy, Debug, PartialEq, Eq, Structural)]
pub enum BrowserRequestWrapper {
    Chat(BrowserRequest),
    ServerType(ServerTypeRequest),
}

/// What a browser receives.
#[derive(Debug, PartialEq, Eq)]
pub enum BrowserResponseWrapper {
    Chat(BrowserResponse),
    ServerType(ServerTypeResponse),
}

impl DroneSend for ChatRequest {

}

impl Request for ChatRequest {

}

impl DroneSend for ChatResponse {

}

impl Response for ChatResponse {

}

impl DroneSend for ServerTypeRequest {

}

impl Request for ServerTypeRequest {

}

impl DroneSend for ServerTypeResponse {

}

impl Response for ServerTypeResponse {

}

impl DroneSend for ChatRequestWrapper {

}

impl Request for ChatRequestWrapper {

}

impl DroneSend for ChatResponseWrapper {

}

impl Response for ChatResponseWrapper {

}

impl DroneSend for BrowserRequest {

}

impl Request for BrowserRequest {

}

impl DroneSend for BrowserResponse {

}

impl Response for BrowserResponse {

}

impl DroneSend for BrowserRequestWrapper {

}

impl Request for BrowserRequestWrapper {

}

impl DroneSend for BrowserResponseWrapper {

}

impl Response for BrowserResponseWrapper {

}

/// Mathematical value of a [`ChatRequest`].
pub enum ChatRequestView {
    ClientList,
    Register(NodeId),
    SendMessage { from: NodeId, to: NodeId, message: Seq<char> },
}

/// Mathematical value of a [`ChatRequestWrapper`].
pub enum ChatRequestWrapperView {
    Chat(ChatRequestView),
    ServerType(ServerTypeRequest),
}

/// Mathematical value of a [`ChatResponse`].
pub enum ChatResponseView {
    ClientList(Seq<NodeId>),
    MessageFrom { from: NodeId, message: Seq<u8> },
    MessageSent,
    ClientRegistered,
}

/// Mathematical value of a [`ChatResponseWrapper`].
pub enum ChatResponseWrapperView {
    Chat(ChatResponseView),
    ServerType(ServerTypeResponse),
}

/// Mathematical value of a [`BrowserResponse`].
pub enum BrowserResponseView {
    FileList(Seq<u8>),
    TextFile(u8, Seq<char>),
    MediaFile(u8, Seq<u8>),
}

/// Mathematical value of a [`BrowserResponseWrapper`].
pub enum BrowserResponseWrapperView {
    Chat(BrowserResponseView),
    ServerType(ServerTypeResponse),
}

impl View for ChatRequest {
    type V = ChatRequestView;

    open spec fn view(&self) -> ChatRequestView {
        match *self {
            ChatRequest::ClientList => ChatRequestView::ClientList,
            ChatRequest::Register(id) => ChatRequestView::Register(id),
            ChatRequest::SendMessage { from, to, message } => ChatRequestView::SendMessage {
                from,
                to,
                message: message@,
            },
        }
    }
}

impl View for ChatRequestWrapper {
    type V = ChatRequestWrapperView;

    open spec fn view(&self) -> ChatRequestWrapperView {
        match *self {
            ChatRequestWrapper::Chat(r) => ChatRequestWrapperView::Chat(r@),
            ChatRequestWrapper::ServerType(r) => ChatRequestWrapperView::ServerType(r),
        }
    }
}

impl View for ChatResponse {
    type V = ChatResponseView;

    open spec fn view(&self) -> ChatResponseView {
        match *self {
            ChatResponse::ClientList(list) => ChatResponseView::ClientList(list@),
            ChatResponse::MessageFrom { from, message } => ChatResponseView::MessageFrom {
                from,
                message: message@,
            },
            ChatResponse::MessageSent => ChatResponseView::MessageSent,
            ChatResponse::ClientRegistered => ChatResponseView::ClientRegistered,
        }
    }
}

impl View for ChatResponseWrapper {
    type V = ChatResponseWrapperView;

    open spec fn view(&self) -> ChatResponseWrapperView {
        match *self {
            ChatResponseWrapper::Chat(r) => ChatResponseWrapperView::Chat(r@),
            ChatResponseWrapper::ServerType(r) => ChatResponseWrapperView::ServerType(r),
        }
    }
}

impl View for BrowserResponse {
    type V = BrowserResponseView;

    open spec fn view(&self) -> BrowserResponseView {
        match *self {
            BrowserResponse::FileList(files) => BrowserResponseView::FileList(files@),
            BrowserResponse::TextFile(id, text) => BrowserResponseView::TextFile(id, text@),
            BrowserResponse::MediaFile(id, media) => BrowserResponseView::MediaFile(id, media@),
        }
    }
}

impl View for BrowserResponseWrapper {
    type V = BrowserResponseWrapperView;

    open spec fn view(&self) -> BrowserResponseWrapperView {
        match *self {
            BrowserResponseWrapper::Chat(r) => BrowserResponseWrapperView::Chat(r@),
            BrowserResponseWrapper::ServerType(r) => BrowserResponseWrapperView::ServerType(r),
        }
    }
}

/// What the controller tells a client to do.
#[derive(Debug, PartialEq, Eq)]
pub enum SimControllerCommand {
    /// Send a chat message, through a server, to another client.
    SendMessage(String, NodeId, NodeId),
    /// Register to a chat server.
    Register(NodeId),
    /// Ask a chat server for its clients.
    ClientList(NodeId),
    /// Start a flood.
    FloodRequest,
    /// Report the topology.
    Topology,
    /// Report the servers the client is registered to.
    RegisteredServers,
    /// Report the servers whose type is known.
    KnownServers,
    /// Take a drone as a neighbour.
    AddSender(NodeId),
    /// Drop a neighbour.
    RemoveSender(NodeId),
    /// Ask a server what it offers.
    RequestServerType(NodeId),
    /// Ask a content server for its files.
    RequestFileList(NodeId),
    /// Ask for a text file, by its id, of a server.
    RequestTextFile(u8, NodeId),
    /// Ask for a media file, by its id, of a server.
    RequestMediaFile(u8, NodeId),
    /// Stop.
    Shutdown,
}

/// Mathematical value of a [`SimControllerCommand`].
pub enum CommandView {
    SendMessage(Seq<char>, NodeId, NodeId),
    Register(NodeId),
    ClientList(NodeId),
    FloodRequest,
    Topology,
    RegisteredServers,
    KnownServers,
    AddSender(NodeId),
    RemoveSender(NodeId),
    RequestServerType(NodeId),
    RequestFileList(NodeId),
    RequestTextFile(u8, NodeId),
    RequestMediaFile(u8, NodeId),
    Shutdown,
}

impl View for SimControllerCommand {
    type V = CommandView;

    open spec fn view(&self) -> CommandView {
        match *self {
            SimControllerCommand::SendMessage(text, server_id, to) => CommandView::SendMessage(
                text@,
                server_id,
                to,
            ),
            SimControllerCommand::Register(s) => CommandView::Register(s),
            SimControllerCommand::ClientList(s) => CommandView::ClientList(s),
            SimControllerCommand::FloodRequest => CommandView::FloodRequest,
            SimControllerCommand::Topology => CommandView::Topology,
            SimControllerCommand::RegisteredServers => CommandView::RegisteredServers,
            SimControllerCommand::KnownServers => CommandView::KnownServers,
            SimControllerCommand::AddSender(n) => CommandView::AddSender(n),
            SimControllerCommand::RemoveSender(n) => CommandView::RemoveSender(n),
            SimControllerCommand::RequestServerType(s) => CommandView::RequestServerType(s),
            SimControllerCommand::RequestFileList(s) => CommandView::RequestFileList(s),
            SimControllerCommand::RequestTextFile(f, s) => CommandView::RequestTextFile(f, s),
            SimControllerCommand::RequestMediaFile(f, s) => CommandView::RequestMediaFile(f, s),
            SimControllerCommand::Shutdown => CommandView::Shutdown,
        }
    }
}

/// What a client tells its controller in answer to a command or on the
/// arrival of a message.
pub enum SimControllerMessage {
    TopologyResponse(Topology),
    /// The servers whose type is known, in ascending order of their ids.
    KnownServers(Vec<(NodeId, ServerType)>),
    RegisteredServersResponse(Vec<NodeId>),
    /// A server, and the clients registered to it.
    ClientListResponse(NodeId, Vec<NodeId>),
    /// A server, and what it offers.
    ServerTypeResponse(NodeId, ServerType),
    /// A server, and the ids of its files.
    FileListResponse(NodeId, Vec<u8>),
    /// A text file without references, by its id.
    TextFileResponse(u8, String),
    /// A media file, by its id.
    MediaFileResponse(u8, Vec<u8>),
    /// A text file, by its id, with the media files it refers to, in
    /// ascending order of their ids.
    TextWithReferences(u8, String, Vec<(u8, Vec<u8>)>),
    /// A chat message: the server it came through, its sender, its text.
    MessageReceived(NodeId, NodeId, String),
}

/// The media files of a message, each with its id, as mathematical values.
pub open spec fn media_views(media: Seq<(u8, Vec<u8>)>) -> Seq<(u8, Seq<u8>)> {
    media.map_values(|m: (u8, Vec<u8>)| (m.0, m.1@))
}

/// Mathematical value of a [`SimControllerMessage`].
pub enum ControllerMessageView {
    TopologyResponse(TopologyView),
    KnownServers(Seq<(NodeId, ServerType)>),
    RegisteredServersResponse(Seq<NodeId>),
    ClientListResponse(NodeId, Seq<NodeId>),
    ServerTypeResponse(NodeId, ServerType),
    FileListResponse(NodeId, Seq<u8>),
    TextFileResponse(u8, Seq<char>),
    MediaFileResponse(u8, Seq<u8>),
    TextWithReferences(u8, Seq<char>, Seq<(u8, Seq<u8>)>),
    MessageReceived(NodeId, NodeId, Seq<char>),
}

impl View for SimControllerMessage {
    type V = ControllerMessageView;

    open spec fn view(&self) -> ControllerMessageView {
        match *self {
            SimControllerMessage::TopologyResponse(t) => ControllerMessageView::TopologyResponse(t@),
            SimControllerMessage::KnownServers(s) => ControllerMessageView::KnownServers(s@),
            SimControllerMessage::RegisteredServersResponse(s) => ControllerMessageView::RegisteredServersResponse(
            s@),
            SimControllerMessage::ClientListResponse(s, c) => ControllerMessageView::ClientListResponse(
            s, c@),
            SimControllerMessage::ServerTypeResponse(s, t) => ControllerMessageView::ServerTypeResponse(
            s, t),
            SimControllerMessage::FileListResponse(s, f) => ControllerMessageView::FileListResponse(
            s, f@),
            SimControllerMessage::TextFileResponse(f, t) => ControllerMessageView::TextFileResponse(
            f, t@),
            SimControllerMessage::MediaFileResponse(f, m) => ControllerMessageView::MediaFileResponse(
            f, m@),
            SimControllerMessage::TextWithReferences(f, t, m) => ControllerMessageView::TextWithReferences(
            f, t@, media_views(m@)),
            SimControllerMessage::MessageReceived(s, f, t) => ControllerMessageView::MessageReceived(
            s, f, t@),
        }
    }
}

/// A copy of a list of bytes.
pub fn copy_bytes(bytes: &Vec<u8>) -> (copy: Vec<u8>)
    ensures
        copy@ == bytes@,
{
    let copy = bytes.clone();
    assert(copy@ =~= bytes@);
    copy
}

} // verus!
