//! The browser profile: a transport, the content servers the client knows,
//! the files it has obtained, and the text files that wait for the media
//! files they refer to.

use crate::client::{Client, Received};
use crate::idsets::{members_below, set_of, IdSets};
use crate::message::{
    copy_bytes, media_views, BrowserRequest, BrowserRequestWrapper, BrowserResponse,
    BrowserResponseView, BrowserResponseWrapper, BrowserResponseWrapperView, CommandView,
    ControllerMessageView, ServerType, ServerTypeResponse, SimControllerCommand,
    SimControllerMessage,
};
use crate::model::{ClientView, Ids};
use crate::packet::{NodeId, Packet};
use crate::references::{has_references, parse_references, references_of};
use vstd::prelude::*;
use vstd::utf8::encode_utf8;

verus! {

/// What the browser asks the caller to do.
pub enum BrowserAction {
    /// Tell the controller.
    Reply(SimControllerMessage),
    /// Write the request out as a payload and send it to the server.
    Request { server_id: NodeId, request: BrowserRequestWrapper },
    /// The command is none for a browser, and was ignored.
    Unhandled,
}

/// Mathematical value of a [`BrowserAction`].
pub enum BrowserActionView {
    Reply(ControllerMessageView),
    Request { server_id: NodeId, request: BrowserRequestWrapper },
    Unhandled,
}

impl View for BrowserAction {
    type V = BrowserActionView;

    open spec fn view(&self) -> BrowserActionView {
        match *self {
            BrowserAction::Reply(m) => BrowserActionView::Reply(m@),
            BrowserAction::Request { server_id, request } => BrowserActionView::Request {
                server_id,
                request,
            },
            BrowserAction::Unhandled => BrowserActionView::Unhandled,
        }
    }
}

/// The views of a list of actions, in order.
pub open spec fn browser_action_views(actions: Seq<BrowserAction>) -> Seq<BrowserActionView> {
    actions.map_values(|a: BrowserAction| a@)
}

/// The request for the media file `id` of the server `server_id`.
pub open spec fn media_request(server_id: NodeId, id: u8) -> BrowserActionView {
    BrowserActionView::Request {
        server_id,
        request: BrowserRequestWrapper::Chat(BrowserRequest::MediaFileRequest(id)),
    }
}

/// The media server of lowest id below `n`, if there is one.
pub open spec fn media_server_below(servers: Map<NodeId, ServerType>, n: nat) -> Option<NodeId>
    decreases n,
{
    if n == 0 {
        None
    } else {
        match media_server_below(servers, (n - 1) as nat) {
            Some(s) => Some(s),
            None => if servers.contains_key((n - 1) as NodeId) && servers[(n - 1) as NodeId]
                == ServerType::Media {
                Some((n - 1) as NodeId)
            } else {
                None
            },
        }
    }
}

/// The servers with an id below `n` whose type the browser knows, each with
/// its type, in ascending order.
pub open spec fn servers_below(servers: Map<NodeId, ServerType>, n: nat) -> Seq<
    (NodeId, ServerType),
>
    decreases n,
{
    if n == 0 {
        Seq::empty()
    } else if servers.contains_key((n - 1) as NodeId) {
        servers_below(servers, (n - 1) as nat).push(((n - 1) as NodeId, servers[(n - 1) as NodeId]))
    } else {
        servers_below(servers, (n - 1) as nat)
    }
}

/// The text file `file_id` as obtained from the server of lowest id below
/// `n` that gave one.
pub open spec fn text_below(texts: Map<(NodeId, u8), Seq<char>>, file_id: u8, n: nat) -> Option<
    Seq<char>,
>
    decreases n,
{
    if n == 0 {
        None
    } else {
        match text_below(texts, file_id, (n - 1) as nat) {
            Some(t) => Some(t),
            None => if texts.contains_key(((n - 1) as NodeId, file_id)) {
                Some(texts[((n - 1) as NodeId, file_id)])
            } else {
                None
            },
        }
    }
}

/// Each of `ids` with the media file obtained under it, an empty file where
/// none was obtained.
pub open spec fn attach(media: Map<u8, Seq<u8>>, ids: Seq<u8>) -> Seq<(u8, Seq<u8>)> {
    Seq::new(
        ids.len(),
        |i: int|
            (
                ids[i],
                if media.contains_key(ids[i]) {
                    media[ids[i]]
                } else {
                    Seq::empty()
                },
            ),
    )
}

/// Mathematical value of a [`BrowserClient`].
#[verifier::ext_equal]
pub struct BrowserView {
    pub client: ClientView,
    /// For each text server, the ids of its files.
    pub available_text_files: Map<NodeId, Seq<u8>>,
    /// For each media server, the ids of its files.
    pub available_media_files: Map<NodeId, Seq<u8>>,
    /// The text files obtained, by server and file id.
    pub obtained_text_files: Map<(NodeId, u8), Seq<char>>,
    /// The media files obtained, by file id.
    pub obtained_media_files: Map<u8, Seq<u8>>,
    /// The content servers whose type is known.
    pub available_servers: Map<NodeId, ServerType>,
    /// For each text file that waits, the media files it still waits for.
    pub pending_referenced_files: Map<u8, Set<u8>>,
    /// For each text file that waits, all the media files it refers to.
    pub references_files: Map<u8, Set<u8>>,
}

impl BrowserView {
    pub open spec fn wf(self) -> bool {
        self.client.wf()
    }

    /// The state after the text file `file_id` has been found to refer to
    /// `ids`: each is recorded as referred to, and as waited for unless it
    /// has been obtained.
    pub open spec fn refer(self, file_id: u8, ids: Seq<u8>) -> BrowserView
        decreases ids.len(),
    {
        if ids.len() == 0 {
            self
        } else {
            let before = self.refer(file_id, ids.drop_last());
            let id = ids.last();
            BrowserView {
                references_files: before.references_files.insert(
                    file_id,
                    set_of(before.references_files, file_id).insert(id),
                ),
                pending_referenced_files: if before.obtained_media_files.contains_key(id) {
                    before.pending_referenced_files
                } else {
                    before.pending_referenced_files.insert(
                        file_id,
                        set_of(before.pending_referenced_files, file_id).insert(id),
                    )
                },
                ..before
            }
        }
    }

    /// The requests for those of `ids` that have not been obtained, in
    /// order.
    pub open spec fn requests_for(self, server_id: NodeId, ids: Seq<u8>) -> Seq<BrowserActionView>
        decreases ids.len(),
    {
        if ids.len() == 0 {
            Seq::empty()
        } else if self.obtained_media_files.contains_key(ids.last()) {
            self.requests_for(server_id, ids.drop_last())
        } else {
            self.requests_for(server_id, ids.drop_last()).push(media_request(server_id, ids.last()))
        }
    }

    /// The media files that the text file `file_id` refers to, in ascending
    /// order of their ids, each with what was obtained under its id.
    pub open spec fn attached_of(self, file_id: u8) -> Seq<(u8, Seq<u8>)> {
        attach(
            self.obtained_media_files,
            members_below(set_of(self.references_files, file_id), 256),
        )
    }

    /// The state after the text file `file_id` has been passed to the
    /// controller with what it refers to: it waits no more.
    pub open spec fn deliver_state(self, file_id: u8) -> BrowserView {
        BrowserView {
            pending_referenced_files: self.pending_referenced_files.remove(file_id),
            references_files: self.references_files.remove(file_id),
            ..self
        }
    }

    /// What the controller is told of a text file whose media files are all
    /// there: the text with the media files, or nothing where it refers to
    /// none.
    pub open spec fn deliver_actions(self, file_id: u8, text: Seq<char>) -> Seq<BrowserActionView> {
        if self.attached_of(file_id).len() == 0 {
            Seq::empty()
        } else {
            seq![
                BrowserActionView::Reply(
                    ControllerMessageView::TextWithReferences(file_id, text, self.attached_of(file_id)),
                ),
            ]
        }
    }

    /// The state once the text file is stored.
    pub open spec fn stored(self, server_id: NodeId, file_id: u8, text: Seq<char>) -> BrowserView {
        BrowserView {
            obtained_text_files: self.obtained_text_files.insert((server_id, file_id), text),
            ..self
        }
    }

    /// The state once the references of a stored text file are recorded.
    pub open spec fn noted(self, file_id: u8, text: Seq<char>) -> BrowserView {
        BrowserView {
            pending_referenced_files: self.pending_referenced_files.insert(file_id, Set::empty()),
            ..self
        }.refer(file_id, references_of(encode_utf8(text)))
    }

    /// The text refers to media files, and there is a media server to ask.
    pub open spec fn resolves(self, text: Seq<char>) -> bool {
        has_references(encode_utf8(text)) && media_server_below(self.available_servers, 256).is_some()
    }

    /// What the requests for the references of a text file are.
    pub open spec fn reference_requests(self, file_id: u8, text: Seq<char>) -> Seq<BrowserActionView> {
        self.noted(file_id, text).requests_for(
            media_server_below(self.available_servers, 256).unwrap(),
            references_of(encode_utf8(text)),
        )
    }

    /// The state after a text file has come in. It is stored. Where it
    /// refers to media files and a media server is known, the references
    /// are recorded; if none of them has to be waited for, the text waits
    /// no more.
    pub open spec fn on_text_file(self, server_id: NodeId, file_id: u8, text: Seq<char>) -> BrowserView {
        let stored = self.stored(server_id, file_id, text);
        if !stored.resolves(text) {
            stored
        } else if stored.reference_requests(file_id, text).len() > 0 {
            stored.noted(file_id, text)
        } else {
            stored.noted(file_id, text).deliver_state(file_id)
        }
    }

    /// What the caller is asked to do when a text file has come in: nothing
    /// for an empty text; to pass on a text without references; to ask for
    /// the media files that a text refers to and that are not there yet; to
    /// pass on a text with its media files where all are there.
    pub open spec fn text_file_actions(self, server_id: NodeId, file_id: u8, text: Seq<char>) -> Seq<
        BrowserActionView,
    > {
        let stored = self.stored(server_id, file_id, text);
        if encode_utf8(text).len() == 0 {
            Seq::empty()
        } else if !has_references(encode_utf8(text)) {
            seq![BrowserActionView::Reply(ControllerMessageView::TextFileResponse(file_id, text))]
        } else if !stored.resolves(text) {
            Seq::empty()
        } else if stored.reference_requests(file_id, text).len() > 0 {
            stored.reference_requests(file_id, text)
        } else {
            stored.noted(file_id, text).deliver_actions(file_id, text)
        }
    }

    /// The text file `file_id` waits for the media file `media_id`.
    pub open spec fn waits_for(self, file_id: u8, media_id: u8) -> bool {
        set_of(self.pending_referenced_files, file_id).contains(media_id)
    }

    /// The text file `file_id` waited for the media file `media_id` and for
    /// nothing else.
    pub open spec fn completed_by(self, file_id: u8, media_id: u8) -> bool {
        self.waits_for(file_id, media_id) && self.pending_referenced_files[file_id].remove(media_id)
            =~= Set::<u8>::empty()
    }

    /// The state after the media file `media_id` has been checked against
    /// the text file `file_id`: the text waits for it no more, and waits no
    /// more at all where that was the last one and the text is there.
    pub open spec fn resolve_one(self, media_id: u8, file_id: u8) -> BrowserView {
        if !self.waits_for(file_id, media_id) {
            self
        } else {
            let marked = BrowserView {
                pending_referenced_files: self.pending_referenced_files.insert(
                    file_id,
                    self.pending_referenced_files[file_id].remove(media_id),
                ),
                ..self
            };
            if self.completed_by(file_id, media_id) && text_below(
                self.obtained_text_files,
                file_id,
                256,
            ).is_some() {
                marked.deliver_state(file_id)
            } else {
                marked
            }
        }
    }

    /// What the controller is told when the media file `media_id` has been
    /// checked against the text file `file_id`.
    pub open spec fn resolve_one_actions(self, media_id: u8, file_id: u8) -> Seq<BrowserActionView> {
        if self.completed_by(file_id, media_id) && text_below(
            self.obtained_text_files,
            file_id,
            256,
        ).is_some() {
            self.deliver_actions(file_id, text_below(self.obtained_text_files, file_id, 256).unwrap())
        } else {
            Seq::empty()
        }
    }

    /// The state after the media file `media_id` has been checked against
    /// the text files with an id below `n`, in ascending order.
    pub open spec fn resolve(self, media_id: u8, n: nat) -> BrowserView
        decreases n,
    {
        if n == 0 {
            self
        } else {
            self.resolve(media_id, (n - 1) as nat).resolve_one(media_id, (n - 1) as u8)
        }
    }

    pub open spec fn resolve_actions(self, media_id: u8, n: nat) -> Seq<BrowserActionView>
        decreases n,
    {
        if n == 0 {
            Seq::empty()
        } else {
            self.resolve_actions(media_id, (n - 1) as nat) + self.resolve(
                media_id,
                (n - 1) as nat,
            ).resolve_one_actions(media_id, (n - 1) as u8)
        }
    }

    /// Some text file waits for the media file `media_id`.
    pub open spec fn is_reference(self, media_id: u8) -> bool {
        exists|file_id: u8| self.waits_for(file_id, media_id)
    }

    /// The state after a media file has come in: it is stored, and every
    /// text file that waited for it waits for it no more.
    pub open spec fn on_media_file(self, media_id: u8, media: Seq<u8>) -> BrowserView {
        BrowserView {
            obtained_media_files: self.obtained_media_files.insert(media_id, media),
            ..self
        }.resolve(media_id, 256)
    }

    /// What the controller is told when a media file has come in: the text
    /// files that it completes, or the media file itself where no text file
    /// waited for it.
    pub open spec fn media_file_actions(self, media_id: u8, media: Seq<u8>) -> Seq<BrowserActionView> {
        let stored = BrowserView {
            obtained_media_files: self.obtained_media_files.insert(media_id, media),
            ..self
        };
        if self.is_reference(media_id) {
            stored.resolve_actions(media_id, 256)
        } else {
            stored.resolve_actions(media_id, 256).push(
                BrowserActionView::Reply(ControllerMessageView::MediaFileResponse(media_id, media)),
            )
        }
    }

    /// The state after a list of files has come in from a server: it is
    /// kept if the server is known as a text or a media server.
    pub open spec fn on_file_list(self, server_id: NodeId, files: Seq<u8>) -> BrowserView {
        if !self.available_servers.contains_key(server_id) {
            self
        } else {
            match self.available_servers[server_id] {
                ServerType::Text => BrowserView {
                    available_text_files: self.available_text_files.insert(server_id, files),
                    ..self
                },
                ServerType::Media => BrowserView {
                    available_media_files: self.available_media_files.insert(server_id, files),
                    ..self
                },
                ServerType::Chat => self,
            }
        }
    }

    /// The state after a server has said what it offers: the topology
    /// records it, and a content server is known from then on, with no files
    /// yet.
    pub open spec fn on_server_type(self, server_id: NodeId, server_type: ServerType) -> BrowserView {
        let typed = BrowserView {
            client: ClientView {
                topology: self.client.topology.set_server_type(server_id, server_type),
                ..self.client
            },
            ..self
        };
        match server_type {
            ServerType::Text => BrowserView {
                available_servers: self.available_servers.insert(server_id, ServerType::Text),
                available_text_files: self.available_text_files.insert(server_id, Seq::empty()),
                ..typed
            },
            ServerType::Media => BrowserView {
                available_servers: self.available_servers.insert(server_id, ServerType::Media),
                available_media_files: self.available_media_files.insert(server_id, Seq::empty()),
                ..typed
            },
            ServerType::Chat => typed,
        }
    }

    /// The state after a response of the server `server_id` has come in.
    pub open spec fn handle_response(self, response: BrowserResponseWrapperView, server_id: NodeId) -> BrowserView {
        match response {
            BrowserResponseWrapperView::Chat(BrowserResponseView::FileList(files)) => self.on_file_list(
            server_id, files),
            BrowserResponseWrapperView::Chat(BrowserResponseView::TextFile(file_id, text)) => self.on_text_file(
            server_id, file_id, text),
            BrowserResponseWrapperView::Chat(BrowserResponseView::MediaFile(file_id, media)) => self.on_media_file(
            file_id, media),
            BrowserResponseWrapperView::ServerType(ServerTypeResponse::ServerType(t)) => self.on_server_type(
            server_id, t),
        }
    }

    /// What the caller is asked to do when a response has come in.
    pub open spec fn response_actions(self, response: BrowserResponseWrapperView, server_id: NodeId) -> Seq<
        BrowserActionView,
    > {
        match response {
            BrowserResponseWrapperView::Chat(BrowserResponseView::FileList(files)) => seq![
                BrowserActionView::Reply(ControllerMessageView::FileListResponse(server_id, files)),
            ],
            BrowserResponseWrapperView::Chat(BrowserResponseView::TextFile(file_id, text)) => self.text_file_actions(
            server_id, file_id, text),
            BrowserResponseWrapperView::Chat(BrowserResponseView::MediaFile(file_id, media)) => self.media_file_actions(
            file_id, media),
            BrowserResponseWrapperView::ServerType(ServerTypeResponse::ServerType(t)) => seq![
                BrowserActionView::Reply(ControllerMessageView::ServerTypeResponse(server_id, t)),
            ],
        }
    }

    /// The state after a command of the controller.
    pub open spec fn handle_command(self, command: CommandView, now: u128, ids: Ids, sessions: Seq<u64>) -> BrowserView {
        match command {
            CommandView::FloodRequest => BrowserView {
                client: self.client.send_flood_request(now, ids),
                ..self
            },
            CommandView::KnownServers => BrowserView {
                client: self.client.request_server_types(now, ids, sessions),
                ..self
            },
            CommandView::AddSender(n) => BrowserView {
                client: self.client.add_sender(n, now, ids),
                ..self
            },
            CommandView::RemoveSender(n) => BrowserView {
                client: self.client.remove_sender(n),
                ..self
            },
            CommandView::RequestServerType(s) => BrowserView {
                client: self.client.send_server_type_request(s, now, ids),
                ..self
            },
            CommandView::Shutdown => BrowserView {
                client: ClientView { running: false, ..self.client },
                ..self
            },
            _ => self,
        }
    }

    /// How many queries a command of the controller sends: one for every
    /// server whose type is not known where it asks for the known servers,
    /// none else.
    pub open spec fn command_queries(self, command: CommandView) -> nat {
        match command {
            CommandView::KnownServers => self.client.topology.untyped_servers().len(),
            _ => 0,
        }
    }

    /// What the caller is asked to do for a command of the controller.
    pub open spec fn command_actions(self, command: CommandView) -> Seq<BrowserActionView> {
        match command {
            CommandView::RequestFileList(server_id) => seq![
                BrowserActionView::Request {
                    server_id,
                    request: BrowserRequestWrapper::Chat(BrowserRequest::FileList),
                },
            ],
            CommandView::RequestTextFile(file_id, server_id) => seq![
                BrowserActionView::Request {
                    server_id,
                    request: BrowserRequestWrapper::Chat(BrowserRequest::TextFileRequest(file_id)),
                },
            ],
            CommandView::RequestMediaFile(file_id, server_id) => seq![
                media_request(server_id, file_id),
            ],
            CommandView::Topology => seq![
                BrowserActionView::Reply(
                    ControllerMessageView::TopologyResponse(self.client.topology),
                ),
            ],
            CommandView::KnownServers => seq![
                BrowserActionView::Reply(
                    ControllerMessageView::KnownServers(servers_below(self.available_servers, 256)),
                ),
            ],
            CommandView::SendMessage(_, _, _) => seq![BrowserActionView::Unhandled],
            CommandView::Register(_) => seq![BrowserActionView::Unhandled],
            CommandView::ClientList(_) => seq![BrowserActionView::Unhandled],
            CommandView::RegisteredServers => seq![BrowserActionView::Unhandled],
            _ => Seq::empty(),
        }
    }
}

/// A browser client.
pub struct BrowserClient {
    client: Client,
    available_text_files: Vec<Option<Vec<u8>>>,
    available_media_files: Vec<Option<Vec<u8>>>,
    obtained_text_files: Vec<Option<String>>,
    obtained_media_files: Vec<Option<Vec<u8>>>,
    available_servers: Vec<Option<ServerType>>,
    pending_referenced_files: IdSets,
    references_files: IdSets,
}

/// Where the text file `file_id` of the server `server_id` is kept.
pub open spec fn slot(server_id: NodeId, file_id: u8) -> int {
    server_id as int * 256 + file_id as int
}

impl View for BrowserClient {
    type V = BrowserView;

    closed spec fn view(&self) -> BrowserView {
        BrowserView {
            client: self.client@,
            available_text_files: Map::new(
                |s: NodeId| self.available_text_files@[s as int].is_some(),
                |s: NodeId| self.available_text_files@[s as int].unwrap()@,
            ),
            available_media_files: Map::new(
                |s: NodeId| self.available_media_files@[s as int].is_some(),
                |s: NodeId| self.available_media_files@[s as int].unwrap()@,
            ),
            obtained_text_files: Map::new(
                |k: (NodeId, u8)| self.obtained_text_files@[slot(k.0, k.1)].is_some(),
                |k: (NodeId, u8)| self.obtained_text_files@[slot(k.0, k.1)].unwrap()@,
            ),
            obtained_media_files: Map::new(
                |f: u8| self.obtained_media_files@[f as int].is_some(),
                |f: u8| self.obtained_media_files@[f as int].unwrap()@,
            ),
            available_servers: Map::new(
                |s: NodeId| self.available_servers@[s as int].is_some(),
                |s: NodeId| self.available_servers@[s as int].unwrap(),
            ),
            pending_referenced_files: self.pending_referenced_files@,
            references_files: self.references_files@,
        }
    }
}

/// A table with `n` empty places.
fn empty_files(n: usize) -> (table: Vec<Option<Vec<u8>>>)
    ensures
        table@.len() == n,
        forall|k: int| 0 <= k < n ==> table@[k].is_none(),
{
    let mut table: Vec<Option<Vec<u8>>> = Vec::new();
    let mut j: usize = 0;
    while j < n
        invariant
            j <= n,
            table@.len() == j,
            forall|k: int| 0 <= k < j ==> table@[k].is_none(),
        decreases n - j,
    {
        table.push(None);
        j += 1;
    }
    table
}

/// A table with `n` empty places.
fn empty_texts(n: usize) -> (table: Vec<Option<String>>)
    ensures
        table@.len() == n,
        forall|k: int| 0 <= k < n ==> table@[k].is_none(),
{
    let mut table: Vec<Option<String>> = Vec::new();
    let mut j: usize = 0;
    while j < n
        invariant
            j <= n,
            table@.len() == j,
            forall|k: int| 0 <= k < j ==> table@[k].is_none(),
        decreases n - j,
    {
        table.push(None);
        j += 1;
    }
    table
}

impl BrowserClient {
    pub closed spec fn sized(self) -> bool {
        &&& self.client.wf()
        &&& self.available_text_files@.len() == 256
        &&& self.available_media_files@.len() == 256
        &&& self.obtained_text_files@.len() == 65536
        &&& self.obtained_media_files@.len() == 256
        &&& self.available_servers@.len() == 256
        &&& self.pending_referenced_files.wf()
        &&& self.references_files.wf()
    }

    pub open spec fn wf(self) -> bool {
        self.sized() && self@.wf()
    }

    /// A browser that knows nothing yet but its neighbours and the payload
    /// that asks a server what it offers.
    pub fn new(client_id: NodeId, neighbors: Vec<NodeId>, server_type_request: Vec<u8>) -> (browser:
        BrowserClient)
        ensures
            browser.wf(),
            browser@ == (BrowserView {
                client: ClientView::init(
                    client_id,
                    crate::client::distinct(neighbors@),
                    server_type_request@,
                ),
                available_text_files: Map::empty(),
                available_media_files: Map::empty(),
                obtained_text_files: Map::empty(),
                obtained_media_files: Map::empty(),
                available_servers: Map::empty(),
                pending_referenced_files: Map::empty(),
                references_files: Map::empty(),
            }),
    {
        let browser = BrowserClient {
            client: Client::new(client_id, neighbors, server_type_request),
            available_text_files: empty_files(256),
            available_media_files: empty_files(256),
            obtained_text_files: empty_texts(65536),
            obtained_media_files: empty_files(256),
            available_servers: vec![None; 256],
            pending_referenced_files: IdSets::new(),
            references_files: IdSets::new(),
        };
        proof {
            assert(browser@.available_text_files =~= Map::<NodeId, Seq<u8>>::empty());
            assert(browser@.available_media_files =~= Map::<NodeId, Seq<u8>>::empty());
            assert(browser@.obtained_text_files =~= Map::<(NodeId, u8), Seq<char>>::empty());
            assert(browser@.obtained_media_files =~= Map::<u8, Seq<u8>>::empty());
            assert(browser@.available_servers =~= Map::<NodeId, ServerType>::empty());
        }
        browser
    }

    pub fn client(&self) -> (client: &Client)
        ensures
            client@ == self@.client,
            self.wf() ==> client.wf(),
    {
        &self.client
    }

    /// The transport, to drive it. The browser is in order again once the
    /// transport is.
    pub fn client_mut(&mut self) -> (client: &mut Client)
        ensures
            client@ == old(self)@.client,
            old(self).wf() ==> client.wf(),
            final(self)@ == (BrowserView { client: final(client)@, ..old(self)@ }),
            old(self).wf() && final(client).wf() ==> final(self).wf(),
    {
        &mut self.client
    }

    /// The ids of the files of a text server, if the browser knows it as
    /// one.
    pub fn get_available_text_files(&self, server_id: NodeId) -> (files: Option<Vec<u8>>)
        requires
            self.wf(),
        ensures
            files.is_some() == self@.available_text_files.contains_key(server_id),
            files.is_some() ==> files.unwrap()@ == self@.available_text_files[server_id],
    {
        match &self.available_text_files[server_id as usize] {
            Some(files) => Some(copy_bytes(files)),
            None => None,
        }
    }

    /// The ids of the files of a media server, if the browser knows it as
    /// one.
    pub fn get_available_media_files(&self, server_id: NodeId) -> (files: Option<Vec<u8>>)
        requires
            self.wf(),
        ensures
            files.is_some() == self@.available_media_files.contains_key(server_id),
            files.is_some() ==> files.unwrap()@ == self@.available_media_files[server_id],
    {
        match &self.available_media_files[server_id as usize] {
            Some(files) => Some(copy_bytes(files)),
            None => None,
        }
    }

    /// The text file `file_id` as obtained from the server `server_id`.
    pub fn get_obtained_text_files(&self, server_id: NodeId, file_id: u8) -> (text: Option<String>)
        requires
            self.wf(),
        ensures
            text.is_some() == self@.obtained_text_files.contains_key((server_id, file_id)),
            text.is_some() ==> text.unwrap()@ == self@.obtained_text_files[(server_id, file_id)],
    {
        match &self.obtained_text_files[server_id as usize * 256 + file_id as usize] {
            Some(text) => Some(text.clone()),
            None => None,
        }
    }

    /// The media file obtained under the id `file_id`.
    pub fn get_obtained_media_files(&self, file_id: u8) -> (media: Option<Vec<u8>>)
        requires
            self.wf(),
        ensures
            media.is_some() == self@.obtained_media_files.contains_key(file_id),
            media.is_some() ==> media.unwrap()@ == self@.obtained_media_files[file_id],
    {
        match &self.obtained_media_files[file_id as usize] {
            Some(media) => Some(copy_bytes(media)),
            None => None,
        }
    }

    /// The content servers whose type the browser knows, in ascending order
    /// of their ids.
    pub fn get_available_servers(&self) -> (servers: Vec<(NodeId, ServerType)>)
        requires
            self.wf(),
        ensures
            servers@ == servers_below(self@.available_servers, 256),
    {
        let mut servers: Vec<(NodeId, ServerType)> = Vec::new();
        let mut j: usize = 0;
        while j < 256
            invariant
                j <= 256,
                self.wf(),
                servers@ == servers_below(self@.available_servers, j as nat),
            decreases 256 - j,
        {
            match self.available_servers[j] {
                Some(t) => {
                    servers.push((j as u8, t));
                },
                None => {},
            }
            j += 1;
        }
        servers
    }

    /// The request for a text file of a server.
    pub fn request_text_file(&self, file_id: u8, server_id: NodeId) -> (action: BrowserAction)
        ensures
            action@ == (BrowserActionView::Request {
                server_id,
                request: BrowserRequestWrapper::Chat(BrowserRequest::TextFileRequest(file_id)),
            }),
    {
        BrowserAction::Request {
            server_id,
            request: BrowserRequestWrapper::Chat(BrowserRequest::TextFileRequest(file_id)),
        }
    }

    /// The request for a media file of a server.
    pub fn request_media_file(&self, file_id: u8, server_id: NodeId) -> (action: BrowserAction)
        ensures
            action@ == media_request(server_id, file_id),
    {
        BrowserAction::Request {
            server_id,
            request: BrowserRequestWrapper::Chat(BrowserRequest::MediaFileRequest(file_id)),
        }
    }

    /// The request for the list of the files of a server.
    pub fn request_file_list(&self, server_id: NodeId) -> (action: BrowserAction)
        ensures
            action@ == (BrowserActionView::Request {
                server_id,
                request: BrowserRequestWrapper::Chat(BrowserRequest::FileList),
            }),
    {
        BrowserAction::Request {
            server_id,
            request: BrowserRequestWrapper::Chat(BrowserRequest::FileList),
        }
    }

    /// Sends a request, written out as a payload, to a server.
    pub fn transmit(&mut self, server_id: NodeId, payload: Vec<u8>, now: u128, ids: Ids)
        requires
            old(self).wf(),
        ensures
            final(self).wf(),
            final(self)@ == (BrowserView {
                client: old(self)@.client.send_message(server_id, payload@, now, ids),
                ..old(self)@
            }),
    {
        self.client.send_message(server_id, payload, now, ids);
    }

    /// Takes in a packet from a drone: see
    /// [`Client::on_drone_packet_received`].
    pub fn on_drone_packet_received(&mut self, packet: Packet, now: u128, ids: Ids) -> (received:
        Received)
        requires
            old(self).wf(),
        ensures
            final(self).wf(),
            final(self)@ == (BrowserView {
                client: old(self)@.client.on_drone_packet_received(
                    packet@,
                    now,
                    ids,
                    received.queries@,
                ),
                ..old(self)@
            }),
            match packet@.pack_type {
                crate::packet::PacketTypeView::MsgFragment(fragment) => match received.delivered {
                    Some((source, payload)) => old(self)@.client.delivered_by(packet@, fragment)
                        == Some((source, payload@)),
                    None => old(self)@.client.delivered_by(packet@, fragment).is_none(),
                },
                _ => received.delivered.is_none(),
            },
            match packet@.pack_type {
                crate::packet::PacketTypeView::FloodResponse { flood_id, path_trace } => {
                    &&& received.queries@.len() == path_trace.len()
                    &&& forall|k: int|
                        0 <= k < path_trace.len() ==> (#[trigger] received.queries@[k]).is_some()
                            == old(self)@.client.noticed(packet.session_id).queried_at(
                            path_trace,
                            now,
                            ids,
                            received.queries@,
                            k,
                        )
                },
                _ => received.queries@.len() == 0,
            },
            received.error == old(self)@.client.protocol_error(packet@),
    {
        self.client.on_drone_packet_received(packet, now, ids)
    }

    fn media_server(&self) -> (server: Option<NodeId>)
        requires
            self.wf(),
        ensures
            server == media_server_below(self@.available_servers, 256),
    {
        let mut server: Option<NodeId> = None;
        let mut j: usize = 0;
        while j < 256
            invariant
                j <= 256,
                self.wf(),
                server == media_server_below(self@.available_servers, j as nat),
            decreases 256 - j,
        {
            if server.is_none() {
                match self.available_servers[j] {
                    Some(ServerType::Media) => {
                        server = Some(j as u8);
                    },
                    _ => {},
                }
            }
            j += 1;
        }
        server
    }

    fn text_for(&self, file_id: u8) -> (text: Option<String>)
        requires
            self.wf(),
        ensures
            text.is_some() == text_below(self@.obtained_text_files, file_id, 256).is_some(),
            text.is_some() ==> text.unwrap()@ == text_below(
                self@.obtained_text_files,
                file_id,
                256,
            ).unwrap(),
    {
        let mut text: Option<String> = None;
        let mut j: usize = 0;
        while j < 256
            invariant
                j <= 256,
                self.wf(),
                text.is_some() == text_below(self@.obtained_text_files, file_id, j as nat).is_some(),
                text.is_some() ==> text.unwrap()@ == text_below(
                    self@.obtained_text_files,
                    file_id,
                    j as nat,
                ).unwrap(),
            decreases 256 - j,
        {
            if text.is_none() {
                match &self.obtained_text_files[j * 256 + file_id as usize] {
                    Some(t) => {
                        assert(self@.obtained_text_files.contains_key((j as NodeId, file_id)));
                        text = Some(t.clone());
                    },
                    None => {
                        assert(!self@.obtained_text_files.contains_key((j as NodeId, file_id)));
                    },
                }
            }
            j += 1;
        }
        text
    }

    /// Passes a text file on to the controller with the media files it
    /// refers to: see [`BrowserView::deliver_state`] and
    /// [`BrowserView::deliver_actions`].
    fn send_text_file_with_references(
        &mut self,
        file_id: u8,
        text: &String,
        actions: &mut Vec<BrowserAction>,
    )
        requires
            old(self).wf(),
        ensures
            final(self).wf(),
            final(self)@ == old(self)@.deliver_state(file_id),
            browser_action_views(final(actions)@) == browser_action_views(old(actions)@) + old(
                self,
            )@.deliver_actions(file_id, text@),
    {
        let ids = self.references_files.members(file_id);
        let mut attached: Vec<(u8, Vec<u8>)> = Vec::new();
        let n: usize = ids.len();
        let mut i: usize = 0;
        while i < n
            invariant
                i <= n,
                n == ids@.len(),
                self.wf(),
                attached@.len() == i,
                media_views(attached@) == attach(
                    self@.obtained_media_files,
                    ids@.subrange(0, i as int),
                ),
            decreases n - i,
        {
            let id = ids[i];
            let media = match &self.obtained_media_files[id as usize] {
                Some(media) => copy_bytes(media),
                None => Vec::new(),
            };
            let ghost earlier = attached@;
            let ghost file = media@;
            attached.push((id, media));
            proof {
                let shorter = attach(self@.obtained_media_files, ids@.subrange(0, i as int));
                let longer = attach(self@.obtained_media_files, ids@.subrange(0, i + 1));
                assert forall|k: int| 0 <= k < i + 1 implies media_views(attached@)[k]
                    == longer[k] by {
                    if k < i {
                        assert(media_views(attached@)[k] == media_views(earlier)[k]);
                        assert(shorter[k] == longer[k]);
                    } else {
                        assert(media_views(attached@)[k] == (id, file));
                    }
                }
                assert(media_views(attached@) =~= longer);
            }
            i += 1;
        }
        proof {
            assert(ids@.subrange(0, n as int) =~= ids@);
        }
        self.pending_referenced_files.remove(file_id);
        self.references_files.remove(file_id);
        if attached.len() > 0 {
            actions.push(
                BrowserAction::Reply(
                    SimControllerMessage::TextWithReferences(file_id, text.clone(), attached),
                ),
            );
            proof {
                assert(browser_action_views(actions@) =~= browser_action_views(old(actions)@) + old(
                    self,
                )@.deliver_actions(file_id, text@));
            }
        } else {
            proof {
                assert(browser_action_views(actions@) =~= browser_action_views(old(actions)@) + old(
                    self,
                )@.deliver_actions(file_id, text@));
            }
        }
    }

    /// Checks a media file that has come in against every text file that
    /// waits: see [`BrowserView::resolve`].
    fn check_referenced_media_received(&mut self, media_id: u8, actions: &mut Vec<BrowserAction>) -> (is_reference:
        bool)
        requires
            old(self).wf(),
        ensures
            final(self).wf(),
            final(self)@ == old(self)@.resolve(media_id, 256),
            browser_action_views(final(actions)@) == browser_action_views(old(actions)@) + old(
                self,
            )@.resolve_actions(media_id, 256),
            is_reference == old(self)@.is_reference(media_id),
    {
        let mut is_reference = false;
        let mut f: usize = 0;
        proof {
            assert(browser_action_views(actions@) =~= browser_action_views(old(actions)@) + old(
                self,
            )@.resolve_actions(media_id, 0));
        }
        while f < 256
            invariant
                f <= 256,
                self.wf(),
                self@ == old(self)@.resolve(media_id, f as nat),
                browser_action_views(actions@) == browser_action_views(old(actions)@) + old(
                    self,
                )@.resolve_actions(media_id, f as nat),
                is_reference == (exists|g: u8| g < f && old(self)@.waits_for(g, media_id)),
                forall|g: u8|
                    g >= f ==> set_of(self@.pending_referenced_files, g) == set_of(
                        old(self)@.pending_referenced_files,
                        g,
                    ),
            decreases 256 - f,
        {
            let file_id: u8 = f as u8;
            let ghost before = self@;
            let ghost told = browser_action_views(actions@);
            let ghost was = is_reference;
            assert(set_of(before.pending_referenced_files, file_id) == set_of(
                old(self)@.pending_referenced_files,
                file_id,
            ));
            if self.pending_referenced_files.contains(file_id, media_id) {
                is_reference = true;
                self.pending_referenced_files.remove_member(file_id, media_id);
                let rest = self.pending_referenced_files.members(file_id);
                proof {
                    crate::idsets::lemma_no_members(
                        before.pending_referenced_files[file_id].remove(media_id),
                        256,
                    );
                }
                let mut delivered = false;
                if rest.len() == 0 {
                    match self.text_for(file_id) {
                        Some(text) => {
                            self.send_text_file_with_references(file_id, &text, actions);
                            delivered = true;
                            proof {
                                assert(self@.pending_referenced_files =~= before.resolve_one(
                                    media_id,
                                    file_id,
                                ).pending_referenced_files);
                            }
                        },
                        None => {},
                    }
                }
                proof {
                    assert(before.waits_for(file_id, media_id));
                    assert(self@ =~= before.resolve_one(media_id, file_id));
                    if delivered {
                        let marked = BrowserView {
                            pending_referenced_files: before.pending_referenced_files.insert(
                                file_id,
                                before.pending_referenced_files[file_id].remove(media_id),
                            ),
                            ..before
                        };
                        assert(marked.deliver_actions(
                            file_id,
                            text_below(before.obtained_text_files, file_id, 256).unwrap(),
                        ) == before.resolve_one_actions(media_id, file_id));
                    } else {
                        assert(browser_action_views(actions@) =~= told + before.resolve_one_actions(
                            media_id,
                            file_id,
                        ));
                    }
                }
            } else {
                proof {
                    assert(browser_action_views(actions@) =~= told + before.resolve_one_actions(
                        media_id,
                        file_id,
                    ));
                }
            }
            proof {
                assert(is_reference == (exists|g: u8| g < f + 1 && old(self)@.waits_for(g, media_id))) by {
                    if was {
                        let g = choose|g: u8| g < f && old(self)@.waits_for(g, media_id);
                        assert(g < f + 1 && old(self)@.waits_for(g, media_id));
                    }
                    if old(self)@.waits_for(file_id, media_id) {
                        assert(file_id < f + 1);
                    }
                    if exists|g: u8| g < f + 1 && old(self)@.waits_for(g, media_id) {
                        let g = choose|g: u8| g < f + 1 && old(self)@.waits_for(g, media_id);
                        if g < f {
                            assert(was);
                        }
                    }
                }
                assert(browser_action_views(actions@) =~= browser_action_views(old(actions)@) + old(
                    self,
                )@.resolve_actions(media_id, (f + 1) as nat));
            }
            f += 1;
        }
        proof {
            if is_reference {
                let g = choose|g: u8| g < 256 && old(self)@.waits_for(g, media_id);
                assert(old(self)@.waits_for(g, media_id));
            }
        }
        is_reference
    }

    /// Records what a stored text file refers to, and asks for what is not
    /// there yet: see [`BrowserView::on_text_file`].
    fn send_referenced_files_requests(&mut self, text: &String, file_id: u8, actions: &mut Vec<BrowserAction>)
        requires
            old(self).wf(),
            old(actions)@.len() == 0,
        ensures
            final(self).wf(),
            final(self)@ == if !old(self)@.resolves(text@) {
                old(self)@
            } else if old(self)@.reference_requests(file_id, text@).len() > 0 {
                old(self)@.noted(file_id, text@)
            } else {
                old(self)@.noted(file_id, text@).deliver_state(file_id)
            },
            browser_action_views(final(actions)@) == if encode_utf8(text@).len() == 0 {
                Seq::<BrowserActionView>::empty()
            } else if !has_references(encode_utf8(text@)) {
                seq![
                    BrowserActionView::Reply(ControllerMessageView::TextFileResponse(file_id, text@)),
                ]
            } else if !old(self)@.resolves(text@) {
                Seq::<BrowserActionView>::empty()
            } else if old(self)@.reference_requests(file_id, text@).len() > 0 {
                old(self)@.reference_requests(file_id, text@)
            } else {
                old(self)@.noted(file_id, text@).deliver_actions(file_id, text@)
            },
    {
        let bytes = text.as_str().as_bytes();
        assert(bytes@ == encode_utf8(text@));
        let references = parse_references(bytes);
        if bytes.len() == 0 {
            proof {
                assert(browser_action_views(actions@) =~= Seq::<BrowserActionView>::empty());
            }
            return ;
        }
        let ids = match references {
            Some(ids) => ids,
            None => {
                actions.push(
                    BrowserAction::Reply(SimControllerMessage::TextFileResponse(file_id, text.clone())),
                );
                proof {
                    assert(browser_action_views(actions@) =~= seq![
                        BrowserActionView::Reply(
                            ControllerMessageView::TextFileResponse(file_id, text@),
                        ),
                    ]);
                }
                return ;
            },
        };
        let server_id = match self.media_server() {
            Some(server_id) => server_id,
            None => {
                proof {
                    assert(browser_action_views(actions@) =~= Seq::<BrowserActionView>::empty());
                }
                return ;
            },
        };
        self.pending_referenced_files.insert_empty(file_id);
        let ghost opened = self@;
        let n: usize = ids.len();
        let mut i: usize = 0;
        proof {
            assert(browser_action_views(actions@) =~= opened.requests_for(
                server_id,
                ids@.subrange(0, 0),
            ));
        }
        while i < n
            invariant
                i <= n,
                n == ids@.len(),
                self.wf(),
                self@ == opened.refer(file_id, ids@.subrange(0, i as int)),
                browser_action_views(actions@) == opened.requests_for(
                    server_id,
                    ids@.subrange(0, i as int),
                ),
            decreases n - i,
        {
            let id = ids[i];
            let ghost before = self@;
            let ghost told = browser_action_views(actions@);
            proof {
                let longer = ids@.subrange(0, i + 1);
                assert(longer.drop_last() =~= ids@.subrange(0, i as int));
                assert(longer.last() == id);
                lemma_refer_keeps_media(opened, file_id, ids@.subrange(0, i as int));
            }
            self.references_files.add(file_id, id);
            if self.obtained_media_files[id as usize].is_none() {
                self.pending_referenced_files.add(file_id, id);
                actions.push(self.request_media_file(id, server_id));
                proof {
                    assert(browser_action_views(actions@) =~= told.push(
                        media_request(server_id, id),
                    ));
                }
            } else {
                proof {
                    assert(browser_action_views(actions@) =~= told);
                }
            }
            i += 1;
        }
        proof {
            assert(ids@.subrange(0, n as int) =~= ids@);
            lemma_refer_keeps_media(
                BrowserView {
                    pending_referenced_files: old(self)@.pending_referenced_files.insert(
                        file_id,
                        Set::empty(),
                    ),
                    ..old(self)@
                },
                file_id,
                ids@,
            );
            lemma_requests_same(old(self)@, opened, server_id, ids@);
            lemma_requests_same(old(self)@, old(self)@.noted(file_id, text@), server_id, ids@);
        }
        if actions.len() == 0 {
            self.send_text_file_with_references(file_id, text, actions);
            proof {
                assert(browser_action_views(actions@) =~= old(self)@.noted(
                    file_id,
                    text@,
                ).deliver_actions(file_id, text@));
            }
        }
    }

    /// Takes in a response of the server `server_id`: see
    /// [`BrowserView::handle_response`] for what it does to the state and
    /// [`BrowserView::response_actions`] for what it asks the caller to do.
    pub fn handle_response(&mut self, response: BrowserResponseWrapper, server_id: NodeId) -> (actions:
        Vec<BrowserAction>)
        requires
            old(self).wf(),
        ensures
            final(self).wf(),
            final(self)@ == old(self)@.handle_response(response@, server_id),
            browser_action_views(actions@) == old(self)@.response_actions(response@, server_id),
    {
        let mut actions: Vec<BrowserAction> = Vec::new();
        match response {
            BrowserResponseWrapper::Chat(BrowserResponse::FileList(files)) => {
                match self.available_servers[server_id as usize] {
                    Some(ServerType::Text) => {
                        self.available_text_files[server_id as usize] = Some(copy_bytes(&files));
                        proof {
                            assert(self@.available_text_files =~= old(
                                self,
                            )@.available_text_files.insert(server_id, files@));
                        }
                    },
                    Some(ServerType::Media) => {
                        self.available_media_files[server_id as usize] = Some(copy_bytes(&files));
                        proof {
                            assert(self@.available_media_files =~= old(
                                self,
                            )@.available_media_files.insert(server_id, files@));
                        }
                    },
                    _ => {},
                }
                actions.push(
                    BrowserAction::Reply(SimControllerMessage::FileListResponse(server_id, files)),
                );
                proof {
                    assert(browser_action_views(actions@) =~= old(self)@.response_actions(
                        response@,
                        server_id,
                    ));
                }
            },
            BrowserResponseWrapper::Chat(BrowserResponse::TextFile(file_id, text)) => {
                self.obtained_text_files[server_id as usize * 256 + file_id as usize] = Some(
                    text.clone(),
                );
                proof {
                    assert forall|k: (NodeId, u8)| slot(k.0, k.1) == slot(server_id, file_id) <==> k
                        == (server_id, file_id) by {}
                    assert(self@.obtained_text_files =~= old(self)@.obtained_text_files.insert(
                        (server_id, file_id),
                        text@,
                    ));
                    assert(self@ =~= old(self)@.stored(server_id, file_id, text@));
                }
                self.send_referenced_files_requests(&text, file_id, &mut actions);
            },
            BrowserResponseWrapper::Chat(BrowserResponse::MediaFile(file_id, media)) => {
                self.obtained_media_files[file_id as usize] = Some(copy_bytes(&media));
                proof {
                    assert(self@.obtained_media_files =~= old(self)@.obtained_media_files.insert(
                        file_id,
                        media@,
                    ));
                    assert(browser_action_views(actions@) =~= Seq::<BrowserActionView>::empty());
                }
                let ghost stored = self@;
                let is_reference = self.check_referenced_media_received(file_id, &mut actions);
                proof {
                    assert(browser_action_views(actions@) =~= stored.resolve_actions(file_id, 256));
                    assert(stored.is_reference(file_id) == old(self)@.is_reference(file_id)) by {
                        if stored.is_reference(file_id) {
                            let g = choose|g: u8| stored.waits_for(g, file_id);
                            assert(old(self)@.waits_for(g, file_id));
                        }
                        if old(self)@.is_reference(file_id) {
                            let g = choose|g: u8| old(self)@.waits_for(g, file_id);
                            assert(stored.waits_for(g, file_id));
                        }
                    }
                }
                if !is_reference {
                    let ghost told = browser_action_views(actions@);
                    actions.push(
                        BrowserAction::Reply(SimControllerMessage::MediaFileResponse(file_id, media)),
                    );
                    proof {
                        assert(browser_action_views(actions@) =~= told.push(
                            BrowserActionView::Reply(
                                ControllerMessageView::MediaFileResponse(file_id, media@),
                            ),
                        ));
                    }
                }
            },
            BrowserResponseWrapper::ServerType(ServerTypeResponse::ServerType(server_type)) => {
                self.client.topology_mut().set_server_type(server_id, server_type);
                match server_type {
                    ServerType::Text => {
                        self.available_servers[server_id as usize] = Some(ServerType::Text);
                        self.available_text_files[server_id as usize] = Some(Vec::new());
                        proof {
                            assert(self@.available_servers =~= old(self)@.available_servers.insert(
                                server_id,
                                ServerType::Text,
                            ));
                            assert(self@.available_text_files =~= old(
                                self,
                            )@.available_text_files.insert(server_id, Seq::empty()));
                        }
                    },
                    ServerType::Media => {
                        self.available_servers[server_id as usize] = Some(ServerType::Media);
                        self.available_media_files[server_id as usize] = Some(Vec::new());
                        proof {
                            assert(self@.available_servers =~= old(self)@.available_servers.insert(
                                server_id,
                                ServerType::Media,
                            ));
                            assert(self@.available_media_files =~= old(
                                self,
                            )@.available_media_files.insert(server_id, Seq::empty()));
                        }
                    },
                    ServerType::Chat => {},
                }
                actions.push(
                    BrowserAction::Reply(
                        SimControllerMessage::ServerTypeResponse(server_id, server_type),
                    ),
                );
                proof {
                    assert(browser_action_views(actions@) =~= old(self)@.response_actions(
                        response@,
                        server_id,
                    ));
                }
            },
        }
        actions
    }

    /// Carries out a command of the controller: see
    /// [`BrowserView::handle_command`] for what it does to the state and
    /// [`BrowserView::command_actions`] for what it asks the caller to do.
    /// Hands back the actions, and the sessions of the queries it sent.
    pub fn handle_controller_commands(&mut self, command: SimControllerCommand, now: u128, ids: Ids) -> (outcome:
        (Vec<BrowserAction>, Vec<u64>))
        requires
            old(self).wf(),
        ensures
            final(self).wf(),
            final(self)@ == old(self)@.handle_command(command@, now, ids, outcome.1@),
            browser_action_views(outcome.0@) == old(self)@.command_actions(command@),
            outcome.1@.len() == old(self)@.command_queries(command@),
    {
        let mut actions: Vec<BrowserAction> = Vec::new();
        let mut sessions: Vec<u64> = Vec::new();
        match command {
            SimControllerCommand::RequestFileList(server_id) => {
                actions.push(self.request_file_list(server_id));
            },
            SimControllerCommand::RequestTextFile(file_id, server_id) => {
                actions.push(self.request_text_file(file_id, server_id));
            },
            SimControllerCommand::RequestMediaFile(file_id, server_id) => {
                actions.push(self.request_media_file(file_id, server_id));
            },
            SimControllerCommand::FloodRequest => {
                self.client.send_flood_request(now, ids);
            },
            SimControllerCommand::Topology => {
                actions.push(
                    BrowserAction::Reply(
                        SimControllerMessage::TopologyResponse(self.client.topology().clone()),
                    ),
                );
            },
            SimControllerCommand::KnownServers => {
                actions.push(
                    BrowserAction::Reply(
                        SimControllerMessage::KnownServers(self.get_available_servers()),
                    ),
                );
                sessions = self.client.request_server_types(now, ids);
            },
            SimControllerCommand::AddSender(neighbor) => {
                self.client.add_sender(neighbor, now, ids);
            },
            SimControllerCommand::RemoveSender(neighbor) => {
                self.client.remove_sender(neighbor);
            },
            SimControllerCommand::RequestServerType(server_id) => {
                self.client.send_server_type_request(server_id, now, ids);
            },
            SimControllerCommand::Shutdown => {
                self.client.stop();
            },
            SimControllerCommand::SendMessage(_, _, _) => {
                actions.push(BrowserAction::Unhandled);
            },
            SimControllerCommand::Register(_) => {
                actions.push(BrowserAction::Unhandled);
            },
            SimControllerCommand::ClientList(_) => {
                actions.push(BrowserAction::Unhandled);
            },
            SimControllerCommand::RegisteredServers => {
                actions.push(BrowserAction::Unhandled);
            },
        }
        proof {
            assert(browser_action_views(actions@) =~= old(self)@.command_actions(command@));
        }
        (actions, sessions)
    }
}

/// Recording references leaves everything but the references and what is
/// waited for as it is.
pub proof fn lemma_refer_keeps_media(b: BrowserView, file_id: u8, ids: Seq<u8>)
    ensures
        b.refer(file_id, ids).obtained_media_files == b.obtained_media_files,
        b.refer(file_id, ids).obtained_text_files == b.obtained_text_files,
        b.refer(file_id, ids).available_servers == b.available_servers,
        b.refer(file_id, ids).available_text_files == b.available_text_files,
        b.refer(file_id, ids).available_media_files == b.available_media_files,
        b.refer(file_id, ids).client == b.client,
    decreases ids.len(),
{
    if ids.len() > 0 {
        lemma_refer_keeps_media(b, file_id, ids.drop_last());
    }
}

/// Which media files are asked for depends on the media files obtained
/// only.
pub proof fn lemma_requests_same(a: BrowserView, b: BrowserView, server_id: NodeId, ids: Seq<u8>)
    requires
        a.obtained_media_files == b.obtained_media_files,
    ensures
        a.requests_for(server_id, ids) == b.requests_for(server_id, ids),
    decreases ids.len(),
{
    if ids.len() > 0 {
        lemma_requests_same(a, b, server_id, ids.drop_last());
    }
}

} // verus!
