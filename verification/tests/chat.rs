use rustafarian_client::assembler::Assembler;
use rustafarian_client::chat_client::{ChatAction, ChatClient};
use rustafarian_client::client::Client;
use rustafarian_client::disassembler::Disassembler;
use rustafarian_client::message::{
    ChatRequest, ChatRequestWrapper, ChatResponse, ChatResponseWrapper, ServerType,
    ServerTypeRequest, ServerTypeResponse, SimControllerCommand, SimControllerMessage,
};
use rustafarian_client::model::{ClientEvent, Ids};
use rustafarian_client::packet::{
    Ack, FloodRequest, FloodResponse, Fragment, Nack, NackType, NodeType, Packet, PacketKind,
    PacketType, SourceRoutingHeader,
};

const NOW: u128 = 1_000_000;

fn ids(session_id: u64) -> Ids {
    Ids { session_id, flood_id: session_id + 1_000, flood_session_id: session_id + 2_000 }
}

fn server_type_query() -> Vec<u8> {
    b"{\"ServerType\":\"ServerType\"}".to_vec()
}

/// Writes a request out as the payload that goes to the server.
fn stringify(request: &ChatRequestWrapper) -> String {
    match request {
        ChatRequestWrapper::Chat(ChatRequest::ClientList) => "{\"Chat\":\"ClientList\"}".to_string(),
        ChatRequestWrapper::Chat(ChatRequest::Register(id)) => {
            format!("{{\"Chat\":{{\"Register\":{}}}}}", id)
        }
        ChatRequestWrapper::Chat(ChatRequest::SendMessage { from, to, message }) => format!(
            "{{\"Chat\":{{\"SendMessage\":{{\"from\":{},\"to\":{},\"message\":{}}}}}}}",
            from,
            to,
            serde_json::to_string(message).unwrap()
        ),
        ChatRequestWrapper::ServerType(ServerTypeRequest::ServerType) => {
            "{\"ServerType\":\"ServerType\"}".to_string()
        }
    }
}

/// Writes a response out as the payload that a server sends.
fn stringify_response(response: &ChatResponseWrapper) -> String {
    match response {
        ChatResponseWrapper::Chat(ChatResponse::ClientList(list)) => {
            format!("{{\"Chat\":{{\"ClientList\":{}}}}}", serde_json::to_string(list).unwrap())
        }
        ChatResponseWrapper::Chat(ChatResponse::MessageFrom { from, message }) => format!(
            "{{\"Chat\":{{\"MessageFrom\":{{\"from\":{},\"message\":{}}}}}}}",
            from,
            serde_json::to_string(message).unwrap()
        ),
        ChatResponseWrapper::Chat(ChatResponse::MessageSent) => {
            "{\"Chat\":\"MessageSent\"}".to_string()
        }
        ChatResponseWrapper::Chat(ChatResponse::ClientRegistered) => {
            "{\"Chat\":\"ClientRegistered\"}".to_string()
        }
        ChatResponseWrapper::ServerType(ServerTypeResponse::ServerType(t)) => {
            format!("{{\"ServerType\":{{\"ServerType\":\"{:?}\"}}}}", t)
        }
    }
}

fn bytes_of(value: &serde_json::Value) -> Option<Vec<u8>> {
    let mut out = Vec::new();
    for item in value.as_array()? {
        out.push(u8::try_from(item.as_u64()?).ok()?);
    }
    Some(out)
}

/// Reads a response from the payload that a server sent.
fn from_string(raw: &str) -> Result<ChatResponseWrapper, String> {
    let value: serde_json::Value = serde_json::from_str(raw).map_err(|e| e.to_string())?;
    let bad = || "unknown response".to_string();
    if let Some(inner) = value.get("ServerType") {
        let name = inner.get("ServerType").and_then(|t| t.as_str()).ok_or_else(bad)?;
        let server_type = match name {
            "Chat" => ServerType::Chat,
            "Text" => ServerType::Text,
            "Media" => ServerType::Media,
            _ => return Err(bad()),
        };
        return Ok(ChatResponseWrapper::ServerType(ServerTypeResponse::ServerType(server_type)));
    }
    let chat = value.get("Chat").ok_or_else(bad)?;
    if let Some(name) = chat.as_str() {
        return match name {
            "MessageSent" => Ok(ChatResponseWrapper::Chat(ChatResponse::MessageSent)),
            "ClientRegistered" => Ok(ChatResponseWrapper::Chat(ChatResponse::ClientRegistered)),
            _ => Err(bad()),
        };
    }
    if let Some(list) = chat.get("ClientList") {
        return Ok(ChatResponseWrapper::Chat(ChatResponse::ClientList(
            bytes_of(list).ok_or_else(bad)?,
        )));
    }
    if let Some(message) = chat.get("MessageFrom") {
        let from = message.get("from").and_then(|f| f.as_u64()).ok_or_else(bad)?;
        let bytes = message.get("message").and_then(bytes_of).ok_or_else(bad)?;
        return Ok(ChatResponseWrapper::Chat(ChatResponse::MessageFrom {
            from: u8::try_from(from).map_err(|e| e.to_string())?,
            message: bytes,
        }));
    }
    Err(bad())
}

/// What reaches the controller.
enum Told {
    Message(SimControllerMessage),
    ChatMessageSent(u8, u8, String),
}

fn build_client() -> ChatClient {
    let mut chat_client = ChatClient::new(1, vec![2], server_type_query());
    let topology = chat_client.client_mut().topology_mut();
    topology.add_node(2);
    topology.set_node_type(2, NodeType::Drone);
    topology.add_node(21);
    topology.add_edge(2, 21);
    topology.add_edge(1, 2);
    chat_client
}

/// The packets handed out for the neighbour `to` since the outbox was last
/// taken.
fn recv(chat_client: &mut ChatClient, to: u8) -> Vec<Packet> {
    chat_client
        .client_mut()
        .take_outbox()
        .into_iter()
        .filter(|o| o.to == to)
        .map(|o| o.packet)
        .collect()
}

/// Does what the chat client asks for.
fn perform(chat_client: &mut ChatClient, actions: Vec<ChatAction>, session_id: u64) -> Vec<Told> {
    let mut told = Vec::new();
    for action in actions {
        match action {
            ChatAction::Reply(message) => told.push(Told::Message(message)),
            ChatAction::Request { server_id, request } => {
                chat_client.transmit(server_id, stringify(&request).into_bytes(), NOW, ids(session_id));
            }
            ChatAction::ChatMessage { server_id, to, request } => {
                let json = stringify(&request);
                chat_client.transmit(server_id, json.clone().into_bytes(), NOW, ids(session_id));
                told.push(Told::ChatMessageSent(server_id, to, json));
            }
            ChatAction::Unhandled => {}
        }
    }
    told
}

fn command(chat_client: &mut ChatClient, command: SimControllerCommand) -> Vec<Told> {
    let (actions, _sessions) = chat_client.handle_controller_commands(command, NOW, ids(7));
    perform(chat_client, actions, 7)
}

/// Takes in a packet as the client loop does: the transport first, then the
/// chat client with the response that a completed payload reads as.
fn on_drone_packet_received(chat_client: &mut ChatClient, packet: Packet) -> Vec<Told> {
    let received = chat_client.on_drone_packet_received(packet, NOW, ids(9));
    let mut told = Vec::new();
    if let Some((source, payload)) = received.delivered {
        let raw = String::from_utf8_lossy(&payload).to_string();
        match from_string(&raw) {
            Ok(response) => {
                if let Some(message) = chat_client.handle_response(response, source) {
                    told.push(Told::Message(message));
                }
            }
            Err(_) => {}
        }
    }
    told
}

fn fragment_packet(payload: &str, hops: Vec<u8>, session_id: u64) -> Packet {
    let fragments = Disassembler::new().disassemble_message(payload.as_bytes().to_vec(), session_id);
    Packet {
        pack_type: PacketType::MsgFragment(fragments.get(0).unwrap().clone()),
        routing_header: SourceRoutingHeader { hops, hop_index: 1 },
        session_id,
    }
}

fn payload_of(packet: &Packet) -> Vec<u8> {
    let fragment = match &packet.pack_type {
        PacketType::MsgFragment(fragment) => *fragment,
        _ => panic!("Packet type should be MsgFragment"),
    };
    Assembler::new().add_fragment(fragment, packet.session_id).unwrap()
}

/// Test that the client is sending the ACK when receiving a fragment
#[test]
fn ack_test_test_ack_sent_on_fragment_received() {
    let mut chat_client = build_client();

    let message = ChatResponseWrapper::Chat(ChatResponse::MessageFrom {
        from: 3,
        message: "Hi".as_bytes().to_vec(),
    });
    let packet = fragment_packet(&stringify_response(&message), vec![21, 2, 1], 0);

    on_drone_packet_received(&mut chat_client, packet);
    let packet_received = recv(&mut chat_client, 2).remove(0);

    assert!(matches!(packet_received.pack_type, PacketType::Ack(_)));
}

/// Tests that the client adds the packet sent to the list, and removes it when receiving the ACK from the server
#[test]
fn ack_test_test_ack_sent_packet_added_to_list() {
    let mut chat_client = build_client();

    let message = ChatRequestWrapper::Chat(ChatRequest::SendMessage {
        from: 1,
        to: 3,
        message: "Hi".to_string(),
    });
    let mut packet = fragment_packet(&stringify(&message), vec![1, 2, 21], 0);
    packet.routing_header = SourceRoutingHeader { hops: vec![1, 2, 21], hop_index: 1 };

    chat_client.client_mut().send_packet(packet.clone(), 21, NOW, ids(0));
    assert!(chat_client.client().sent_packets(0).is_some());
    assert!(chat_client.client().is_pending(0));

    on_drone_packet_received(
        &mut chat_client,
        Packet {
            pack_type: PacketType::Ack(Ack { fragment_index: 0 }),
            routing_header: SourceRoutingHeader { hops: vec![21, 2, 1], hop_index: 1 },
            session_id: 0,
        },
    );

    assert!(chat_client.client().sent_packets(0).is_none());
    assert!(!chat_client.client().is_pending(0));
}

/// Test that if multiple fragments with the same session_id
/// are sent, and an ACK is received, the count is updated,
/// but the fragments are not removed
#[test]
fn ack_test_test_ack_sent_2() {
    let mut chat_client = build_client();

    let message = ChatRequestWrapper::Chat(ChatRequest::SendMessage {
        from: 1,
        to: 3,
        message: "Hi".to_string(),
    });
    let packet = fragment_packet(&stringify(&message), vec![1, 2, 21], 0);

    chat_client.client_mut().send_packet(packet.clone(), 21, NOW, ids(0));
    chat_client.client_mut().send_packet(packet.clone(), 21, NOW, ids(0));
    assert!(chat_client.client().sent_packets(0).is_some());

    on_drone_packet_received(
        &mut chat_client,
        Packet {
            pack_type: PacketType::Ack(Ack { fragment_index: 1 }),
            routing_header: SourceRoutingHeader { hops: vec![21, 2, 1], hop_index: 1 },
            session_id: 0,
        },
    );

    // the session has one bit, for its one fragment: there is none to set
    assert!(chat_client.client().sent_packets(0).is_some());
    assert_eq!(chat_client.client().acked_packets(0).unwrap(), vec![false]);

    on_drone_packet_received(
        &mut chat_client,
        Packet {
            pack_type: PacketType::Ack(Ack { fragment_index: 0 }),
            routing_header: SourceRoutingHeader { hops: vec![21, 2, 1], hop_index: 1 },
            session_id: 0,
        },
    );
    assert!(chat_client.client().acked_packets(0).is_none());
}

#[test]
fn test_error_in_routing() {
    let mut chat_client = ChatClient::new(1, vec![2], server_type_query());

    let message = ChatRequestWrapper::Chat(ChatRequest::SendMessage {
        from: 1,
        to: 3,
        message: "Hi".to_string(),
    });
    let packet = fragment_packet(&stringify(&message), vec![1, 2, 21], 0);

    chat_client.client_mut().send_packet(packet.clone(), 21, NOW, ids(0));

    let topology = chat_client.client_mut().topology_mut();
    topology.add_node(2);
    topology.add_node(3);
    topology.add_node(21);
    topology.add_edge(2, 3);
    topology.add_edge(3, 21);
    topology.add_edge(1, 2);

    let nack = Packet {
        pack_type: PacketType::Nack(Nack {
            nack_type: NackType::ErrorInRouting(3),
            fragment_index: 0,
        }),
        routing_header: SourceRoutingHeader { hops: vec![2, 1], hop_index: 1 },
        session_id: 0,
    };

    on_drone_packet_received(&mut chat_client, nack);

    let topology = chat_client.client().topology();
    assert!(topology.neighbors(3).is_empty());
    assert!(!topology.nodes().contains(&3));
    assert!(!topology.neighbors(2).is_empty());
    assert!(topology.has_edge(2, 1));
    assert!(!topology.has_edge(2, 3));
    assert!(!topology.has_edge(21, 3));
}

#[test]
fn controller_test_flood_request_command() {
    let mut chat_client = build_client();

    let flood_command = SimControllerCommand::FloodRequest;

    command(&mut chat_client, flood_command);

    let received_packet = recv(&mut chat_client, 2).remove(0);

    assert!(
        matches!(received_packet.pack_type, PacketType::FloodRequest(_)),
        "Packet type should be FloodRequest"
    );
}

#[test]
fn controller_test_register_command() {
    let mut chat_client = build_client();

    let register_command = SimControllerCommand::Register(21);

    command(&mut chat_client, register_command);

    let received_packet = recv(&mut chat_client, 2).remove(0);

    let constructed_message = payload_of(&received_packet);

    assert_eq!(
        std::str::from_utf8(&constructed_message).unwrap(),
        stringify(&ChatRequestWrapper::Chat(ChatRequest::Register(1)))
    );
    assert_eq!(std::str::from_utf8(&constructed_message).unwrap(), "{\"Chat\":{\"Register\":1}}");
}

#[test]
fn controller_test_client_list_command() {
    let mut chat_client = build_client();

    let client_list_command = SimControllerCommand::ClientList(21);

    command(&mut chat_client, client_list_command);

    let received_packet = recv(&mut chat_client, 2).remove(0);

    let constructed_message = payload_of(&received_packet);

    assert_eq!(
        std::str::from_utf8(&constructed_message).unwrap(),
        stringify(&ChatRequestWrapper::Chat(ChatRequest::ClientList))
    );
}

#[test]
fn controller_test_send_message_command() {
    let mut chat_client = build_client();

    let message = "Hello, world".to_string();

    let send_message_command = SimControllerCommand::SendMessage(message.clone(), 21, 2);

    let told = command(&mut chat_client, send_message_command);

    let received_packet = recv(&mut chat_client, 2).remove(0);

    let constructed_message = payload_of(&received_packet);

    let expected = stringify(&ChatRequestWrapper::Chat(ChatRequest::SendMessage {
        to: 2,
        from: 1,
        message,
    }));
    assert_eq!(std::str::from_utf8(&constructed_message).unwrap(), expected);
    assert!(matches!(&told[0], Told::ChatMessageSent(21, 2, json) if *json == expected));
}

fn same_topology(
    left: &rustafarian_client::topology::Topology,
    right: &rustafarian_client::topology::Topology,
) -> bool {
    (0..=255u8).all(|n| left.neighbors(n) == right.neighbors(n)) && left.nodes() == right.nodes()
}

#[test]
fn controller_test_topology_request() {
    let mut chat_client = build_client();

    let topology_request = SimControllerCommand::Topology;

    let mut told = command(&mut chat_client, topology_request);

    let message = match told.remove(0) {
        Told::Message(message) => message,
        _ => panic!("Packet type should be Message"),
    };

    let topology_msg = match message {
        SimControllerMessage::TopologyResponse(topology) => topology,
        _ => panic!("Message should be Topology"),
    };

    assert!(same_topology(&topology_msg, chat_client.client().topology()));
    assert_eq!(topology_msg.nodes(), chat_client.client().topology().nodes());
    assert_eq!(topology_msg.neighbors(2), vec![1, 21]);
}

#[test]
fn registered_servers_request() {
    let mut chat_client = build_client();

    chat_client.handle_response(ChatResponseWrapper::Chat(ChatResponse::ClientRegistered), 21);

    let rs_request = SimControllerCommand::RegisteredServers;

    let mut told = command(&mut chat_client, rs_request);

    let message = match told.remove(0) {
        Told::Message(message) => message,
        _ => panic!("Packet type should be Message"),
    };

    let rs_msg = match message {
        SimControllerMessage::RegisteredServersResponse(response) => response,
        _ => panic!("Message should be Topology"),
    };

    assert_eq!(rs_msg.clone(), chat_client.get_registered_servers().clone());
    assert_eq!(rs_msg, vec![21]);
}

#[test]
fn known_servers_request() {
    let mut chat_client = build_client();

    let server_type_response =
        ChatResponseWrapper::ServerType(ServerTypeResponse::ServerType(ServerType::Chat));
    let server_type_response2 =
        ChatResponseWrapper::ServerType(ServerTypeResponse::ServerType(ServerType::Chat));
    let server_type_response3 =
        ChatResponseWrapper::ServerType(ServerTypeResponse::ServerType(ServerType::Chat));

    // Each answers with a ServerTypeResponse for the controller
    let first = chat_client.handle_response(server_type_response, 21);
    let second = chat_client.handle_response(server_type_response2, 22);
    let third = chat_client.handle_response(server_type_response3, 23);
    assert!(matches!(
        first,
        Some(SimControllerMessage::ServerTypeResponse(21, ServerType::Chat))
    ));
    assert!(matches!(second, Some(SimControllerMessage::ServerTypeResponse(22, _))));
    assert!(matches!(third, Some(SimControllerMessage::ServerTypeResponse(23, _))));

    let ks_request = SimControllerCommand::KnownServers;

    let mut told = command(&mut chat_client, ks_request);

    let message = match told.remove(0) {
        Told::Message(message) => message,
        _ => panic!("Packet type should be Message"),
    };

    let rs_msg = match message {
        SimControllerMessage::KnownServers(response) => response,
        _ => panic!("Message should be KnownServer"),
    };

    let mut left = rs_msg.iter().map(|s| s.0).collect::<Vec<u8>>();
    let mut right = chat_client
        .get_available_clients()
        .iter()
        .map(|s| s.0)
        .collect::<Vec<u8>>();

    left.sort();
    right.sort();

    assert_eq!(left, right);
    assert_eq!(rs_msg, vec![(21, ServerType::Chat), (22, ServerType::Chat), (23, ServerType::Chat)]);
}

#[test]
fn controller_test_add_sender_request() {
    let mut chat_client = build_client();

    let as_request = SimControllerCommand::AddSender(3);

    command(&mut chat_client, as_request);

    assert!(chat_client.client().neighbors().contains(&3));

    let topology = chat_client.client().topology();
    assert!(topology.nodes().contains(&3));
    assert!(!topology.neighbors(1).is_empty());
    assert!(!topology.neighbors(3).is_empty());
    assert!(topology.neighbors(1).contains(&3));
}

/// The neighbour and the edge to it go; the node stays known, as the
/// browser's test of the same command asks.
#[test]
fn controller_test_remove_sender_request() {
    let mut chat_client = build_client();

    let as_request = SimControllerCommand::RemoveSender(2);

    command(&mut chat_client, as_request);

    assert!(!chat_client.client().neighbors().contains(&2));

    let topology = chat_client.client().topology();
    assert!(!topology.neighbors(1).contains(&2));
    assert!(!topology.neighbors(2).contains(&1));
    assert!(topology.neighbors(1).is_empty());
}

#[test]
fn packet_no_route() {
    let mut chat_client = build_client();

    chat_client.client_mut().topology_mut().remove_node(21);

    let packet = Packet {
        pack_type: PacketType::Nack(Nack {
            nack_type: NackType::ErrorInRouting(2),
            fragment_index: 0,
        }),
        routing_header: chat_client.client().topology().get_routing_header(1, 21),
        session_id: 0,
    };

    chat_client.client_mut().send_packet(packet, 21, NOW, ids(0));

    assert!(chat_client.client().packet_to_send(21).is_some());
}

/// Test that the client is adding itself to the flood request when receiving one
#[test]
fn test_client_added_to_flood_request() {
    let mut chat_client = ChatClient::new(1, vec![2, 3], server_type_query());

    let topology = chat_client.client_mut().topology_mut();
    topology.add_node(2);
    topology.add_node(21);
    topology.add_edge(2, 21);
    topology.add_edge(1, 2);

    let flood_req = PacketType::FloodRequest(FloodRequest {
        flood_id: 0,
        initiator_id: 21,
        path_trace: vec![(21, NodeType::Server), (2, NodeType::Drone)],
    });

    let packet = Packet {
        pack_type: flood_req,
        routing_header: SourceRoutingHeader { hops: vec![], hop_index: 1 },
        session_id: 0,
    };

    on_drone_packet_received(&mut chat_client, packet);
    let outbox = chat_client.client_mut().take_outbox();
    let packet_received: Vec<_> = outbox.iter().filter(|o| o.to == 2).collect();
    let mut packet_received2: Vec<_> = outbox.iter().filter(|o| o.to == 3).collect();

    assert_eq!(packet_received.is_empty(), true);

    let packet_received2 = packet_received2.remove(0).packet.clone();
    assert!(matches!(packet_received2.pack_type, PacketType::FloodRequest(_)));

    let flood_req = match packet_received2.pack_type {
        PacketType::FloodRequest(flood_req) => flood_req,
        _ => panic!("Expected FloodRequest"),
    };

    assert_eq!(
        flood_req.path_trace,
        vec![(21, NodeType::Server), (2, NodeType::Drone), (1, NodeType::Client)]
    );
    assert_eq!(flood_req.initiator_id, 21);
    assert_eq!(flood_req.flood_id, 0);
}

#[test]
fn flooding_test_test_sending_request() {
    let mut chat_client = build_client();

    chat_client.client_mut().send_flood_request(NOW, ids(0));

    assert!(
        matches!(recv(&mut chat_client, 2).remove(0).pack_type, PacketType::FloodRequest(_)),
        "Packet type should be FloodRequest"
    );
}

#[test]
fn flooding_test_sending_request() {
    let mut chat_client = ChatClient::new(1, vec![1], server_type_query());

    chat_client.client_mut().send_flood_request(NOW, ids(0));

    assert!(
        matches!(recv(&mut chat_client, 1).remove(0).pack_type, PacketType::FloodRequest(_)),
        "Packet type should be FloodRequest"
    );
}

#[test]
fn flooding_test_test_receive_response() {
    let mut chat_client = build_client();

    chat_client.client_mut().topology_mut().clear();

    chat_client.client_mut().send_flood_request(NOW, Ids { flood_id: 1, ..ids(0) });
    chat_client.client_mut().on_flood_response_received(
        1,
        &[
            (1, NodeType::Drone),
            (2, NodeType::Drone),
            (21, NodeType::Server),
            (3, NodeType::Client),
        ]
        .to_vec(),
        NOW,
        ids(1),
    );

    let topology = chat_client.client().topology();
    assert_eq!(topology.nodes(), &vec![1, 2, 21, 3], "Topology should contain nodes 1, 2, and 21");

    assert_eq!(topology.get_node_type(21).unwrap(), NodeType::Server);
    assert_eq!(topology.get_node_type(3).unwrap(), NodeType::Client);
    assert_eq!(topology.get_node_type(1).unwrap(), NodeType::Drone);
    assert_eq!(topology.get_node_type(2).unwrap(), NodeType::Drone);
    assert!(topology.has_edge(1, 2) && topology.has_edge(2, 21) && topology.has_edge(21, 3));
}

/// The same, through the client as it runs.
#[test]
fn flooding_test_receive_response() {
    let mut chat_client = ChatClient::new(1, vec![1], server_type_query());
    chat_client.client_mut().start(NOW, ids(0));
    assert!(chat_client.client().is_running());

    let packet = Packet {
        pack_type: PacketType::FloodResponse(FloodResponse {
            flood_id: 1,
            path_trace: [(1, NodeType::Drone), (2, NodeType::Drone), (21, NodeType::Server)].to_vec(),
        }),
        routing_header: SourceRoutingHeader { hop_index: 1, hops: [21, 2, 1].to_vec() },
        session_id: 5,
    };

    on_drone_packet_received(&mut chat_client, packet);
    assert!(chat_client.client().topology().has_edge(2, 21));
    assert!(chat_client.client().topology().has_edge(1, 2));
}

#[test]
fn flooding_test_test_receive_response2() {
    let mut chat_client = build_client();

    let response = FloodResponse {
        flood_id: 0,
        path_trace: vec![(21, NodeType::Server), (2, NodeType::Drone)],
    };

    let packet = Packet {
        pack_type: PacketType::FloodResponse(response),
        routing_header: SourceRoutingHeader { hops: vec![21, 2, 1], hop_index: 1 },
        session_id: 0,
    };
    chat_client.client_mut().send_flood_request(NOW, Ids { flood_id: 0, ..ids(0) });
    assert!(chat_client.client().sent_flood_ids().contains(&0));
    recv(&mut chat_client, 2);
    chat_client.client_mut().enqueue(
        21,
        Packet {
            pack_type: PacketType::Ack(Ack { fragment_index: 0 }),
            routing_header: SourceRoutingHeader { hops: vec![1, 3, 21], hop_index: 1 },
            session_id: 0,
        },
    );
    on_drone_packet_received(&mut chat_client, packet);

    let topology = chat_client.client().topology();
    assert_eq!(topology.nodes(), &vec![2, 21], "Topology should contain nodes 1, 2, and 21");

    assert!(topology.neighbors(1).contains(&2));
    assert!(topology.neighbors(2).contains(&21));
    assert!(topology.neighbors(2).contains(&1));
    assert!(topology.neighbors(21).contains(&2));

    // The first packet is the server type request for the server 21, the
    // last the ack with the new route
    let mut sent = recv(&mut chat_client, 2);
    let packet_received = sent.pop().unwrap();
    assert!(matches!(packet_received.pack_type, PacketType::Ack(_)));
    assert_eq!(packet_received.routing_header.hops, vec![1, 2, 21]);
    assert_eq!(payload_of(&sent[0]), server_type_query());
    assert!(chat_client.client().packet_to_send(21).is_none());
}

/// Test that the client is sending a flood request when receiving a nack
#[test]
fn nack_test_test_flood_request_sent_on_nack_received() {
    let mut chat_client = build_client();
    {
        // a second way to the server, so that the fragment can go out again
        let topology = chat_client.client_mut().topology_mut();
        topology.add_node(3);
        topology.set_node_type(3, NodeType::Drone);
        topology.add_edge(1, 3);
        topology.add_edge(3, 21);
        chat_client.client_mut().add_sender(3, 0, ids(0));
    }

    chat_client.client_mut().send_packet(
        Packet {
            pack_type: PacketType::MsgFragment(Fragment {
                fragment_index: 0,
                total_n_fragments: 1,
                length: 10,
                data: [0; 128],
            }),
            routing_header: SourceRoutingHeader { hops: vec![1, 2, 21], hop_index: 1 },
            session_id: 0,
        },
        21,
        NOW,
        ids(0),
    );
    chat_client.client_mut().take_outbox();

    let packet = Packet {
        pack_type: PacketType::Nack(Nack {
            nack_type: NackType::ErrorInRouting(2),
            fragment_index: 0,
        }),
        routing_header: SourceRoutingHeader { hops: vec![21, 2, 1], hop_index: 1 },
        session_id: 0,
    };

    on_drone_packet_received(&mut chat_client, packet);
    let mut to_2 = Vec::new();
    let mut to_3 = Vec::new();
    for outgoing in chat_client.client_mut().take_outbox() {
        if outgoing.to == 2 {
            to_2.push(outgoing.packet);
        } else {
            to_3.push(outgoing.packet);
        }
    }
    let packet_received = to_2.remove(0);

    assert!(matches!(packet_received.pack_type, PacketType::FloodRequest(_)));
    assert!(matches!(to_3.remove(0).pack_type, PacketType::FloodRequest(_)));
    let packet_received = to_3.remove(0);

    assert!(matches!(packet_received.pack_type, PacketType::MsgFragment(_)));
    assert_eq!(packet_received.routing_header.hops, vec![1, 3, 21]);
    assert!(!chat_client.client().topology().nodes().contains(&2));
}

#[test]
fn register_test_simple_register() {
    let mut chat_client = build_client();

    let action = chat_client.register(21);
    perform(&mut chat_client, vec![action], 0);

    let received_fragment = recv(&mut chat_client, 2).remove(0);

    assert!(matches!(received_fragment.clone().pack_type, PacketType::MsgFragment(_)));

    let mut assembler = Assembler::new();

    let fragment = match received_fragment.pack_type {
        PacketType::MsgFragment(fragment) => fragment,
        _ => panic!("Packet type should be MsgFragment"),
    };

    let reassembled_message = assembler.add_fragment(fragment, received_fragment.session_id);
    let binding = reassembled_message.unwrap();
    let reassembled_json = String::from_utf8_lossy(&binding);

    let registered = ChatRequestWrapper::Chat(ChatRequest::Register(1));
    let registered_json = stringify(&registered);

    assert_eq!(reassembled_json, registered_json);

    let register_response = ChatResponseWrapper::Chat(ChatResponse::ClientRegistered);

    chat_client.handle_response(register_response, 21);

    assert!(chat_client.get_registered_servers().contains(&21));

    // a second confirmation registers nothing anew
    chat_client.handle_response(ChatResponseWrapper::Chat(ChatResponse::ClientRegistered), 21);
    assert_eq!(chat_client.get_registered_servers(), &vec![21]);
}

#[test]
fn send_message_test_simple_send_message() {
    let message = "Hello, world".to_string();
    let mut chat_client = build_client();

    let action = chat_client.send_chat_message(21, 3, message.clone());
    perform(&mut chat_client, vec![action], 0);

    let message_req = ChatRequest::SendMessage { from: 1, to: 3, message };
    let serialized_message = stringify(&ChatRequestWrapper::Chat(message_req));

    let fragments =
        Disassembler::new().disassemble_message(serialized_message.as_bytes().to_vec(), 0);

    let received_packet = recv(&mut chat_client, 2).remove(0);

    let fragment = match received_packet.pack_type {
        PacketType::MsgFragment(fragment) => fragment,
        _ => panic!("Packet type should be MsgFragment"),
    };

    assert_eq!(fragment.data, fragments[0].data);
}

#[test]
fn send_message_test_send_longer_message() {
    let message = "Hello, world".repeat(300).to_string();

    let mut chat_client = build_client();

    let action = chat_client.send_chat_message(21, 3, message.clone());
    perform(&mut chat_client, vec![action], 0);

    let message_req = ChatRequest::SendMessage { from: 1, to: 3, message };
    let serialized_message = stringify(&ChatRequestWrapper::Chat(message_req));

    let fragments =
        Disassembler::new().disassemble_message(serialized_message.as_bytes().to_vec(), 0);

    let mut received = recv(&mut chat_client, 2);
    assert_eq!(received.len(), fragments.len());
    for frag_index in 0..fragments.len() {
        let received_packet = received.remove(0);

        let fragment = match received_packet.pack_type {
            PacketType::MsgFragment(fragment) => fragment,
            _ => panic!("Packet type should be MsgFragment"),
        };

        assert_eq!(fragment.data, fragments[frag_index].data);
        assert_eq!(fragment.fragment_index, frag_index as u64);
    }
}

#[test]
fn send_message_test_test_message_sent() {
    let mut chat_client = build_client();

    let message = ChatResponseWrapper::Chat(ChatResponse::MessageSent {});
    let packet = fragment_packet(&stringify_response(&message), vec![21, 2, 1], 0);
    let told = on_drone_packet_received(&mut chat_client, packet);
    assert!(told.is_empty());
}

#[test]
fn server_type_test_test_server_type_request() {
    let mut chat_client = build_client();

    chat_client.client_mut().send_server_type_request(21, NOW, ids(0));

    let packet_received = recv(&mut chat_client, 2).remove(0);

    let assembled_message = payload_of(&packet_received);

    assert_eq!(
        String::from_utf8(assembled_message).unwrap(),
        stringify(&ChatRequestWrapper::ServerType(ServerTypeRequest::ServerType))
    );
}

#[test]
fn server_type_test_test_server_type_response() {
    let mut chat_client = build_client();

    let server_type_response =
        ChatResponseWrapper::ServerType(ServerTypeResponse::ServerType(ServerType::Chat));

    let packet = fragment_packet(&stringify_response(&server_type_response), vec![21, 2, 1], 0);

    on_drone_packet_received(&mut chat_client, packet);

    assert!(chat_client.get_client_list(21).is_some());
    assert_eq!(chat_client.client().topology().get_server_type(21), Some(ServerType::Chat));
}

#[test]
fn different_server_type_response() {
    let mut chat_client = build_client();

    let server_type_response =
        ChatResponseWrapper::ServerType(ServerTypeResponse::ServerType(ServerType::Text));

    let packet = fragment_packet(&stringify_response(&server_type_response), vec![21, 2, 1], 0);

    on_drone_packet_received(&mut chat_client, packet);

    assert!(chat_client.get_client_list(21).is_none());
}

#[test]
fn test_receive_client_list() {
    let mut chat_client = build_client();

    let client_list_response = ChatResponseWrapper::Chat(ChatResponse::ClientList([11, 12].to_vec()));

    let fake_packet = fragment_packet(&stringify_response(&client_list_response), vec![21, 2, 1], 77);

    let told = on_drone_packet_received(&mut chat_client, fake_packet);

    assert_eq!(chat_client.get_client_list(21).unwrap(), vec![11, 12]);
    assert!(matches!(
        &told[0],
        Told::Message(SimControllerMessage::ClientListResponse(21, list)) if *list == vec![11, 12]
    ));
}

#[test]
fn test_controller_channels() {
    let mut chat_client = ChatClient::new(1, vec![2], server_type_query());

    let topology = chat_client.client_mut().topology_mut();
    topology.add_node(2);
    topology.add_node(21);
    topology.add_edge(2, 21);
    topology.add_edge(1, 2);
    assert_eq!(chat_client.client().client_id(), 1);
    assert_eq!(chat_client.client().neighbors(), &vec![2]);
}

#[test]
fn test_running_test_message_received() {
    let mut chat_client = build_client();

    let message = ChatResponseWrapper::Chat(ChatResponse::MessageFrom {
        from: 3,
        message: "Hello".as_bytes().to_vec(),
    });
    let fake_packet = fragment_packet(&stringify_response(&message), vec![21, 2, 1], 42);

    chat_client.client_mut().start(NOW, ids(0));
    let events = chat_client.client_mut().take_events();
    assert_eq!(events, vec![ClientEvent::FloodRequestSent]);

    let mut told = on_drone_packet_received(&mut chat_client, fake_packet);
    let events = chat_client.client_mut().take_events();
    assert_eq!(events[0], ClientEvent::PacketReceived(42));
    let sim_received = told.remove(0);
    assert!(matches!(
        sim_received,
        Told::Message(SimControllerMessage::MessageReceived(21, 3, text)) if text == "Hello"
    ));
}

#[test]
fn test_sim_controller_command() {
    let mut chat_client = build_client();

    let sim_command = SimControllerCommand::SendMessage("Hello".to_string(), 21, 3);

    chat_client.client_mut().start(NOW, ids(0));
    let flood = recv(&mut chat_client, 2).remove(0);
    assert!(matches!(flood.pack_type, PacketType::FloodRequest(_)));

    command(&mut chat_client, sim_command);

    let packet_received = recv(&mut chat_client, 2).remove(0);
    assert!(matches!(packet_received.pack_type, PacketType::MsgFragment(_)));

    let assembled_message = payload_of(&packet_received);

    assert_eq!(
        String::from_utf8(assembled_message).unwrap(),
        "{\"Chat\":{\"SendMessage\":{\"from\":1,\"to\":3,\"message\":\"Hello\"}}}"
    );
}

#[test]
fn test_run_topology() {
    let mut chat_client = ChatClient::new(1, vec![2], server_type_query());

    chat_client.client_mut().start(NOW, ids(0));
    assert!(!chat_client.client().topology().neighbors(2).is_empty());
    assert!(chat_client.client().topology().has_edge(1, 2));
    assert_eq!(chat_client.client().topology().get_node_type(2), Some(NodeType::Drone));
    chat_client.client_mut().stop();
    assert!(!chat_client.client().is_running());
}

#[test]
fn ack_test_test_ack_not_received() {
    // A fragment that gets no acknowledgment stays in the log of its
    // session, from where a negative acknowledgment sends it again.
    let mut chat_client = build_client();

    let message = ChatRequestWrapper::Chat(ChatRequest::SendMessage {
        from: 1,
        to: 3,
        message: "Hi".to_string(),
    });
    let packet = fragment_packet(&stringify(&message), vec![1, 2, 21], 0);

    chat_client.client_mut().send_packet(packet.clone(), 21, NOW, ids(0));

    assert!(matches!(recv(&mut chat_client, 2).remove(0).pack_type, PacketType::MsgFragment(_)));
    on_drone_packet_received(
        &mut chat_client,
        Packet {
            pack_type: PacketType::Nack(Nack { nack_type: NackType::Dropped, fragment_index: 0 }),
            routing_header: SourceRoutingHeader { hops: vec![2, 1], hop_index: 1 },
            session_id: 0,
        },
    );
    assert!(matches!(recv(&mut chat_client, 2).remove(0).pack_type, PacketType::MsgFragment(_)));
    assert_eq!(chat_client.client().topology().get_node_history(2).dropped, 1);
    // the fragment is in the log once, however often it goes out
    assert_eq!(chat_client.client().sent_packets(0).unwrap().len(), 1);
}

#[test]
fn packet_sent_event_names_the_kind() {
    let mut chat_client = build_client();
    chat_client.client_mut().send_ack(3, 21, 8, NOW, ids(0));
    assert_eq!(
        chat_client.client_mut().take_events(),
        vec![ClientEvent::PacketSent { session_id: 8, packet_type: PacketKind::Ack }]
    );
}

#[test]
fn chat_message_that_is_no_text() {
    let mut chat_client = build_client();
    let told = chat_client.handle_response(
        ChatResponseWrapper::Chat(ChatResponse::MessageFrom { from: 3, message: vec![0xff, 0xfe] }),
        21,
    );
    assert!(matches!(
        told,
        Some(SimControllerMessage::MessageReceived(21, 3, text)) if text == "Invalid UTF-8 sequence"
    ));
    let told = chat_client.handle_response(
        ChatResponseWrapper::Chat(ChatResponse::MessageFrom {
            from: 3,
            message: "h\u{e9}llo".as_bytes().to_vec(),
        }),
        21,
    );
    assert!(matches!(
        told,
        Some(SimControllerMessage::MessageReceived(21, 3, text)) if text == "h\u{e9}llo"
    ));
}

#[test]
fn browser_commands_are_none_for_a_chat_client() {
    let mut chat_client = build_client();
    let (actions, sessions) =
        chat_client.handle_controller_commands(SimControllerCommand::RequestFileList(21), NOW, ids(0));
    assert!(matches!(actions[..], [ChatAction::Unhandled]));
    assert!(sessions.is_empty());
    assert!(chat_client.client_mut().take_outbox().is_empty());
}

#[test]
fn known_servers_asks_untyped_servers() {
    let mut chat_client = build_client();
    chat_client.client_mut().topology_mut().set_node_type(21, NodeType::Server);
    let (actions, sessions) =
        chat_client.handle_controller_commands(SimControllerCommand::KnownServers, NOW, ids(0));
    assert_eq!(sessions.len(), 1);
    assert!(matches!(&actions[..], [ChatAction::Reply(SimControllerMessage::KnownServers(list))] if list.is_empty()));
    let sent = recv(&mut chat_client, 2);
    assert_eq!(sent.len(), 1);
    assert_eq!(sent[0].session_id, sessions[0]);
    assert_eq!(payload_of(&sent[0]), server_type_query());
    let _unused: Option<&Client> = None;
}
