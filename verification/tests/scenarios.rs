use rustafarian_client::assembler::Assembler;
use rustafarian_client::browser_client::{BrowserAction, BrowserClient};
use rustafarian_client::chat_client::{ChatAction, ChatClient};
use rustafarian_client::disassembler::Disassembler;
use rustafarian_client::message::{
    BrowserResponse, BrowserResponseWrapper, ChatRequest, ChatRequestWrapper, ChatResponse,
    ChatResponseWrapper, ServerType, ServerTypeResponse, SimControllerCommand, SimControllerMessage,
};
use rustafarian_client::model::{Ids, MIN_FLOOD_INTERVAL};
use rustafarian_client::packet::{
    Ack, FloodResponse, Nack, NackType, NodeType, Packet, PacketType, SourceRoutingHeader,
};

const NOW: u128 = 1_000_000;

fn ids(session_id: u64) -> Ids {
    Ids { session_id, flood_id: session_id + 1_000, flood_session_id: session_id + 2_000 }
}

fn query() -> Vec<u8> {
    b"{\"ServerType\":\"ServerType\"}".to_vec()
}

fn chat_client() -> ChatClient {
    let mut chat = ChatClient::new(1, vec![2], query());
    let topology = chat.client_mut().topology_mut();
    topology.add_node(2);
    topology.set_node_type(2, NodeType::Drone);
    topology.add_node(21);
    topology.set_node_type(21, NodeType::Server);
    topology.add_edge(1, 2);
    topology.add_edge(2, 21);
    chat
}

fn fragment_from(payload: &str, hops: Vec<u8>, session_id: u64) -> Packet {
    let fragments = Disassembler::new().disassemble_message(payload.as_bytes().to_vec(), session_id);
    Packet {
        pack_type: PacketType::MsgFragment(fragments[0]),
        routing_header: SourceRoutingHeader::new(hops, 1),
        session_id,
    }
}

fn payload_of(packet: &Packet) -> String {
    match &packet.pack_type {
        PacketType::MsgFragment(f) => {
            String::from_utf8(Assembler::new().add_fragment(*f, packet.session_id).unwrap()).unwrap()
        }
        _ => panic!("expected a fragment"),
    }
}

#[test]
fn scenario_register_round_trip() {
    let mut chat = chat_client();
    let (mut actions, _) =
        chat.handle_controller_commands(SimControllerCommand::Register(21), NOW, ids(0));
    assert_eq!(actions.len(), 1);
    let (server_id, request) = match actions.remove(0) {
        ChatAction::Request { server_id, request } => (server_id, request),
        _ => panic!("expected a request"),
    };
    assert_eq!(server_id, 21);
    assert_eq!(request, ChatRequestWrapper::Chat(ChatRequest::Register(1)));
    chat.transmit(21, b"{\"Chat\":{\"Register\":1}}".to_vec(), NOW, ids(0));
    let out = chat.client_mut().take_outbox();
    assert_eq!(out.len(), 1);
    assert_eq!(out[0].to, 2);
    assert_eq!(out[0].packet.routing_header.hops, vec![1, 2, 21]);
    assert_eq!(payload_of(&out[0].packet), "{\"Chat\":{\"Register\":1}}");

    let back = fragment_from("{\"Chat\":\"ClientRegistered\"}", vec![21, 2, 1], 3);
    let received = chat.on_drone_packet_received(back, NOW, ids(1));
    let (source, payload) = received.delivered.unwrap();
    assert_eq!(source, 21);
    assert_eq!(payload, b"{\"Chat\":\"ClientRegistered\"}".to_vec());
    chat.handle_response(ChatResponseWrapper::Chat(ChatResponse::ClientRegistered), source);
    assert_eq!(chat.get_registered_servers(), &vec![21]);
}

#[test]
fn scenario_fragment_and_ack() {
    let mut chat = chat_client();
    let payload = "{\"Chat\":{\"MessageFrom\":{\"from\":3,\"message\":[72,105]}}}";
    let packet = fragment_from(payload, vec![21, 2, 1], 0);
    let received = chat.on_drone_packet_received(packet, NOW, ids(1));
    let out = chat.client_mut().take_outbox();
    assert_eq!(out.len(), 1);
    assert_eq!(out[0].to, 2);
    assert_eq!(out[0].packet.pack_type, PacketType::Ack(Ack { fragment_index: 0 }));
    assert_eq!(out[0].packet.routing_header.hops, vec![1, 2, 21]);
    assert_eq!(out[0].packet.session_id, 0);
    let (source, bytes) = received.delivered.unwrap();
    assert_eq!(bytes, payload.as_bytes());
    let told = chat.handle_response(
        ChatResponseWrapper::Chat(ChatResponse::MessageFrom { from: 3, message: b"Hi".to_vec() }),
        source,
    );
    match told {
        Some(SimControllerMessage::MessageReceived(server, from, text)) => {
            assert_eq!((server, from, text.as_str()), (21, 3, "Hi"));
        }
        _ => panic!("expected the message"),
    }
}

#[test]
fn scenario_nack_retransmit() {
    let mut chat = ChatClient::new(1, vec![2, 3], query());
    {
        let topology = chat.client_mut().topology_mut();
        for drone in [2, 3] {
            topology.add_node(drone);
            topology.set_node_type(drone, NodeType::Drone);
        }
        topology.add_node(21);
        topology.add_edge(1, 2);
        topology.add_edge(2, 3);
        topology.add_edge(3, 21);
    }
    let fragment = Disassembler::new().disassemble_message(b"hello".to_vec(), 0)[0];
    chat.client_mut().send_packet(
        Packet {
            pack_type: PacketType::MsgFragment(fragment),
            routing_header: SourceRoutingHeader::new(vec![1, 2, 21], 1),
            session_id: 0,
        },
        21,
        NOW,
        ids(0),
    );
    chat.client_mut().take_outbox();

    let nack = Packet {
        pack_type: PacketType::Nack(Nack { fragment_index: 0, nack_type: NackType::ErrorInRouting(2) }),
        routing_header: SourceRoutingHeader::new(vec![2, 1], 1),
        session_id: 0,
    };
    chat.on_drone_packet_received(nack, NOW, ids(1));
    assert!(!chat.client().topology().nodes().contains(&2));
    assert!(chat.client().topology().neighbors(2).is_empty());
    let out = chat.client_mut().take_outbox();
    // a flood request to each neighbour; no route, so the fragment waits
    assert_eq!(out.len(), 2);
    assert!(out.iter().all(|o| matches!(o.packet.pack_type, PacketType::FloodRequest(_))));
    assert!(chat.client().packet_to_send(21).is_some());

    // discovery restores 1 - 3 - 21
    let response = Packet {
        pack_type: PacketType::FloodResponse(FloodResponse {
            flood_id: 1_001,
            path_trace: vec![(1, NodeType::Client), (3, NodeType::Drone), (21, NodeType::Server)],
        }),
        routing_header: SourceRoutingHeader::new(vec![21, 3, 1], 2),
        session_id: 9,
    };
    chat.on_drone_packet_received(response, NOW + 1, ids(2));
    let out: Vec<_> = chat
        .client_mut()
        .take_outbox()
        .into_iter()
        .filter(|o| matches!(&o.packet.pack_type, PacketType::MsgFragment(f) if f.length == 5))
        .collect();
    assert_eq!(out.len(), 1);
    assert_eq!(out[0].to, 3);
    assert_eq!(out[0].packet.routing_header.hops, vec![1, 3, 21]);
    assert_eq!(out[0].packet.pack_type, PacketType::MsgFragment(fragment));
    assert!(chat.client().packet_to_send(21).is_none());
    assert_eq!(chat.client().sent_packets(0).unwrap().len(), 1);
}

#[test]
fn scenario_pending_route_drained() {
    let mut chat = ChatClient::new(1, vec![2], query());
    chat.client_mut().topology_mut().add_node(1);
    let (mut actions, _) = chat.handle_controller_commands(
        SimControllerCommand::SendMessage("hi".to_string(), 21, 3),
        NOW,
        ids(0),
    );
    let request = match actions.remove(0) {
        ChatAction::ChatMessage { server_id: 21, to: 3, request } => request,
        _ => panic!("expected a chat message"),
    };
    assert_eq!(
        request,
        ChatRequestWrapper::Chat(ChatRequest::SendMessage { from: 1, to: 3, message: "hi".to_string() })
    );
    let json = "{\"Chat\":{\"SendMessage\":{\"from\":1,\"to\":3,\"message\":\"hi\"}}}";
    chat.transmit(21, json.as_bytes().to_vec(), NOW, ids(0));
    let waiting = chat.client().packet_to_send(21).unwrap();
    assert!(matches!(waiting.pack_type, PacketType::MsgFragment(_)));
    let out = chat.client_mut().take_outbox();
    assert_eq!(out.len(), 1);
    assert_eq!(out[0].to, 2);
    assert!(matches!(out[0].packet.pack_type, PacketType::FloodRequest(_)));

    let response = Packet {
        pack_type: PacketType::FloodResponse(FloodResponse {
            flood_id: 1_000,
            path_trace: vec![(1, NodeType::Client), (2, NodeType::Drone), (21, NodeType::Server)],
        }),
        routing_header: SourceRoutingHeader::new(vec![21, 2, 1], 2),
        session_id: 9,
    };
    chat.on_drone_packet_received(response, NOW + 1, ids(2));
    let out = chat.client_mut().take_outbox();
    let fragments: Vec<_> = out
        .iter()
        .filter(|o| o.packet.session_id == 0 && matches!(o.packet.pack_type, PacketType::MsgFragment(_)))
        .collect();
    assert_eq!(fragments.len(), 1);
    assert_eq!(fragments[0].to, 2);
    assert_eq!(fragments[0].packet.routing_header.hops, vec![1, 2, 21]);
    assert_eq!(payload_of(&fragments[0].packet), json);
    assert!(chat.client().packet_to_send(21).is_none());
}

#[test]
fn scenario_browser_text_with_references() {
    let mut browser = BrowserClient::new(1, vec![2], query());
    browser.handle_response(
        BrowserResponseWrapper::ServerType(ServerTypeResponse::ServerType(ServerType::Text)),
        21,
    );
    browser.handle_response(
        BrowserResponseWrapper::ServerType(ServerTypeResponse::ServerType(ServerType::Media)),
        22,
    );
    let first = browser.handle_response(
        BrowserResponseWrapper::Chat(BrowserResponse::MediaFile(1, vec![10, 20, 30])),
        22,
    );
    assert!(matches!(&first[..], [BrowserAction::Reply(SimControllerMessage::MediaFileResponse(1, _))]));
    let mut actions = browser.handle_response(
        BrowserResponseWrapper::Chat(BrowserResponse::TextFile(1, "ref=1\nasd".to_string())),
        21,
    );
    assert_eq!(actions.len(), 1);
    match actions.remove(0) {
        BrowserAction::Reply(SimControllerMessage::TextWithReferences(id, text, media)) => {
            assert_eq!(id, 1);
            assert_eq!(text, "ref=1\nasd");
            assert_eq!(media, vec![(1, vec![10, 20, 30])]);
        }
        _ => panic!("expected the text with its references"),
    }
    assert!(browser.client_mut().take_outbox().is_empty());
}

#[test]
fn scenario_flood_rate_limit() {
    let mut chat = ChatClient::new(1, vec![2, 3], query());
    chat.transmit(21, b"one".to_vec(), NOW, ids(0));
    chat.transmit(21, b"two".to_vec(), NOW + MIN_FLOOD_INTERVAL - 1, ids(1));
    let out = chat.client_mut().take_outbox();
    assert_eq!(out.len(), 2);
    assert_eq!(out[0].to, 2);
    assert_eq!(out[1].to, 3);
    assert!(out.iter().all(|o| matches!(o.packet.pack_type, PacketType::FloodRequest(_))));
    assert_eq!(chat.client().sent_flood_ids(), &vec![1_000]);
    // the later message took the place of the earlier one
    let waiting = chat.client().packet_to_send(21).unwrap();
    assert_eq!(waiting.session_id, 1);
}
