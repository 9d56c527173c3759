use rustafarian_client::assembler::Assembler;
use rustafarian_client::client::Client;
use rustafarian_client::disassembler::Disassembler;
use rustafarian_client::model::{ClientEvent, Ids, ProtocolError, MIN_FLOOD_INTERVAL};
use rustafarian_client::packet::{
    Ack, FloodRequest, Fragment, Nack, NackType, NodeType, Packet, PacketKind, PacketType,
    SourceRoutingHeader,
};
use rustafarian_client::references::parse_references;
use rustafarian_client::utils::{LogLevel, LogStream, Utils};

const NOW: u128 = 1_000_000;

fn ids(session_id: u64) -> Ids {
    Ids { session_id, flood_id: session_id + 1_000, flood_session_id: session_id + 2_000 }
}

fn query() -> Vec<u8> {
    b"{\"ServerType\":\"ServerType\"}".to_vec()
}

/// Client 1 with the drone 2 as its neighbour and the server 21 behind it.
fn build_client() -> Client {
    let mut client = Client::new(1, vec![2], query());
    let topology = client.topology_mut();
    topology.add_node(2);
    topology.set_node_type(2, NodeType::Drone);
    topology.add_node(21);
    topology.set_node_type(21, NodeType::Server);
    topology.add_edge(2, 21);
    topology.add_edge(1, 2);
    client
}

fn payload(n: usize) -> Vec<u8> {
    (0..n).map(|i| (i % 251) as u8).collect()
}

#[test]
fn empty_payload_is_one_fragment_of_length_0() {
    let fragments = Disassembler::new().disassemble_message(Vec::new(), 5);
    assert_eq!(fragments.len(), 1);
    assert_eq!(fragments[0].length, 0);
    assert_eq!(fragments[0].total_n_fragments, 1);
    assert_eq!(fragments[0].fragment_index, 0);
    assert_eq!(fragments[0].data, [0u8; 128]);
}

#[test]
fn whole_blocks_give_full_fragments() {
    for n in 1..5usize {
        let fragments = Disassembler::new().disassemble_message(payload(128 * n), 5);
        assert_eq!(fragments.len(), n);
        for (i, f) in fragments.iter().enumerate() {
            assert_eq!(f.length, 128);
            assert_eq!(f.total_n_fragments, n as u64);
            assert_eq!(f.fragment_index, i as u64);
        }
    }
}

#[test]
fn last_fragment_is_shorter_and_padded() {
    let bytes = payload(300);
    let fragments = Disassembler::new().disassemble_message(bytes.clone(), 5);
    assert_eq!(fragments.len(), 3);
    assert_eq!(fragments[0].length, 128);
    assert_eq!(fragments[1].length, 128);
    assert_eq!(fragments[2].length, 44);
    assert_eq!(&fragments[1].data[..], &bytes[128..256]);
    assert_eq!(&fragments[2].data[..44], &bytes[256..]);
    assert!(fragments[2].data[44..].iter().all(|b| *b == 0));
    let one = Disassembler::new().disassemble_message(payload(129), 5);
    assert_eq!(one.len(), 2);
    assert_eq!(one[1].length, 1);
}

#[test]
fn fragment_then_reassemble_gives_the_payload() {
    for n in [0usize, 1, 127, 128, 129, 255, 256, 257, 1000] {
        let bytes = payload(n);
        let fragments = Disassembler::new().disassemble_message(bytes.clone(), 3);
        let mut assembler = Assembler::new();
        let last = fragments.len() - 1;
        for (i, f) in fragments.iter().enumerate() {
            let out = assembler.add_fragment(*f, 3);
            if i < last {
                assert!(out.is_none());
                assert!(assembler.is_receiving(3));
            } else {
                assert_eq!(out, Some(bytes.clone()));
                assert!(!assembler.is_receiving(3));
            }
        }
    }
}

#[test]
fn reassembly_tolerates_any_order_and_duplicates() {
    let bytes = payload(600);
    let fragments = Disassembler::new().disassemble_message(bytes.clone(), 3);
    assert_eq!(fragments.len(), 5);
    let mut assembler = Assembler::new();
    assert!(assembler.add_fragment(fragments[3], 9).is_none());
    assert!(assembler.add_fragment(fragments[0], 9).is_none());
    assert!(assembler.add_fragment(fragments[3], 9).is_none());
    assert!(assembler.add_fragment(fragments[4], 9).is_none());
    assert!(assembler.add_fragment(fragments[0], 9).is_none());
    assert!(assembler.add_fragment(fragments[2], 9).is_none());
    // another session in between
    assert_eq!(
        assembler.add_fragment(Disassembler::new().disassemble_message(vec![7], 1)[0], 10),
        Some(vec![7])
    );
    assert_eq!(assembler.add_fragment(fragments[1], 9), Some(bytes));
    // the buffer is released, and a late fragment is discarded
    assert!(assembler.has_completed(9));
    assert!(assembler.add_fragment(fragments[1], 9).is_none());
    assert!(!assembler.is_receiving(9));
    // even one that would be a whole message
    let whole = Disassembler::new().disassemble_message(vec![7], 1)[0];
    assert!(assembler.add_fragment(whole, 9).is_none());
    assert!(assembler.add_fragment(whole, 10).is_none());
    assert_eq!(assembler.add_fragment(whole, 11), Some(vec![7]));
}

#[test]
fn a_length_above_128_counts_as_128() {
    let mut assembler = Assembler::new();
    let out = assembler.add_fragment(
        Fragment { fragment_index: 0, total_n_fragments: 1, length: 200, data: [4; 128] },
        1,
    );
    assert_eq!(out, Some(vec![4; 128]));
}

#[test]
fn one_ack_for_every_fragment() {
    let mut client = build_client();
    let fragments = Disassembler::new().disassemble_message(payload(300), 0);
    for f in &fragments {
        let packet = Packet {
            pack_type: PacketType::MsgFragment(*f),
            routing_header: SourceRoutingHeader::new(vec![21, 2, 1], 1),
            session_id: 44,
        };
        let received = client.on_drone_packet_received(packet, NOW, ids(0));
        let out = client.take_outbox();
        assert_eq!(out.len(), 1);
        assert_eq!(out[0].to, 2);
        assert_eq!(out[0].packet.session_id, 44);
        assert_eq!(out[0].packet.routing_header.hops, vec![1, 2, 21]);
        assert_eq!(out[0].packet.routing_header.hop_index, 1);
        assert_eq!(out[0].packet.pack_type, PacketType::Ack(Ack { fragment_index: f.fragment_index }));
        assert_eq!(
            client.take_events(),
            vec![
                ClientEvent::PacketReceived(44),
                ClientEvent::PacketSent { session_id: 44, packet_type: PacketKind::Ack }
            ]
        );
        if f.fragment_index == 2 {
            assert_eq!(received.delivered, Some((21, payload(300))));
        } else {
            assert_eq!(received.delivered, None);
        }
    }
}

#[test]
fn ack_without_route_waits_for_one() {
    let mut client = Client::new(1, vec![2], query());
    let fragment = Disassembler::new().disassemble_message(vec![1, 2, 3], 0)[0];
    let packet = Packet {
        pack_type: PacketType::MsgFragment(fragment),
        routing_header: SourceRoutingHeader::new(vec![21, 2, 1], 1),
        session_id: 44,
    };
    let received = client.on_drone_packet_received(packet, NOW, ids(0));
    assert_eq!(received.delivered, Some((21, vec![1, 2, 3])));
    let waiting = client.packet_to_send(21).unwrap();
    assert_eq!(waiting.pack_type, PacketType::Ack(Ack { fragment_index: 0 }));
    assert_eq!(waiting.session_id, 44);
    // nothing went out but the requests of the flood
    let out = client.take_outbox();
    assert_eq!(out.len(), 1);
    assert!(matches!(out[0].packet.pack_type, PacketType::FloodRequest(_)));
}

#[test]
fn fragment_without_sender_is_ignored() {
    let mut client = build_client();
    let fragment = Disassembler::new().disassemble_message(vec![1, 2, 3], 0)[0];
    let packet = Packet {
        pack_type: PacketType::MsgFragment(fragment),
        routing_header: SourceRoutingHeader::new(vec![], 1),
        session_id: 44,
    };
    let received = client.on_drone_packet_received(packet, NOW, ids(0));
    assert_eq!(received.delivered, None);
    assert_eq!(received.error, Some(ProtocolError::NoSender { session_id: 44 }));
    assert!(client.take_outbox().is_empty());
}

#[test]
fn a_node_tagged_server_and_drone_is_asked_once() {
    let trace = vec![(1, NodeType::Client), (5, NodeType::Server), (5, NodeType::Drone)];
    let mut client = Client::new(1, vec![2], query());
    let queries = client.on_flood_response_received(8, &trace, NOW, ids(1));
    assert!(queries[1].is_some());
    assert!(queries[0].is_none() && queries[2].is_none());
    assert_eq!(client.topology().get_node_type(5), Some(NodeType::Drone));
    let queries = client.on_flood_response_received(8, &trace, NOW, ids(2));
    assert!(queries.iter().all(|q| q.is_none()));
    assert_eq!(client.topology().get_node_type(5), Some(NodeType::Drone));
}

fn send_three_fragments(client: &mut Client) {
    client.send_message(21, payload(300), NOW, ids(5));
    assert_eq!(client.take_outbox().len(), 3);
    assert_eq!(client.acked_packets(5).unwrap(), vec![false, false, false]);
    assert_eq!(client.sent_packets(5).unwrap().len(), 3);
}

#[test]
fn acks_set_bits_until_the_session_is_retired() {
    let mut client = build_client();
    send_three_fragments(&mut client);
    assert_eq!(client.on_ack_received(5, 1), None);
    assert_eq!(client.acked_packets(5).unwrap(), vec![false, true, false]);
    assert_eq!(client.on_ack_received(5, 1), None);
    assert_eq!(client.acked_packets(5).unwrap(), vec![false, true, false]);
    client.on_ack_received(5, 0);
    assert_eq!(client.acked_packets(5).unwrap(), vec![true, true, false]);
    // beyond the bits of the session: ignored
    assert_eq!(
        client.on_ack_received(5, 9),
        Some(ProtocolError::FragmentOutOfRange { session_id: 5, fragment_index: 9 })
    );
    assert_eq!(
        client.on_ack_received(5, 3),
        Some(ProtocolError::FragmentOutOfRange { session_id: 5, fragment_index: 3 })
    );
    assert_eq!(client.acked_packets(5).unwrap(), vec![true, true, false]);
    assert_eq!(client.sent_packets(5).unwrap().len(), 3);
    client.on_ack_received(5, 2);
    assert!(!client.is_pending(5));
    assert!(client.acked_packets(5).is_none());
    assert!(client.sent_packets(5).is_none());
    // a late ack or nack changes nothing
    assert_eq!(client.on_ack_received(5, 2), Some(ProtocolError::UnknownSession { session_id: 5 }));
    assert!(!client.is_pending(5));
    let nack = Packet {
        pack_type: PacketType::Nack(Nack { fragment_index: 0, nack_type: NackType::DestinationIsDrone }),
        routing_header: SourceRoutingHeader::new(vec![2, 1], 1),
        session_id: 5,
    };
    let received = client.on_drone_packet_received(nack, NOW + 10 * MIN_FLOOD_INTERVAL, ids(1));
    assert_eq!(received.error, Some(ProtocolError::UnknownSession { session_id: 5 }));
    assert!(!client.is_pending(5));
    assert!(client.take_outbox().is_empty());
}

#[test]
fn ack_for_an_unknown_session_is_ignored() {
    let mut client = build_client();
    assert_eq!(client.on_ack_received(77, 0), Some(ProtocolError::UnknownSession { session_id: 77 }));
    assert!(!client.is_pending(77));
    assert!(client.take_events().is_empty());
}

#[test]
fn nack_beyond_the_log_changes_nothing() {
    let mut client = build_client();
    send_three_fragments(&mut client);
    client.take_events();
    let before = client.topology().nodes().clone();
    let nack = Nack { fragment_index: 3, nack_type: NackType::ErrorInRouting(2) };
    let packet = Packet {
        pack_type: PacketType::Nack(nack),
        routing_header: SourceRoutingHeader::new(vec![2, 1], 1),
        session_id: 5,
    };
    let ignored = client.on_nack_received(&packet, nack, NOW + 10 * MIN_FLOOD_INTERVAL, ids(1));
    assert_eq!(ignored, Some(ProtocolError::FragmentOutOfRange { session_id: 5, fragment_index: 3 }));
    assert_eq!(client.topology().nodes(), &before);
    assert!(client.topology().has_edge(1, 2));
    assert!(client.take_outbox().is_empty());
    assert!(client.take_events().is_empty());
    assert_eq!(client.sent_packets(5).unwrap().len(), 3);
    assert!(client.sent_flood_ids().is_empty());
}

#[test]
fn nack_for_an_unknown_session_changes_nothing() {
    let mut client = build_client();
    let nack = Nack { fragment_index: 0, nack_type: NackType::ErrorInRouting(2) };
    let packet = Packet {
        pack_type: PacketType::Nack(nack),
        routing_header: SourceRoutingHeader::new(vec![21, 2, 1], 1),
        session_id: 999,
    };
    let ignored = client.on_nack_received(&packet, nack, NOW, ids(1));
    assert_eq!(ignored, Some(ProtocolError::UnknownSession { session_id: 999 }));
    assert!(client.topology().nodes().contains(&2));
    assert!(client.take_outbox().is_empty());
    assert!(client.sent_flood_ids().is_empty());
}

#[test]
fn routing_error_removes_a_node_that_is_not_there() {
    let mut client = build_client();
    send_three_fragments(&mut client);
    let nack = Nack { fragment_index: 1, nack_type: NackType::ErrorInRouting(99) };
    let packet = Packet {
        pack_type: PacketType::Nack(nack),
        routing_header: SourceRoutingHeader::new(vec![2, 1], 1),
        session_id: 5,
    };
    client.on_nack_received(&packet, nack, NOW, ids(1));
    assert_eq!(client.topology().nodes(), &vec![2, 21]);
    assert!(client.topology().has_edge(1, 2));
    assert!(client.topology().has_edge(2, 21));
    // a flood was started and the fragment went out again
    let out = client.take_outbox();
    assert_eq!(out.len(), 2);
    assert!(matches!(out[0].packet.pack_type, PacketType::FloodRequest(_)));
    match &out[1].packet.pack_type {
        PacketType::MsgFragment(f) => assert_eq!(f.fragment_index, 1),
        _ => panic!("expected the fragment"),
    }
    assert_eq!(client.sent_flood_ids(), &vec![1_001]);
    // the fragment that went out again is in the log once
    let log = client.sent_packets(5).unwrap();
    assert_eq!(log.len(), 3);
    for (k, packet) in log.iter().enumerate() {
        match &packet.pack_type {
            PacketType::MsgFragment(f) => assert_eq!(f.fragment_index, k as u64),
            _ => panic!("expected a fragment"),
        }
    }
    assert_eq!(client.acked_packets(5).unwrap(), vec![false, false, false]);
}

#[test]
fn a_fragment_that_waits_to_go_out_again_is_not_logged_again() {
    let mut client = build_client();
    send_three_fragments(&mut client);
    // the only drone on the way is reported gone: no route is left
    let nack = Nack { fragment_index: 2, nack_type: NackType::ErrorInRouting(2) };
    let packet = Packet {
        pack_type: PacketType::Nack(nack),
        routing_header: SourceRoutingHeader::new(vec![2, 1], 1),
        session_id: 5,
    };
    assert_eq!(client.on_nack_received(&packet, nack, NOW, ids(1)), None);
    assert!(client.packet_to_send(21).is_some());
    assert_eq!(client.sent_packets(5).unwrap().len(), 3);
    client.take_outbox();
    // the way is found again: the fragment goes out, and is logged no more
    let trace = vec![(1, NodeType::Client), (2, NodeType::Drone), (21, NodeType::Server)];
    client.on_flood_response_received(1_001, &trace, NOW + 1, ids(2));
    let out = client.take_outbox();
    assert_eq!(out.len(), 1);
    match &out[0].packet.pack_type {
        PacketType::MsgFragment(f) => assert_eq!(f.fragment_index, 2),
        _ => panic!("expected the fragment"),
    }
    assert_eq!(out[0].packet.routing_header.hops, vec![1, 2, 21]);
    assert!(client.packet_to_send(21).is_none());
    assert_eq!(client.sent_packets(5).unwrap().len(), 3);
    // a packet that waits without having gone out is logged when it goes
    client.topology_mut().remove_node(2);
    client.send_message(21, vec![1, 2, 3], NOW + 2, ids(6));
    assert!(client.sent_packets(6).is_none());
    client.on_flood_response_received(1_001, &trace, NOW + 3, ids(7));
    assert_eq!(client.sent_packets(6).unwrap().len(), 1);
}

#[test]
fn whole_blocks_go_out_one_packet_each() {
    let mut client = build_client();
    let message = payload(256);
    client.send_message(21, message.clone(), NOW, ids(5));
    let out = client.take_outbox();
    assert_eq!(out.len(), 2);
    for (k, outgoing) in out.iter().enumerate() {
        assert_eq!(outgoing.to, 2);
        assert_eq!(outgoing.packet.session_id, 5);
        assert_eq!(outgoing.packet.routing_header.hops, vec![1, 2, 21]);
        match &outgoing.packet.pack_type {
            PacketType::MsgFragment(f) => {
                assert_eq!(f.fragment_index, k as u64);
                assert_eq!(f.total_n_fragments, 2);
                assert_eq!(f.length, 128);
                assert_eq!(&f.data[..], &message[128 * k..128 * k + 128]);
            }
            _ => panic!("expected a fragment"),
        }
    }
}

#[test]
fn dropped_nack_counts_against_the_reporter_and_starts_no_flood() {
    let mut client = build_client();
    send_three_fragments(&mut client);
    assert_eq!(client.topology().get_node_history(2).forwarded, 3);
    let nack = Nack { fragment_index: 2, nack_type: NackType::Dropped };
    let packet = Packet {
        pack_type: PacketType::Nack(nack),
        routing_header: SourceRoutingHeader::new(vec![2, 1], 1),
        session_id: 5,
    };
    client.on_nack_received(&packet, nack, NOW, ids(1));
    let history = client.topology().get_node_history(2);
    // one for the drop, one for the fragment that went out again
    assert_eq!(history.forwarded, 5);
    assert_eq!(history.dropped, 1);
    assert!(client.sent_flood_ids().is_empty());
    let out = client.take_outbox();
    assert_eq!(out.len(), 1);
    assert!(matches!(out[0].packet.pack_type, PacketType::MsgFragment(_)));
}

#[test]
fn floods_keep_their_distance() {
    let mut client = Client::new(1, vec![2, 3], query());
    // too early after the start of time
    client.send_flood_request(MIN_FLOOD_INTERVAL - 1, ids(0));
    assert!(client.take_outbox().is_empty());
    client.send_flood_request(NOW, ids(1));
    let out = client.take_outbox();
    assert_eq!(out.len(), 2);
    assert_eq!(out[0].to, 2);
    assert_eq!(out[1].to, 3);
    for o in &out {
        assert_eq!(o.packet.session_id, 2_001);
        assert_eq!(o.packet.routing_header.hops, Vec::<u8>::new());
        assert_eq!(o.packet.routing_header.hop_index, 1);
        assert_eq!(
            o.packet.pack_type,
            PacketType::FloodRequest(FloodRequest {
                flood_id: 1_001,
                initiator_id: 1,
                path_trace: vec![(1, NodeType::Client)],
            })
        );
    }
    assert_eq!(client.take_events(), vec![ClientEvent::FloodRequestSent]);
    assert_eq!(client.last_flood_timestamp(), NOW);
    client.send_flood_request(NOW, ids(2));
    client.send_flood_request(NOW + MIN_FLOOD_INTERVAL - 1, ids(3));
    assert!(client.take_outbox().is_empty());
    assert!(client.take_events().is_empty());
    assert_eq!(client.sent_flood_ids(), &vec![1_001]);
    client.send_flood_request(NOW + MIN_FLOOD_INTERVAL, ids(4));
    assert_eq!(client.take_outbox().len(), 2);
    assert_eq!(client.sent_flood_ids(), &vec![1_001, 1_004]);
}

#[test]
fn flood_response_twice_is_as_once() {
    let trace = vec![
        (1, NodeType::Client),
        (2, NodeType::Drone),
        (3, NodeType::Drone),
        (21, NodeType::Server),
        (3, NodeType::Drone),
    ];
    let mut client = Client::new(1, vec![2], query());
    client.send_flood_request(NOW, Ids { flood_id: 8, ..ids(0) });
    let queries = client.on_flood_response_received(8, &trace, NOW, ids(1));
    assert_eq!(queries.iter().filter(|q| q.is_some()).count(), 1);
    assert!(queries[3].is_some());
    let nodes = client.topology().nodes().clone();
    let edges: Vec<Vec<u8>> = (0..=255u8).map(|n| client.topology().neighbors(n)).collect();
    let kinds: Vec<_> = (0..=255u8).map(|n| client.topology().get_node_type(n)).collect();
    client.take_outbox();
    let queries = client.on_flood_response_received(8, &trace, NOW, ids(2));
    assert!(queries.iter().all(|q| q.is_none()));
    assert!(client.take_outbox().is_empty());
    assert_eq!(client.topology().nodes(), &nodes);
    assert_eq!(nodes, vec![1, 2, 3, 21]);
    for n in 0..=255u8 {
        assert_eq!(client.topology().neighbors(n), edges[n as usize]);
        assert_eq!(client.topology().get_node_type(n), kinds[n as usize]);
    }
    assert_eq!(client.topology().neighbors(3), vec![2, 21]);
    // edges run both ways
    for a in 0..=255u8 {
        for b in client.topology().neighbors(a) {
            assert!(client.topology().has_edge(b, a));
        }
    }
}

#[test]
fn flood_response_of_another_flood_is_passed_on() {
    let mut client = build_client();
    let packet = Packet {
        pack_type: PacketType::FloodResponse(rustafarian_client::packet::FloodResponse {
            flood_id: 66,
            path_trace: vec![(21, NodeType::Server), (2, NodeType::Drone), (1, NodeType::Client)],
        }),
        routing_header: SourceRoutingHeader::new(vec![1, 2, 21], 0),
        session_id: 4,
    };
    client.on_drone_packet_received(packet, NOW, ids(0));
    let out = client.take_outbox();
    assert_eq!(out.len(), 1);
    assert_eq!(out[0].to, 2);
    assert_eq!(out[0].packet.routing_header.hop_index, 1);
    assert_eq!(out[0].packet.routing_header.hops, vec![1, 2, 21]);
    assert!(matches!(out[0].packet.pack_type, PacketType::FloodResponse(_)));
}

#[test]
fn flood_request_with_one_neighbour_is_answered() {
    let mut client = Client::new(1, vec![2], query());
    let request = FloodRequest {
        flood_id: 3,
        initiator_id: 21,
        path_trace: vec![(21, NodeType::Server), (2, NodeType::Drone)],
    };
    let packet = Packet {
        pack_type: PacketType::FloodRequest(request.clone()),
        routing_header: SourceRoutingHeader::empty_route(),
        session_id: 17,
    };
    client.on_flood_request_received(&packet, &request);
    let out = client.take_outbox();
    assert_eq!(out.len(), 1);
    assert_eq!(out[0].to, 2);
    assert_eq!(out[0].packet.session_id, 17);
    assert_eq!(out[0].packet.routing_header.hops, vec![1, 2, 21]);
    assert_eq!(out[0].packet.routing_header.hop_index, 1);
    assert_eq!(
        out[0].packet.pack_type,
        PacketType::FloodResponse(rustafarian_client::packet::FloodResponse {
            flood_id: 3,
            path_trace: vec![(21, NodeType::Server), (2, NodeType::Drone), (1, NodeType::Client)],
        })
    );
    // an empty path trace names no sender: ignored
    let empty = FloodRequest { flood_id: 3, initiator_id: 21, path_trace: vec![] };
    assert_eq!(
        client.on_flood_request_received(&packet, &empty),
        Some(ProtocolError::EmptyPathTrace { session_id: 17 })
    );
    assert!(client.take_outbox().is_empty());
}

#[test]
fn packet_with_a_next_hop_that_is_no_neighbour_fails() {
    let mut client = build_client();
    let packet = Packet {
        pack_type: PacketType::Ack(Ack { fragment_index: 0 }),
        routing_header: SourceRoutingHeader::new(vec![1, 3, 21], 1),
        session_id: 12,
    };
    client.send_packet(packet.clone(), 21, NOW, ids(0));
    assert!(client.take_outbox().is_empty());
    assert!(!client.is_pending(12));
    assert_eq!(client.take_events(), vec![ClientEvent::SendFailed { session_id: 12 }]);
    let packet = Packet { routing_header: SourceRoutingHeader::new(vec![1], 1), ..packet };
    client.send_packet(packet, 21, NOW, ids(0));
    assert_eq!(client.take_events(), vec![ClientEvent::SendFailed { session_id: 12 }]);
}

#[test]
fn neighbours_are_kept_once() {
    let mut client = Client::new(1, vec![2, 3, 2, 4, 3], query());
    assert_eq!(client.neighbors(), &vec![2, 3, 4]);
    client.add_sender(3, NOW, ids(0));
    assert_eq!(client.neighbors(), &vec![2, 3, 4]);
    client.remove_sender(3);
    assert_eq!(client.neighbors(), &vec![2, 4]);
    client.remove_sender(3);
    assert_eq!(client.neighbors(), &vec![2, 4]);
}

#[test]
fn start_without_neighbours_starts_no_flood() {
    let mut client = Client::new(1, vec![], query());
    client.start(NOW, ids(0));
    assert!(client.is_running());
    assert!(client.take_events().is_empty());
    assert!(client.sent_flood_ids().is_empty());
}

#[test]
fn random_ids_differ() {
    let a = Ids::random();
    let b = Ids::random();
    // three equal draws in a row are as good as impossible
    assert!(!(a.session_id == b.session_id && a.flood_id == b.flood_id && a.flood_session_id == b.flood_session_id));
}

#[test]
fn references_are_read_from_the_first_line() {
    assert_eq!(parse_references(b"ref=1\nasd"), Some(vec![1]));
    assert_eq!(parse_references(b"ref=1,2,3"), Some(vec![1, 2, 3]));
    assert_eq!(parse_references(b"ref=1,2,3\r\nmore"), Some(vec![1, 2, 3]));
    assert_eq!(parse_references(b"ref=1,2,3\rmore"), Some(vec![1, 2]));
    assert_eq!(parse_references(b"ref=255,256,0,007,+9,-1, 4,4 ,,+"), Some(vec![255, 0, 7, 9]));
    assert_eq!(parse_references(b"ref=1,2=3,4"), Some(vec![1, 2]));
    assert_eq!(parse_references(b"ref="), Some(vec![]));
    assert_eq!(parse_references(b"ref=\n1"), Some(vec![]));
    assert_eq!(parse_references(b"ref=00000000000000000000001"), Some(vec![1]));
    assert_eq!(parse_references(b"ref=99999999999999999999999"), Some(vec![]));
    assert_eq!(parse_references(b"ref"), None);
    assert_eq!(parse_references(b"re\nf=1"), None);
    assert_eq!(parse_references(b"Ref=1"), None);
    assert_eq!(parse_references(b" ref=1"), None);
    assert_eq!(parse_references(b""), None);
    assert_eq!(parse_references(b"\nref=1"), None);
}

#[test]
fn log_lines_go_where_their_level_says() {
    let quiet = Utils::new(3, false, "ChatClient".to_string());
    let loud = Utils::new(3, true, "ChatClient".to_string());
    assert_eq!(quiet.get_id(), 3);
    assert_eq!(quiet.get_node_name(), "ChatClient");
    assert!(quiet.is_logged(LogLevel::INFO));
    assert!(!quiet.is_logged(LogLevel::DEBUG));
    assert!(quiet.is_logged(LogLevel::ERROR));
    assert!(loud.is_logged(LogLevel::DEBUG));
    assert_eq!(Utils::stream(LogLevel::INFO), LogStream::Stdout);
    assert_eq!(Utils::stream(LogLevel::DEBUG), LogStream::Stdout);
    assert_eq!(Utils::stream(LogLevel::ERROR), LogStream::Stderr);
}

#[test]
fn log_lines_name_level_node_and_message() {
    let quiet = Utils::new(3, false, "ChatClient".to_string());
    assert_eq!(
        quiet.render("Client running", LogLevel::INFO),
        Some("LEVEL: INFO >>> [ChatClient 3] - Client running".to_string())
    );
    assert_eq!(quiet.render("hidden", LogLevel::DEBUG), None);
    assert_eq!(
        quiet.render("oops", LogLevel::ERROR),
        Some("LEVEL: ERROR >>> [ChatClient 3] - oops".to_string())
    );
    let loud = Utils::new(207, true, "BrowserClient".to_string());
    assert_eq!(
        loud.render("", LogLevel::DEBUG),
        Some("LEVEL: DEBUG >>> [BrowserClient 207] - ".to_string())
    );
    for (id, text) in [(0u8, "0"), (9, "9"), (10, "10"), (42, "42"), (99, "99"), (100, "100"), (255, "255")] {
        let utils = Utils::new(id, false, "n".to_string());
        assert_eq!(utils.render("m", LogLevel::INFO), Some(format!("LEVEL: INFO >>> [n {}] - m", text)));
    }
}
