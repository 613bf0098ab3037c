//! The protocol engine of one node: flooding, dispatch, sending, recovery.

use chat_client::client::{Action, ChatClient, RetryConfig};
use chat_client::packet::{
    Ack, FloodRequest, FloodResponse, Fragment, Nack, NackType, NodeRole, Packet, PacketType,
    RoutingHeader,
};

fn config() -> RetryConfig {
    RetryConfig {
        path_switch_threshold: 3,
        reflood_threshold: 30,
    }
}

fn client_with(id: u8, neighbors: &[u8], traces: &[&[(u8, NodeRole)]]) -> ChatClient {
    let mut client = ChatClient::new(id, config());
    for &n in neighbors {
        client.add_neighbor(n);
    }
    for (i, trace) in traces.iter().enumerate() {
        client.process_flood_response(&FloodResponse {
            flood_id: i as u64,
            path_trace: trace.to_vec(),
        });
    }
    client
}

fn line_to_4() -> &'static [(u8, NodeRole)] {
    &[
        (1, NodeRole::Client),
        (2, NodeRole::Relay),
        (4, NodeRole::Server),
    ]
}

fn detour_to_4() -> &'static [(u8, NodeRole)] {
    &[
        (1, NodeRole::Client),
        (3, NodeRole::Relay),
        (4, NodeRole::Server),
    ]
}

#[test]
fn flood_request_fans_out_once_and_repeat_is_answered() {
    let mut client = client_with(1, &[2, 3], &[]);
    let request = FloodRequest {
        flood_id: 9,
        initiator_id: 5,
        path_trace: vec![(5, NodeRole::Client), (2, NodeRole::Relay)],
    };
    let first = client.handle_flood_request(&request, 11);
    assert_eq!(first.len(), 1);
    match &first[0] {
        Action::Send { neighbor, packet } => {
            assert_eq!(*neighbor, 3);
            match &packet.pack_type {
                PacketType::FloodRequest(fwd) => {
                    assert_eq!(fwd.flood_id, 9);
                    assert_eq!(fwd.initiator_id, 5);
                    assert_eq!(
                        fwd.path_trace,
                        vec![
                            (5, NodeRole::Client),
                            (2, NodeRole::Relay),
                            (1, NodeRole::Client)
                        ]
                    );
                }
                _ => panic!("the fan-out forwards the flood request"),
            }
        }
        _ => panic!("the fan-out sends to the other neighbor"),
    }
    let second = client.handle_flood_request(&request, 12);
    assert_eq!(second.len(), 1);
    match &second[0] {
        Action::Send { neighbor, packet } => {
            assert_eq!(*neighbor, 2);
            match &packet.pack_type {
                PacketType::FloodResponse(resp) => {
                    assert_eq!(resp.flood_id, 9);
                    assert_eq!(resp.path_trace.len(), 3);
                }
                _ => panic!("the repeat is answered with a flood response"),
            }
            assert_eq!(packet.routing_header.hops, vec![1, 2, 5]);
            assert_eq!(packet.routing_header.hop_index, 1);
        }
        _ => panic!("the repeat is answered directly"),
    }
}

#[test]
fn flood_request_at_dead_end_is_answered() {
    let mut client = client_with(1, &[2], &[]);
    let request = FloodRequest {
        flood_id: 4,
        initiator_id: 5,
        path_trace: vec![(5, NodeRole::Client), (2, NodeRole::Relay)],
    };
    let actions = client.handle_flood_request(&request, 1);
    assert_eq!(actions.len(), 1);
    match &actions[0] {
        Action::Send { neighbor, packet } => {
            assert_eq!(*neighbor, 2);
            assert!(matches!(
                packet.pack_type,
                PacketType::FloodResponse(_)
            ));
        }
        _ => panic!("a dead end answers the sender directly"),
    }
}

#[test]
fn start_flooding_reaches_every_neighbor() {
    let mut client = client_with(1, &[2, 3], &[]);
    let actions = client.start_flooding();
    assert_eq!(actions.len(), 2);
    let mut seen = Vec::new();
    for a in &actions {
        match a {
            Action::Send { neighbor, packet } => {
                seen.push(*neighbor);
                match &packet.pack_type {
                    PacketType::FloodRequest(req) => {
                        assert_eq!(req.initiator_id, 1);
                        assert_eq!(req.path_trace, vec![(1, NodeRole::Client)]);
                    }
                    _ => panic!("a discovery round sends flood requests"),
                }
            }
            _ => panic!("a discovery round sends to neighbors"),
        }
    }
    assert_eq!(seen, vec![2, 3]);
}

#[test]
fn misaddressed_packet_is_answered_with_unexpected_recipient() {
    let mut client = client_with(1, &[2], &[]);
    let packet = Packet {
        routing_header: RoutingHeader {
            hops: vec![2, 5, 4],
            hop_index: 1,
        },
        session_id: 3,
        pack_type: PacketType::Ack(Ack { fragment_index: 0 }),
    };
    let actions = client.handle_packet(packet);
    assert_eq!(actions.len(), 1);
    match &actions[0] {
        Action::Send { neighbor, packet } => {
            assert_eq!(*neighbor, 2);
            assert_eq!(packet.routing_header.hops, vec![1, 2]);
            match &packet.pack_type {
                PacketType::Nack(nack) => {
                    assert_eq!(nack.nack_type, NackType::UnexpectedRecipient(1));
                }
                _ => panic!("a misaddressed packet is answered with a NACK"),
            }
        }
        _ => panic!("the NACK travels back to the previous hop"),
    }
}

#[test]
fn relay_forwards_to_connected_next_hop() {
    let mut client = client_with(1, &[2, 3], &[]);
    let packet = Packet {
        routing_header: RoutingHeader {
            hops: vec![2, 1, 3],
            hop_index: 1,
        },
        session_id: 6,
        pack_type: PacketType::Ack(Ack { fragment_index: 0 }),
    };
    let actions = client.handle_packet(packet);
    assert_eq!(actions.len(), 1);
    match &actions[0] {
        Action::Send { neighbor, packet } => {
            assert_eq!(*neighbor, 3);
            assert_eq!(packet.routing_header.hop_index, 2);
            assert_eq!(packet.routing_header.hops, vec![2, 1, 3]);
        }
        _ => panic!("the relay forwards the packet"),
    }
}

#[test]
fn relay_without_next_hop_answers_error_in_routing() {
    let mut client = client_with(1, &[2], &[]);
    let packet = Packet {
        routing_header: RoutingHeader {
            hops: vec![2, 1, 3],
            hop_index: 1,
        },
        session_id: 6,
        pack_type: PacketType::MsgFragment(Fragment {
            fragment_index: 7,
            total_n_fragments: 9,
            data: vec![1],
        }),
    };
    let actions = client.handle_packet(packet);
    assert_eq!(actions.len(), 1);
    match &actions[0] {
        Action::Send { neighbor, packet } => {
            assert_eq!(*neighbor, 2);
            assert_eq!(packet.routing_header.hops, vec![1, 2]);
            match &packet.pack_type {
                PacketType::Nack(nack) => {
                    assert_eq!(nack.fragment_index, 7);
                    assert_eq!(nack.nack_type, NackType::ErrorInRouting(1));
                }
                _ => panic!("a missing next hop is answered with a NACK"),
            }
        }
        _ => panic!("the NACK travels back to the previous hop"),
    }
}

#[test]
fn fragment_at_destination_is_acknowledged_and_delivered() {
    let mut client = client_with(1, &[2], &[]);
    let payload = vec![10, 20, 30];
    let packet = Packet {
        routing_header: RoutingHeader {
            hops: vec![2, 1],
            hop_index: 1,
        },
        session_id: 5,
        pack_type: PacketType::MsgFragment(Fragment {
            fragment_index: 0,
            total_n_fragments: 1,
            data: payload.clone(),
        }),
    };
    let actions = client.handle_packet(packet);
    assert_eq!(actions.len(), 2);
    match &actions[0] {
        Action::Send { neighbor, packet } => {
            assert_eq!(*neighbor, 2);
            assert_eq!(packet.routing_header.hops, vec![1, 2]);
            match &packet.pack_type {
                PacketType::Ack(ack) => assert_eq!(ack.fragment_index, 0),
                _ => panic!("every received fragment is acknowledged"),
            }
        }
        _ => panic!("the acknowledgement travels back to the source"),
    }
    match &actions[1] {
        Action::Deliver {
            session_id,
            source,
            message,
        } => {
            assert_eq!(*session_id, 5);
            assert_eq!(*source, 2);
            assert_eq!(*message, payload);
        }
        _ => panic!("a completed message is delivered"),
    }
}

#[test]
fn send_message_fragments_and_records() {
    let mut client = client_with(1, &[2], &[line_to_4()]);
    let content: Vec<u8> = (0..300).map(|i| (i % 256) as u8).collect();
    let actions = client.send_message(&content, 4);
    assert_eq!(actions.len(), 3);
    for (i, a) in actions.iter().enumerate() {
        match a {
            Action::Send { neighbor, packet } => {
                assert_eq!(*neighbor, 2);
                assert_eq!(packet.routing_header.hops, vec![1, 2, 4]);
                assert_eq!(packet.routing_header.hop_index, 1);
                assert_eq!(packet.session_id, 0);
                match &packet.pack_type {
                    PacketType::MsgFragment(f) => {
                        assert_eq!(f.fragment_index, i as u64);
                        assert_eq!(f.total_n_fragments, 3);
                    }
                    _ => panic!("an outbound message is sent as fragments"),
                }
            }
            _ => panic!("every fragment goes on the neighbor channel"),
        }
    }
    for i in 0..3u64 {
        let (_, count) = client.cache.get(0, i).expect("every fragment is pending");
        assert_eq!(count, 1);
    }
}

#[test]
fn send_message_to_unreachable_destination_sends_nothing() {
    let mut client = client_with(1, &[2], &[]);
    let actions = client.send_message(&vec![1, 2, 3], 4);
    assert!(actions.is_empty());
}

#[test]
fn ack_clears_pending_fragment() {
    let mut client = client_with(1, &[2], &[line_to_4()]);
    let actions = client.send_message(&vec![9], 4);
    assert_eq!(actions.len(), 1);
    let ack = Packet {
        routing_header: RoutingHeader {
            hops: vec![4, 2, 1],
            hop_index: 2,
        },
        session_id: 0,
        pack_type: PacketType::Ack(Ack { fragment_index: 0 }),
    };
    assert!(client.handle_packet(ack).is_empty());
    // Nothing is pending: a later NACK for the fragment changes nothing.
    let nack = Nack {
        fragment_index: 0,
        nack_type: NackType::Dropped,
    };
    assert!(client.process_nack(&nack, 0).is_empty());
}

#[test]
fn reroute_avoids_faulty_node() {
    let mut client = client_with(1, &[2, 3], &[line_to_4(), detour_to_4()]);
    let sent = client.send_message(&vec![5], 4);
    assert_eq!(sent.len(), 1);
    match &sent[0] {
        Action::Send { neighbor, packet } => {
            assert_eq!(*neighbor, 2);
            assert_eq!(packet.routing_header.hops, vec![1, 2, 4]);
        }
        _ => panic!("the first route runs through node 2"),
    }
    let nack = Nack {
        fragment_index: 0,
        nack_type: NackType::ErrorInRouting(2),
    };
    let actions = client.process_nack(&nack, 0);
    assert_eq!(actions.len(), 1);
    match &actions[0] {
        Action::Send { neighbor, packet } => {
            assert_eq!(*neighbor, 3);
            assert_eq!(packet.routing_header.hops, vec![1, 3, 4]);
            assert!(!packet.routing_header.hops.contains(&2));
        }
        _ => panic!("the resend uses the disjoint route"),
    }
    // The faulty node never reappears in later headers for that destination.
    let header = client.router.get_source_routing_header(4).unwrap();
    assert!(!header.hops.contains(&2));
    for h in client.router.get_multiple_source_routing_headers(4) {
        assert!(!h.hops.contains(&2));
    }
}

#[test]
fn reroute_without_alternate_refloods_and_reports() {
    let mut client = client_with(1, &[2], &[line_to_4()]);
    client.send_message(&vec![5], 4);
    let nack = Nack {
        fragment_index: 0,
        nack_type: NackType::ErrorInRouting(2),
    };
    let actions = client.process_nack(&nack, 0);
    assert_eq!(actions.len(), 2);
    match &actions[0] {
        Action::Send { neighbor, packet } => {
            assert_eq!(*neighbor, 2);
            assert!(matches!(packet.pack_type, PacketType::FloodRequest(_)));
        }
        _ => panic!("a forced re-discovery is broadcast"),
    }
    match &actions[1] {
        Action::ReportUndeliverable { packet } => {
            assert_eq!(packet.session_id, 0);
        }
        _ => panic!("the packet is reported undeliverable"),
    }
    assert!(client.router.topology.nodes.is_empty());
    // The entry is gone: another NACK changes nothing.
    assert!(client.process_nack(&nack, 0).is_empty());
}

#[test]
fn destination_is_drone_is_terminal() {
    let mut client = client_with(1, &[2], &[line_to_4()]);
    client.send_message(&vec![5], 4);
    let nack = Nack {
        fragment_index: 0,
        nack_type: NackType::DestinationIsDrone,
    };
    let actions = client.process_nack(&nack, 0);
    assert_eq!(actions.len(), 1);
    assert!(matches!(actions[0], Action::ReportUndeliverable { .. }));
    assert!(client.process_nack(&nack, 0).is_empty());
}

#[test]
fn running_and_registration_flags() {
    let mut client = ChatClient::new(1, config());
    assert!(!client.is_running());
    assert!(!client.is_registered());
    client.start();
    assert!(client.is_running());
    client.set_registered(Some(4));
    assert!(client.is_registered());
    client.set_registered(None);
    assert!(!client.is_registered());
}

#[test]
fn neighbors_are_kept_once_and_removable() {
    let mut client = ChatClient::new(1, config());
    client.add_neighbor(2);
    client.add_neighbor(2);
    client.add_neighbor(3);
    let actions = client.start_flooding();
    assert_eq!(actions.len(), 2);
    client.remove_neighbor(2);
    let actions = client.start_flooding();
    assert_eq!(actions.len(), 1);
}

#[test]
fn flood_request_packet_goes_through_the_dispatcher() {
    let mut client = client_with(1, &[2, 3], &[]);
    let packet = Packet {
        routing_header: RoutingHeader {
            hops: Vec::new(),
            hop_index: 0,
        },
        session_id: 8,
        pack_type: PacketType::FloodRequest(FloodRequest {
            flood_id: 2,
            initiator_id: 5,
            path_trace: vec![(5, NodeRole::Client), (2, NodeRole::Relay)],
        }),
    };
    let actions = client.handle_packet(packet);
    assert_eq!(actions.len(), 1);
    match &actions[0] {
        Action::Send { neighbor, .. } => assert_eq!(*neighbor, 3),
        _ => panic!("a fresh flood request fans out"),
    }
}

#[test]
fn flood_request_with_empty_trace_is_dropped() {
    let mut client = client_with(1, &[2], &[]);
    let request = FloodRequest {
        flood_id: 2,
        initiator_id: 5,
        path_trace: Vec::new(),
    };
    assert!(client.handle_flood_request(&request, 1).is_empty());
}

#[test]
fn flood_response_in_transit_is_relayed() {
    let mut client = client_with(1, &[2, 5], &[]);
    let packet = Packet {
        routing_header: RoutingHeader {
            hops: vec![2, 1, 5],
            hop_index: 1,
        },
        session_id: 8,
        pack_type: PacketType::FloodResponse(FloodResponse {
            flood_id: 2,
            path_trace: vec![(5, NodeRole::Client), (1, NodeRole::Client)],
        }),
    };
    let actions = client.handle_packet(packet);
    assert_eq!(actions.len(), 1);
    match &actions[0] {
        Action::Send { neighbor, packet } => {
            assert_eq!(*neighbor, 5);
            assert_eq!(packet.routing_header.hop_index, 2);
        }
        _ => panic!("a flood response in transit is relayed"),
    }
}

#[test]
fn flood_response_at_destination_feeds_the_topology() {
    let mut client = client_with(1, &[2], &[]);
    let packet = Packet {
        routing_header: RoutingHeader {
            hops: vec![4, 2, 1],
            hop_index: 2,
        },
        session_id: 8,
        pack_type: PacketType::FloodResponse(FloodResponse {
            flood_id: 2,
            path_trace: vec![
                (1, NodeRole::Client),
                (2, NodeRole::Relay),
                (4, NodeRole::Server),
            ],
        }),
    };
    assert!(client.handle_packet(packet).is_empty());
    let header = client.router.get_source_routing_header(4).unwrap();
    assert_eq!(header.hops, vec![1, 2, 4]);
}
