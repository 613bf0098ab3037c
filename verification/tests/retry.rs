//! The bounded retry escalation of the Dropped-NACK state machine.

use chat_client::client::{Action, ChatClient, RetryConfig};
use chat_client::packet::{FloodResponse, Nack, NackType, NodeRole, PacketType};

fn diamond_client() -> ChatClient {
    let mut client = ChatClient::new(
        1,
        RetryConfig {
            path_switch_threshold: 3,
            reflood_threshold: 5,
        },
    );
    client.add_neighbor(2);
    client.add_neighbor(3);
    client.process_flood_response(&FloodResponse {
        flood_id: 0,
        path_trace: vec![
            (1, NodeRole::Client),
            (2, NodeRole::Relay),
            (4, NodeRole::Server),
        ],
    });
    client.process_flood_response(&FloodResponse {
        flood_id: 1,
        path_trace: vec![
            (1, NodeRole::Client),
            (3, NodeRole::Relay),
            (4, NodeRole::Server),
        ],
    });
    client
}

fn resent_hops(action: &Action) -> Vec<u8> {
    match action {
        Action::Send { packet, .. } => match &packet.pack_type {
            PacketType::MsgFragment(_) => packet.routing_header.hops.clone(),
            _ => panic!("the resend carries the fragment"),
        },
        _ => panic!("the resend goes on a neighbor channel"),
    }
}

#[test]
fn retry_switches_path_at_low_threshold_and_refloods_past_high() {
    let mut client = diamond_client();
    let sent = client.send_message(&vec![7], 4);
    assert_eq!(sent.len(), 1);
    assert_eq!(resent_hops(&sent[0]), vec![1, 2, 4]);
    let nack = Nack {
        fragment_index: 0,
        nack_type: NackType::Dropped,
    };

    // Attempts 1 and 2 sit below the switch threshold: the packet is resent
    // unchanged on its stored path.
    for _ in 0..2 {
        let actions = client.process_nack(&nack, 0);
        assert_eq!(actions.len(), 1);
        assert_eq!(resent_hops(&actions[0]), vec![1, 2, 4]);
    }

    // Attempts 3 to 5 have reached the switch threshold: the resend uses a
    // randomly chosen known route to the destination.
    for _ in 0..3 {
        let actions = client.process_nack(&nack, 0);
        assert_eq!(actions.len(), 1);
        let hops = resent_hops(&actions[0]);
        assert!(hops == vec![1, 2, 4] || hops == vec![1, 3, 4]);
    }

    // Attempt 6 passes the re-flood threshold: the topology is wiped and a
    // fresh discovery round goes to both neighbors before the resend.
    let actions = client.process_nack(&nack, 0);
    assert_eq!(actions.len(), 3);
    for a in &actions[0..2] {
        match a {
            Action::Send { packet, .. } => {
                assert!(matches!(packet.pack_type, PacketType::FloodRequest(_)));
            }
            _ => panic!("the re-flood is broadcast first"),
        }
    }
    match &actions[2] {
        Action::Send { packet, .. } => {
            assert!(matches!(packet.pack_type, PacketType::MsgFragment(_)));
        }
        _ => panic!("the retry continues after the re-flood"),
    }
    assert!(client.router.topology.nodes.is_empty());

    // The counter is cumulative: the next attempt refloods again.
    let actions = client.process_nack(&nack, 0);
    assert_eq!(actions.len(), 3);
}
