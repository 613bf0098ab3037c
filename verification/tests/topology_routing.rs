//! Topology discovery and path computation.

use chat_client::packet::NodeRole;
use chat_client::routing::{AltRoute, Router, RoutingError};
use chat_client::topology::NetworkTopology;

fn has_link(t: &NetworkTopology, a: u8, b: u8) -> bool {
    t.nodes.iter().any(|n| n.id == a && n.neighbors.contains(&b))
}

fn router_with_paths(id: u8, traces: &[&[(u8, NodeRole)]]) -> Router {
    let mut router = Router::new(id, NodeRole::Client);
    for (i, trace) in traces.iter().enumerate() {
        let response = chat_client::packet::FloodResponse {
            flood_id: i as u64,
            path_trace: trace.to_vec(),
        };
        router.handle_flood_response(&response);
    }
    router
}

#[test]
fn path_trace_adds_symmetric_edges() {
    let mut t = NetworkTopology::new();
    t.process_path_trace(&vec![
        (1, NodeRole::Client),
        (2, NodeRole::Relay),
        (3, NodeRole::Server),
    ]);
    assert!(has_link(&t, 1, 2));
    assert!(has_link(&t, 2, 1));
    assert!(has_link(&t, 2, 3));
    assert!(has_link(&t, 3, 2));
    assert!(!has_link(&t, 1, 3));
    assert!(!has_link(&t, 3, 1));
}

#[test]
fn path_trace_updates_roles() {
    let mut t = NetworkTopology::new();
    t.process_path_trace(&vec![(1, NodeRole::Client), (2, NodeRole::Relay)]);
    t.process_path_trace(&vec![(1, NodeRole::Client), (2, NodeRole::Server)]);
    let servers = t.server_ids();
    assert_eq!(servers, vec![2]);
}

#[test]
fn empty_trace_changes_nothing() {
    let mut router = Router::new(1, NodeRole::Client);
    let response = chat_client::packet::FloodResponse {
        flood_id: 1,
        path_trace: Vec::new(),
    };
    router.handle_flood_response(&response);
    assert!(router.topology.nodes.is_empty());
}

#[test]
fn find_paths_on_line_graph() {
    let mut t = NetworkTopology::new();
    t.process_path_trace(&vec![
        (1, NodeRole::Client),
        (2, NodeRole::Relay),
        (3, NodeRole::Server),
    ]);
    let paths = t.find_paths_to(1, 3);
    assert_eq!(paths, vec![vec![1, 2, 3]]);
}

#[test]
fn find_paths_unreachable_returns_empty() {
    let mut t = NetworkTopology::new();
    t.process_path_trace(&vec![(1, NodeRole::Client), (2, NodeRole::Relay)]);
    t.process_path_trace(&vec![(3, NodeRole::Relay), (4, NodeRole::Server)]);
    assert!(t.find_paths_to(1, 4).is_empty());
}

#[test]
fn no_path_yields_routing_error() {
    let router = router_with_paths(1, &[&[(1, NodeRole::Client), (2, NodeRole::Relay)]]);
    assert!(matches!(
        router.get_source_routing_header(9),
        Err(RoutingError::NoPathFound)
    ));
    assert!(router.get_multiple_source_routing_headers(9).is_empty());
}

#[test]
fn diamond_graph_has_two_paths() {
    let mut t = NetworkTopology::new();
    t.process_path_trace(&vec![
        (1, NodeRole::Client),
        (2, NodeRole::Relay),
        (4, NodeRole::Server),
    ]);
    t.process_path_trace(&vec![
        (1, NodeRole::Client),
        (3, NodeRole::Relay),
        (4, NodeRole::Server),
    ]);
    let paths = t.find_paths_to(1, 4);
    assert_eq!(paths.len(), 2);
    assert!(paths.contains(&vec![1, 2, 4]));
    assert!(paths.contains(&vec![1, 3, 4]));
}

#[test]
fn routing_header_starts_at_first_forward_hop() {
    let router = router_with_paths(
        1,
        &[&[
            (1, NodeRole::Client),
            (2, NodeRole::Relay),
            (4, NodeRole::Server),
        ]],
    );
    let header = router.get_source_routing_header(4).unwrap();
    assert_eq!(header.hops, vec![1, 2, 4]);
    assert_eq!(header.hop_index, 1);
}

#[test]
fn alternate_route_avoids_excluded_node() {
    let mut router = router_with_paths(
        1,
        &[
            &[
                (1, NodeRole::Client),
                (2, NodeRole::Relay),
                (4, NodeRole::Server),
            ],
            &[
                (1, NodeRole::Client),
                (3, NodeRole::Relay),
                (4, NodeRole::Server),
            ],
        ],
    );
    match router.get_alternate_routing_header(4, 2) {
        AltRoute::Found(header) => {
            assert_eq!(header.hops, vec![1, 3, 4]);
            assert!(!header.hops.contains(&2));
        }
        AltRoute::Unreachable { .. } => panic!("an alternate route exists"),
    }
}

#[test]
fn no_alternate_route_wipes_topology_and_refloods() {
    let mut router = router_with_paths(
        1,
        &[&[
            (1, NodeRole::Client),
            (2, NodeRole::Relay),
            (4, NodeRole::Server),
        ]],
    );
    let old_counter = router.flood_counter;
    match router.get_alternate_routing_header(4, 2) {
        AltRoute::Found(_) => panic!("every route crosses node 2"),
        AltRoute::Unreachable { flood_request } => {
            assert!(router.topology.nodes.is_empty());
            assert_eq!(router.flood_counter, old_counter + 1);
            match flood_request.pack_type {
                chat_client::packet::PacketType::FloodRequest(req) => {
                    assert_eq!(req.flood_id, router.flood_counter);
                    assert_eq!(req.initiator_id, 1);
                    assert_eq!(req.path_trace, vec![(1, NodeRole::Client)]);
                }
                _ => panic!("a re-flood starts with a flood request"),
            }
        }
    }
}

#[test]
fn crashed_node_leaves_graph_and_later_routes() {
    let mut router = router_with_paths(
        1,
        &[
            &[
                (1, NodeRole::Client),
                (2, NodeRole::Relay),
                (4, NodeRole::Server),
            ],
            &[
                (1, NodeRole::Client),
                (3, NodeRole::Relay),
                (4, NodeRole::Server),
            ],
        ],
    );
    router.drone_crashed(2);
    assert!(!router.topology.nodes.iter().any(|n| n.id == 2));
    let header = router.get_source_routing_header(4).unwrap();
    assert!(!header.hops.contains(&2));
    for h in router.get_multiple_source_routing_headers(4) {
        assert!(!h.hops.contains(&2));
    }
}

#[test]
fn server_list_names_servers_only() {
    let router = router_with_paths(
        1,
        &[&[
            (1, NodeRole::Client),
            (2, NodeRole::Relay),
            (4, NodeRole::Server),
        ]],
    );
    assert_eq!(router.get_server_list(), vec![4]);
}
