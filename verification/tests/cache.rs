//! The pending-fragment cache.

use chat_client::cache::PacketCache;
use chat_client::packet::{Ack, Fragment, Packet, PacketType, RoutingHeader};

fn fragment_packet(session_id: u64, fragment_index: u64) -> Packet {
    Packet {
        routing_header: RoutingHeader {
            hops: vec![1, 2, 4],
            hop_index: 1,
        },
        session_id,
        pack_type: PacketType::MsgFragment(Fragment {
            fragment_index,
            total_n_fragments: 1,
            data: vec![42],
        }),
    }
}

#[test]
fn ack_clears_cache() {
    let mut cache = PacketCache::new();
    cache.insert(fragment_packet(7, 0));
    assert!(cache.remove(7, 0));
    assert!(cache.get(7, 0).is_none());
    assert!(cache.remove_and_get(7, 0).is_none());
}

#[test]
fn duplicate_ack_is_detected() {
    let mut cache = PacketCache::new();
    cache.insert(fragment_packet(7, 0));
    assert!(cache.remove(7, 0));
    assert!(!cache.remove(7, 0));
}

#[test]
fn get_charges_one_attempt_each_time() {
    let mut cache = PacketCache::new();
    cache.insert(fragment_packet(3, 1));
    let (p1, c1) = cache.get(3, 1).unwrap();
    assert_eq!(c1, 1);
    assert_eq!(p1.session_id, 3);
    let (_, c2) = cache.get(3, 1).unwrap();
    assert_eq!(c2, 2);
}

#[test]
fn counter_survives_overwriting_insert() {
    let mut cache = PacketCache::new();
    cache.insert(fragment_packet(3, 1));
    cache.get(3, 1);
    cache.get(3, 1);
    cache.insert(fragment_packet(3, 1));
    let (_, c) = cache.get(3, 1).unwrap();
    assert_eq!(c, 3);
}

#[test]
fn reinsert_keeps_an_explicit_counter() {
    let mut cache = PacketCache::new();
    cache.insert(fragment_packet(5, 2));
    cache.get(5, 2);
    let (packet, count) = cache.remove_and_get(5, 2).unwrap();
    assert_eq!(count, 1);
    cache.reinsert(packet, count);
    let (_, c) = cache.get(5, 2).unwrap();
    assert_eq!(c, 2);
}

#[test]
fn keys_are_independent() {
    let mut cache = PacketCache::new();
    cache.insert(fragment_packet(1, 0));
    cache.insert(fragment_packet(1, 1));
    cache.insert(fragment_packet(2, 0));
    assert!(cache.remove(1, 0));
    assert!(cache.get(1, 1).is_some());
    assert!(cache.get(2, 0).is_some());
}

#[test]
fn packet_without_fragment_is_ignored() {
    let mut cache = PacketCache::new();
    let ack = Packet {
        routing_header: RoutingHeader {
            hops: vec![1, 2],
            hop_index: 1,
        },
        session_id: 9,
        pack_type: PacketType::Ack(Ack { fragment_index: 0 }),
    };
    cache.insert(ack);
    assert!(cache.get(9, 0).is_none());
}
