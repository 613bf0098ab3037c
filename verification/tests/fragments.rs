//! Fragmentation and reassembly.

use chat_client::fragment::{fragment_message, Assembler, FRAGMENT_CAPACITY};

fn message(len: usize) -> Vec<u8> {
    (0..len).map(|i| (i % 251) as u8).collect()
}

#[test]
fn fragment_sizes_and_indices() {
    let data = message(300);
    let frags = fragment_message(&data);
    assert_eq!(frags.len(), 3);
    for (i, f) in frags.iter().enumerate() {
        assert_eq!(f.fragment_index, i as u64);
        assert_eq!(f.total_n_fragments, 3);
    }
    assert_eq!(frags[0].data.len(), FRAGMENT_CAPACITY);
    assert_eq!(frags[1].data.len(), FRAGMENT_CAPACITY);
    assert_eq!(frags[2].data.len(), 300 - 2 * FRAGMENT_CAPACITY);
    let joined: Vec<u8> = frags.iter().flat_map(|f| f.data.iter().copied()).collect();
    assert_eq!(joined, data);
}

#[test]
fn exact_multiple_has_no_empty_tail() {
    let data = message(2 * FRAGMENT_CAPACITY);
    let frags = fragment_message(&data);
    assert_eq!(frags.len(), 2);
    assert_eq!(frags[1].data.len(), FRAGMENT_CAPACITY);
}

#[test]
fn empty_message_is_one_empty_fragment() {
    let frags = fragment_message(&Vec::new());
    assert_eq!(frags.len(), 1);
    assert_eq!(frags[0].fragment_index, 0);
    assert_eq!(frags[0].total_n_fragments, 1);
    assert!(frags[0].data.is_empty());
    let mut assembler = Assembler::new();
    let out = assembler.on_fragment_received(&frags[0], 3, 7);
    assert_eq!(out, Some(Vec::new()));
}

#[test]
fn round_trip_out_of_order() {
    let data = message(300);
    let frags = fragment_message(&data);
    let mut assembler = Assembler::new();
    assert_eq!(assembler.on_fragment_received(&frags[2], 9, 5), None);
    assert_eq!(assembler.on_fragment_received(&frags[0], 9, 5), None);
    assert_eq!(assembler.on_fragment_received(&frags[1], 9, 5), Some(data));
}

#[test]
fn complete_set_yields_message_exactly_once() {
    let data = message(200);
    let frags = fragment_message(&data);
    let mut assembler = Assembler::new();
    assert_eq!(assembler.on_fragment_received(&frags[0], 4, 2), None);
    assert_eq!(assembler.on_fragment_received(&frags[1], 4, 2), Some(data));
    // The buffer was consumed: the same complete set re-emits nothing.
    assert_eq!(assembler.on_fragment_received(&frags[0], 4, 2), None);
    assert_eq!(assembler.on_fragment_received(&frags[1], 4, 2), None);
}

#[test]
fn duplicate_fragment_is_ignored() {
    let data = message(300);
    let frags = fragment_message(&data);
    let mut assembler = Assembler::new();
    assert_eq!(assembler.on_fragment_received(&frags[0], 1, 6), None);
    assert_eq!(assembler.on_fragment_received(&frags[0], 1, 6), None);
    assert_eq!(assembler.on_fragment_received(&frags[1], 1, 6), None);
    assert_eq!(assembler.on_fragment_received(&frags[2], 1, 6), Some(data));
}

#[test]
fn sessions_are_kept_apart() {
    let data_a = message(130);
    let data_b = message(140);
    let frags_a = fragment_message(&data_a);
    let frags_b = fragment_message(&data_b);
    let mut assembler = Assembler::new();
    assert_eq!(assembler.on_fragment_received(&frags_a[0], 1, 2), None);
    assert_eq!(assembler.on_fragment_received(&frags_b[0], 2, 2), None);
    assert_eq!(assembler.on_fragment_received(&frags_b[1], 2, 2), Some(data_b));
    assert_eq!(assembler.on_fragment_received(&frags_a[1], 1, 2), Some(data_a));
}

#[test]
fn mismatched_total_is_dropped() {
    let data = message(300);
    let frags = fragment_message(&data);
    let mut assembler = Assembler::new();
    assert_eq!(assembler.on_fragment_received(&frags[0], 8, 3), None);
    let mut wrong = frags[1].clone();
    wrong.total_n_fragments = 5;
    assert_eq!(assembler.on_fragment_received(&wrong, 8, 3), None);
    // The buffer still completes with the true total.
    assert_eq!(assembler.on_fragment_received(&frags[1], 8, 3), None);
    assert_eq!(assembler.on_fragment_received(&frags[2], 8, 3), Some(data));
}

#[test]
fn out_of_range_index_is_dropped() {
    let data = message(10);
    let frags = fragment_message(&data);
    let mut assembler = Assembler::new();
    let mut wrong = frags[0].clone();
    wrong.fragment_index = 1;
    assert_eq!(assembler.on_fragment_received(&wrong, 6, 1), None);
    assert_eq!(assembler.on_fragment_received(&frags[0], 6, 1), Some(data));
}
