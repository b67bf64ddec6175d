use drust_apps::graph::{
    build_graph, link, shuffle, traverse, ARRAY_ENTRY_SIZE, GRAPH_HOPS, GRAPH_SEED, GRAPH_STRIDE,
    NUM_ARRAY_ENTRIES, TRAVERSAL_INTERVAL,
};
use rand::rngs::StdRng;
use rand::{RngCore, SeedableRng};

#[test]
fn sizes() {
    assert_eq!(ARRAY_ENTRY_SIZE, 8192);
    assert_eq!(NUM_ARRAY_ENTRIES, 2 << 20);
    assert_eq!(GRAPH_STRIDE, 64);
    assert_eq!(GRAPH_HOPS, 128);
    assert_eq!(TRAVERSAL_INTERVAL, 32);
    assert_eq!(GRAPH_SEED, 42);
}

#[test]
fn shuffle_with_zero_draws_rotates() {
    let order = shuffle(&[0; 127]);
    let mut expected: Vec<u8> = (1..128).collect();
    expected.push(0);
    assert_eq!(order, expected);
}

#[test]
fn shuffle_that_keeps_every_position() {
    let draws: Vec<u32> = (1..128).rev().collect();
    let expected: Vec<u8> = (0..128).collect();
    assert_eq!(shuffle(&draws), expected);
}

#[test]
fn shuffle_exchanges_what_was_drawn() {
    let mut draws: Vec<u32> = (1..128).rev().collect();
    draws[0] = 128 + 5;
    let mut expected: Vec<u8> = (0..128).collect();
    expected.swap(127, 5);
    assert_eq!(shuffle(&draws), expected);
}

#[test]
fn shuffle_loses_no_position() {
    let draws: Vec<u32> = (0..127u32).map(|i| i.wrapping_mul(2654435761)).collect();
    let mut order = shuffle(&draws);
    order.sort();
    let expected: Vec<u8> = (0..128).collect();
    assert_eq!(order, expected);
}

#[test]
fn link_leads_round() {
    let order: Vec<u8> = (0..128).rev().collect();
    let node = link(&order);
    assert_eq!(node[0], 127);
    assert_eq!(node[127 * 64], 126);
    assert_eq!(node[64], 0);
    assert!((0..8192).all(|p| p % 64 == 0 || node[p] == 0));
}

#[test]
fn graph_follows_the_seed() {
    let mut rng = StdRng::seed_from_u64(42);
    let mut indices: Vec<u8> = (0..128).collect();
    for i in (1..128).rev() {
        let j = (rng.next_u32() as usize) % (i + 1);
        indices.swap(i, j);
    }
    let mut sample = [0u8; 8192];
    for i in 0..128 {
        sample[indices[i] as usize * 64] = indices[(i + 1) % 128];
    }
    let graph = build_graph(3);
    assert_eq!(graph.len(), 3);
    for node in &graph {
        assert!(node[..] == sample[..]);
    }
    assert!(build_graph(0).is_empty());
}

#[test]
fn walk_over_a_built_graph_visits_all() {
    let graph = build_graph(2);
    assert!(traverse(&graph, 7) == [1u8; 128]);
    assert!(traverse(&graph, u32::MAX) == [1u8; 128]);
}

#[test]
fn walk_marks_what_it_passes() {
    let mut short = [0u8; 8192];
    short[0] = 5;
    short[5 * 64] = 9;
    short[9 * 64] = 5;
    let still = [0u8; 8192];
    let graph = [short, still];
    let mut expected = [0u8; 128];
    expected[0] = 1;
    assert!(traverse(&graph, 1) == expected);
    expected[5] = 1;
    expected[9] = 1;
    assert!(traverse(&graph, 2) == expected);
}
