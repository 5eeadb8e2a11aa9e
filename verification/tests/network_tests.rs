use paxos_sim::network::{Network, Packet};
use std::collections::HashSet;

/// A synchronous network where each node sends its id to the first node.
fn simple_sync_network(n: usize) -> Network<usize> {
    let mut network = Network::<usize>::new(false, n, None, 0);
    for id in 0..n {
        network.get_link_ref(id).enqueue(0, id);
    }
    network
}

#[test]
fn simple_sync_system_tests() {
    let mut system = simple_sync_network(10);
    system.exchange_messages();
    let contents: HashSet<usize> = system
        .get_link(0)
        .in_buffer
        .iter()
        .map(|p| p.content)
        .collect();
    let expected_set: HashSet<usize> = vec![0, 1, 2, 3, 4, 5, 6, 7, 8, 9].into_iter().collect();
    assert_eq!(contents, expected_set);
}

#[test]
fn simple_exchange() {
    let mut network = Network::<usize>::new(true, 2, None, 10);
    network.get_link_ref(0).enqueue(1, 42);
    network.get_link_ref(1).enqueue(0, 69);
    let mut messages0: Vec<usize> = Vec::new();
    let mut messages1: Vec<usize> = Vec::new();
    let mut i = 0;
    while messages0 != vec![42] && messages1 != vec![69] && i < 10 {
        network.exchange_messages();
        messages0 = network.get_link(0).in_buffer.iter().map(|p| p.content).collect();
        messages1 = network.get_link(1).in_buffer.iter().map(|p| p.content).collect();
        i += 1;
    }
    assert_eq!(messages0, vec![69]);
    assert_eq!(messages1, vec![42]);
}

#[test]
fn round_isolation() {
    // A packet enqueued during round r is absent from the receiver's
    // incoming buffer until round r + latency + 1, and present then.
    let mut network = Network::<usize>::new(true, 2, Some(11), 10);
    let probe = Packet { sender: 0, receiver: 1, content: 7usize };
    let latency = network.get_latency(&probe);
    network.get_link_ref(0).enqueue(1, 7);
    assert!(network.get_link(1).in_buffer.is_empty());
    for _ in 0..latency {
        network.exchange_messages();
        assert!(network.get_link(1).in_buffer.is_empty());
    }
    network.exchange_messages();
    let delivered: Vec<usize> = network.get_link(1).in_buffer.iter().map(|p| p.content).collect();
    assert_eq!(delivered, vec![7]);
}

#[test]
fn latencies_below_bound() {
    // Every off-diagonal latency drawn at construction is below the
    // bound, and the diagonal is zero.
    let network = Network::<usize>::new(true, 5, Some(3), 10);
    for s in 0..5 {
        for r in 0..5 {
            let p = Packet { sender: s, receiver: r, content: 0usize };
            let lat = network.get_latency(&p);
            if s == r {
                assert_eq!(lat, 0);
            } else {
                assert!(lat < 10);
            }
        }
    }
}

#[test]
fn synchronous_latency_is_zero() {
    let network = Network::<usize>::new(false, 3, None, 0);
    let p = Packet { sender: 0, receiver: 2, content: 1usize };
    assert_eq!(network.get_latency(&p), 0);
}

#[test]
fn empty_buffer_drains() {
    let mut network = Network::<usize>::new(false, 2, None, 0);
    network.get_link_ref(0).enqueue(1, 5);
    network.exchange_messages();
    let mail = network.get_link_ref(1).empty_buffer();
    assert_eq!(mail.len(), 1);
    assert_eq!(mail[0].sender, 0);
    assert_eq!(mail[0].receiver, 1);
    assert_eq!(mail[0].content, 5);
    assert!(network.get_link(1).in_buffer.is_empty());
}
