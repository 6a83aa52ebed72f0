use gossip_network::codec::extract_nodes;
use gossip_network::seed::Seed;

fn join_frame(addr: &str) -> Vec<u8> {
    format!("JOIN_REQUEST|{}|00:00:001", addr).into_bytes()
}

fn get_frame(addr: &str) -> Vec<u8> {
    format!("GET_CONNECTED_NODES_REQUEST|{}|00:00:002", addr).into_bytes()
}

fn dead_frame(dead: &str, reporter: &str) -> Vec<u8> {
    format!("DEAD_NODE|{}|00:00:003|{}", dead, reporter).into_bytes()
}

#[test]
fn join_inserts_and_acks() {
    let mut seed = Seed::new(1);
    let reply = seed.handle_message(&join_frame("127.0.0.1:6000"));
    assert_eq!(
        reply,
        Some(b"Successfully Connected to \"127.0.0.1:6000\"".to_vec())
    );
    assert_eq!(seed.connected_networks, vec![b"127.0.0.1:6000".to_vec()]);
}

#[test]
fn join_is_idempotent() {
    let mut seed = Seed::new(1);
    seed.handle_message(&join_frame("127.0.0.1:6000"));
    seed.handle_message(&join_frame("127.0.0.1:6000"));
    assert_eq!(seed.connected_networks.len(), 1);
}

#[test]
fn three_seeds_four_peers_join() {
    // every seed's directory ends up equal to the set of the four peers
    let mut seeds: Vec<Seed> = (1..=3).map(Seed::new).collect();
    let peers = [
        "127.0.0.1:6000",
        "127.0.0.1:6001",
        "127.0.0.1:6002",
        "127.0.0.1:6003",
    ];
    for peer in peers {
        for seed in seeds.iter_mut() {
            seed.handle_message(&join_frame(peer));
        }
    }
    for seed in &seeds {
        let have: Vec<Vec<u8>> = seed.connected_networks.clone();
        assert_eq!(have.len(), 4);
        for peer in peers {
            assert!(have.contains(&peer.as_bytes().to_vec()));
        }
    }
}

#[test]
fn directory_sampling_excludes_requester() {
    // the reply to a GET from a peer holds every other joined peer and
    // never the requester itself
    let mut seed = Seed::new(1);
    let others = ["127.0.0.1:6000", "127.0.0.1:6001", "127.0.0.1:6002"];
    for peer in others {
        seed.handle_message(&join_frame(peer));
    }
    seed.handle_message(&join_frame("127.0.0.1:6010"));
    let reply = seed.handle_message(&get_frame("127.0.0.1:6010")).unwrap();
    let parsed = extract_nodes(&reply);
    assert!(!parsed.contains(&b"127.0.0.1:6010".to_vec()));
    for peer in others {
        assert!(parsed.contains(&peer.as_bytes().to_vec()));
    }
    assert_eq!(parsed.len(), 3);
}

#[test]
fn dead_node_removes_entry() {
    let mut seed = Seed::new(1);
    seed.handle_message(&join_frame("127.0.0.1:6000"));
    seed.handle_message(&join_frame("127.0.0.1:6001"));
    let reply = seed.handle_message(&dead_frame("127.0.0.1:6000", "127.0.0.1:6001"));
    assert_eq!(reply, None);
    assert_eq!(seed.connected_networks, vec![b"127.0.0.1:6001".to_vec()]);
}

#[test]
fn dead_node_unknown_entry_changes_nothing() {
    let mut seed = Seed::new(1);
    seed.handle_message(&join_frame("127.0.0.1:6000"));
    seed.handle_message(&dead_frame("127.0.0.1:9999", "127.0.0.1:6000"));
    assert_eq!(seed.connected_networks, vec![b"127.0.0.1:6000".to_vec()]);
}

#[test]
fn unexpected_message_is_dropped() {
    let mut seed = Seed::new(1);
    seed.handle_message(&join_frame("127.0.0.1:6000"));
    let reply = seed.handle_message(b"SOMETHING_ELSE|127.0.0.1:7000|00:00:004");
    assert_eq!(reply, None);
    assert_eq!(seed.connected_networks, vec![b"127.0.0.1:6000".to_vec()]);
}

#[test]
fn truncated_dead_node_is_dropped() {
    // a DEAD_NODE frame without its reporter field is malformed: dropped
    let mut seed = Seed::new(1);
    seed.handle_message(&join_frame("127.0.0.1:6000"));
    let reply = seed.handle_message(b"DEAD_NODE|127.0.0.1:6000");
    assert_eq!(reply, None);
    assert_eq!(seed.connected_networks, vec![b"127.0.0.1:6000".to_vec()]);
}
