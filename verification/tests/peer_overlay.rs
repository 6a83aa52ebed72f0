use gossip_network::addrs::get_ips;
use gossip_network::addrs::parse_addr_line;
use gossip_network::codec::build_directory_reply;
use gossip_network::peer::Peer;
use gossip_network::peer::PeerAction;
use gossip_network::sampler::select_k_nodes;
use gossip_network::seed::Seed;

fn addr(s: &str) -> Vec<u8> {
    s.as_bytes().to_vec()
}

fn peer_at(no: i32, local: &str, seeds: &[&str]) -> Peer {
    Peer::new(no, addr(local), seeds.iter().map(|s| addr(s)).collect())
}

#[test]
fn wire_compatibility_liveness_reply() {
    // raw LIVENESS_REQUEST bytes produce exactly the reply frame, addressed
    // to the sender named in the request
    let mut peer = peer_at(2, "127.0.0.1:6001", &[]);
    let act = peer.handle_frame(b"LIVENESS_REQUEST|00:05:123|127.0.0.1:6000", 7000);
    match act {
        PeerAction::Reply { target, frame } => {
            assert_eq!(target, addr("127.0.0.1:6000"));
            assert_eq!(
                frame,
                b"LIVENESS_REPLY|00:05:123|127.0.0.1:6000|127.0.0.1:6001".to_vec()
            );
        }
        _ => panic!("a liveness request must be answered"),
    }
}

#[test]
fn gossip_is_flooded_once_then_suppressed() {
    // the same 3-field gossip frame twice: the second arrival changes
    // nothing and is not rebroadcast
    let mut peer = peer_at(1, "127.0.0.1:6000", &[]);
    peer.connected_nodes = vec![addr("127.0.0.1:6001"), addr("127.0.0.1:6002")];
    let gossip = b"00:00:100|127.0.0.1:6003|hello";
    let act = peer.handle_frame(gossip, 200);
    match act {
        PeerAction::Flood { targets, frame } => {
            assert_eq!(targets, vec![addr("127.0.0.1:6001"), addr("127.0.0.1:6002")]);
            assert_eq!(frame, b"00:00:200|127.0.0.1:6000|hello".to_vec());
        }
        _ => panic!("new gossip must be flooded"),
    }
    assert_eq!(peer.message_list, vec![addr("hello")]);
    let act2 = peer.handle_frame(gossip, 300);
    assert!(matches!(act2, PeerAction::Silent));
    assert_eq!(peer.message_list, vec![addr("hello")]);
}

#[test]
fn malformed_frames_are_dropped() {
    let mut peer = peer_at(1, "127.0.0.1:6000", &[]);
    // two fields, no known tag: not gossip, not a probe
    assert!(matches!(peer.handle_frame(b"x|y", 100), PeerAction::Silent));
    // a LIVENESS_REPLY with too few fields
    assert!(matches!(
        peer.handle_frame(b"LIVENESS_REPLY|00:00:001|127.0.0.1:6001", 100),
        PeerAction::Silent
    ));
    assert!(peer.message_list.is_empty());
}

#[test]
fn gossip_single_delivery_in_an_overlay() {
    // five peers in a ring; "hello" reaches every peer, is flooded at most
    // once per peer, and ends up exactly once in every message list
    let names = [
        "127.0.0.1:6000",
        "127.0.0.1:6001",
        "127.0.0.1:6002",
        "127.0.0.1:6003",
        "127.0.0.1:6004",
    ];
    let mut peers: Vec<Peer> = (0..5).map(|i| peer_at(i as i32 + 1, names[i], &[])).collect();
    for i in 0..5 {
        let left = names[(i + 4) % 5];
        let right = names[(i + 1) % 5];
        peers[i].connected_nodes = vec![addr(left), addr(right)];
    }
    let mut floods = [0usize; 5];
    // peer 1 (index 0) injects: its own broadcast of "hello" to neighbors
    let mut queue: Vec<(Vec<u8>, Vec<u8>)> = Vec::new();
    peers[0].message_list.push(addr("hello"));
    for n in &peers[0].connected_nodes.clone() {
        queue.push((n.clone(), b"00:00:100|127.0.0.1:6000|hello".to_vec()));
    }
    floods[0] += 1;
    while let Some((dest, frame)) = queue.pop() {
        let idx = names.iter().position(|n| addr(n) == dest).unwrap();
        let act = peers[idx].handle_frame(&frame, 500);
        if let PeerAction::Flood { targets, frame } = act {
            floods[idx] += 1;
            for t in targets {
                queue.push((t, frame.clone()));
            }
        }
    }
    for i in 0..5 {
        assert!(floods[i] <= 1, "peer {} flooded more than once", i + 1);
        let count = peers[i]
            .message_list
            .iter()
            .filter(|m| *m == &addr("hello"))
            .count();
        assert_eq!(count, 1, "peer {} must hold the payload exactly once", i + 1);
    }
}

#[test]
fn membership_cap_after_bootstrap() {
    // a directory union larger than four is sampled down to four, and the
    // peer itself never becomes its own neighbor
    let mut peer = peer_at(1, "127.0.0.1:6000", &["127.0.0.1:5000"]);
    let items: Vec<Vec<u8>> = (1..=6).map(|i| addr(&format!("127.0.0.1:600{}", i))).collect();
    let reply = build_directory_reply(&items);
    peer.absorb_directory_reply(&reply);
    assert_eq!(peer.connected_nodes.len(), 6);
    peer.cap_neighbors();
    assert_eq!(peer.connected_nodes.len(), 4);
    for n in &peer.connected_nodes {
        assert!(items.contains(n));
        assert_ne!(n, &addr("127.0.0.1:6000"));
    }
}

#[test]
fn small_directory_is_kept_whole() {
    let mut peer = peer_at(1, "127.0.0.1:6000", &[]);
    let items = vec![addr("127.0.0.1:6001"), addr("127.0.0.1:6002")];
    peer.absorb_directory_reply(&build_directory_reply(&items));
    peer.cap_neighbors();
    assert_eq!(peer.connected_nodes, items);
}

#[test]
fn absorb_skips_own_address_and_duplicates() {
    let mut peer = peer_at(1, "127.0.0.1:6000", &[]);
    let items = vec![
        addr("127.0.0.1:6001"),
        addr("127.0.0.1:6000"),
        addr("127.0.0.1:6001"),
    ];
    peer.absorb_directory_reply(&build_directory_reply(&items));
    assert_eq!(peer.connected_nodes, vec![addr("127.0.0.1:6001")]);
}

#[test]
fn sampler_returns_distinct_nodes() {
    let pool: Vec<Vec<u8>> = (0..10).map(|i| addr(&format!("10.0.0.{}:70", i))).collect();
    let picked = select_k_nodes(pool.clone(), 4);
    assert_eq!(picked.len(), 4);
    for i in 0..picked.len() {
        assert!(pool.contains(&picked[i]));
        for j in 0..i {
            assert_ne!(picked[i], picked[j], "sampled nodes must be distinct");
        }
    }
    let all = select_k_nodes(pool.clone(), 10);
    assert_eq!(all.len(), 10);
}

#[test]
fn probe_only_live_neighbors() {
    let mut peer = peer_at(1, "127.0.0.1:6000", &[]);
    peer.connected_nodes = vec![addr("127.0.0.1:6001")];
    let frame = peer.probe_action(b"127.0.0.1:6001", b"00:00:005");
    assert_eq!(
        frame,
        Some(b"LIVENESS_REQUEST|00:00:005|127.0.0.1:6000".to_vec())
    );
    assert_eq!(peer.probe_action(b"127.0.0.1:9999", b"00:00:005"), None);
}

#[test]
fn liveness_reply_refreshes_the_stamp() {
    let mut peer = peer_at(1, "127.0.0.1:6000", &[]);
    peer.connected_nodes = vec![addr("127.0.0.1:6001"), addr("127.0.0.1:6002")];
    peer.init_connection_times();
    assert_eq!(peer.connection_times.len(), 2);
    assert!(peer.connection_times.iter().all(|e| e.1 == 0));
    let act = peer.handle_frame(b"LIVENESS_REPLY|00:00:001|127.0.0.1:6000|127.0.0.1:6002", 4500);
    assert!(matches!(act, PeerAction::Silent));
    assert_eq!(peer.connection_times[0], (addr("127.0.0.1:6001"), 0));
    assert_eq!(peer.connection_times[1], (addr("127.0.0.1:6002"), 4500));
}

#[test]
fn liveness_reply_from_untracked_endpoint_is_dropped() {
    let mut peer = peer_at(1, "127.0.0.1:6000", &[]);
    peer.connected_nodes = vec![addr("127.0.0.1:6001")];
    peer.init_connection_times();
    peer.handle_frame(b"LIVENESS_REPLY|00:00:001|127.0.0.1:6000|127.0.0.1:9999", 4500);
    assert_eq!(peer.connection_times, vec![(addr("127.0.0.1:6001"), 0)]);
}

#[test]
fn failure_detection_evicts_and_notifies_every_seed() {
    // a silent neighbor crosses the 39000 ms threshold: it is evicted,
    // one DEAD_NODE frame goes to each seed, and the seeds drop it
    let seeds = ["127.0.0.1:5000", "127.0.0.1:5001"];
    let mut peer = peer_at(1, "127.0.0.1:6000", &seeds);
    peer.connected_nodes = vec![addr("127.0.0.1:6005"), addr("127.0.0.1:6001")];
    peer.init_connection_times();
    // the live neighbor answered recently; 127.0.0.1:6005 never did
    peer.handle_frame(b"LIVENESS_REPLY|00:00:001|127.0.0.1:6000|127.0.0.1:6001", 39_500);
    let (evicted, sends) = peer.sweep(40_000);
    assert_eq!(evicted, vec![addr("127.0.0.1:6005")]);
    assert_eq!(peer.connected_nodes, vec![addr("127.0.0.1:6001")]);
    assert_eq!(peer.connection_times, vec![(addr("127.0.0.1:6001"), 39_500)]);
    assert_eq!(sends.len(), 2);
    let expected = b"DEAD_NODE|127.0.0.1:6005|00:40:000|127.0.0.1:6000".to_vec();
    for (j, seed_name) in seeds.iter().enumerate() {
        assert_eq!(sends[j].0, addr(seed_name));
        assert_eq!(sends[j].1, expected);
    }
    let mut registry = Seed::new(1);
    registry.handle_message(format!("JOIN_REQUEST|{}|00:00:001", "127.0.0.1:6005").as_bytes());
    registry.handle_message(format!("JOIN_REQUEST|{}|00:00:001", "127.0.0.1:6000").as_bytes());
    registry.handle_message(&sends[0].1);
    assert_eq!(registry.connected_networks, vec![addr("127.0.0.1:6000")]);
}

#[test]
fn eviction_threshold_is_strict() {
    // exactly 39000 ms of silence is still alive; one more millisecond is not
    let mut peer = peer_at(1, "127.0.0.1:6000", &[]);
    peer.connected_nodes = vec![addr("127.0.0.1:6001")];
    peer.init_connection_times();
    peer.handle_frame(b"LIVENESS_REPLY|00:00:001|127.0.0.1:6000|127.0.0.1:6001", 1000);
    let (evicted, _) = peer.sweep(40_000);
    assert!(evicted.is_empty());
    let (evicted, _) = peer.sweep(40_001);
    assert_eq!(evicted, vec![addr("127.0.0.1:6001")]);
}

#[test]
fn inject_gossip_composes_the_greeting() {
    let mut peer = peer_at(1, "127.0.0.1:6000", &[]);
    peer.connected_nodes = vec![addr("127.0.0.1:6001")];
    let (frame, targets) = peer.inject_gossip(5_123);
    assert_eq!(
        frame,
        b"00:05:123|127.0.0.1:6000|Hello, this is peer @127.0.0.1:6000!".to_vec()
    );
    assert_eq!(targets, vec![addr("127.0.0.1:6001")]);
    assert_eq!(
        peer.message_list,
        vec![addr("Hello, this is peer @127.0.0.1:6000!")]
    );
    // a second round does not duplicate the peer's own payload
    peer.inject_gossip(10_123);
    assert_eq!(peer.message_list.len(), 1);
}

#[test]
fn own_gossip_echo_is_not_reflooded() {
    let mut peer = peer_at(1, "127.0.0.1:6000", &[]);
    peer.connected_nodes = vec![addr("127.0.0.1:6001")];
    peer.inject_gossip(1_000);
    let echo = b"00:02:000|127.0.0.1:6001|Hello, this is peer @127.0.0.1:6000!";
    let act = peer.handle_frame(echo, 2_500);
    assert!(matches!(act, PeerAction::Silent));
}

#[test]
fn address_lines_parse_to_endpoints() {
    let parsed = parse_addr_line(b"  127.0.0.1   5000 ").unwrap();
    assert_eq!(parsed.0, b"127.0.0.1".to_vec());
    assert_eq!(parsed.1, b"5000".to_vec());
    assert_eq!(parse_addr_line(b""), None);
    assert_eq!(parse_addr_line(b"one two three"), None);
    assert_eq!(parse_addr_line(b"lonely"), None);
    let ips = vec![b"127.0.0.1".to_vec(), b"10.0.0.2".to_vec()];
    let ports = vec![b"5000".to_vec(), b"6000".to_vec()];
    let joined = get_ips(&ips, &ports);
    assert_eq!(joined, vec![addr("127.0.0.1:5000"), addr("10.0.0.2:6000")]);
}
