use gossip_network::clock::format_timestamp;
use gossip_network::clock::parse_and_convert_to_ms;
use gossip_network::codec::build_ack_reply;
use gossip_network::codec::build_directory_reply;
use gossip_network::codec::build_frame3;
use gossip_network::codec::build_frame4;
use gossip_network::codec::extract_nodes;
use gossip_network::codec::parse_fields;
use gossip_network::bytes::split_at_byte;
use gossip_network::bytes::trim_bytes;

#[test]
fn format_timestamp_widths() {
    assert_eq!(format_timestamp(5123), b"00:05:123".to_vec());
    assert_eq!(format_timestamp(0), b"00:00:000".to_vec());
    assert_eq!(format_timestamp(59 * 60000 + 59 * 1000 + 999), b"59:59:999".to_vec());
}

#[test]
fn parse_exact_formula() {
    // mm*60000 + ss*1000 + ms
    assert_eq!(parse_and_convert_to_ms(b"12:34:567"), 12 * 60000 + 34 * 1000 + 567);
    assert_eq!(parse_and_convert_to_ms(b"00:05:123"), 5123);
    assert_eq!(parse_and_convert_to_ms(b"00:00:000"), 0);
}

#[test]
fn timestamp_roundtrip_plain() {
    let t: u64 = 754567;
    assert_eq!(parse_and_convert_to_ms(&format_timestamp(t)) as u64, t);
}

#[test]
fn timestamp_roundtrip_wraps_at_one_hour() {
    // the MM:SS:mmm clock wraps every hour: the roundtrip truncates to it
    let t: u64 = 3_600_000 + 61_005;
    assert_eq!(format_timestamp(t), b"01:01:005".to_vec());
    assert_eq!(parse_and_convert_to_ms(&format_timestamp(t)) as u64, t % 3_600_000);
}

#[test]
fn frames_are_pipe_joined() {
    let f3 = build_frame3(b"A", b"B", b"C");
    assert_eq!(f3, b"A|B|C".to_vec());
    let f4 = build_frame4(b"A", b"B", b"C", b"D");
    assert_eq!(f4, b"A|B|C|D".to_vec());
}

#[test]
fn parse_fields_splits_and_trims() {
    let fields = parse_fields(b" LIVENESS_REQUEST | 00:00:001 |\t1.2.3.4:5 ");
    assert_eq!(fields.len(), 3);
    assert_eq!(fields[0], b"LIVENESS_REQUEST".to_vec());
    assert_eq!(fields[1], b"00:00:001".to_vec());
    assert_eq!(fields[2], b"1.2.3.4:5".to_vec());
}

#[test]
fn split_keeps_empty_fields() {
    let parts = split_at_byte(b"a||b", b'|');
    assert_eq!(parts.len(), 3);
    assert_eq!(parts[0], b"a".to_vec());
    assert_eq!(parts[1], b"".to_vec());
    assert_eq!(parts[2], b"b".to_vec());
}

#[test]
fn trim_strips_both_ends() {
    assert_eq!(trim_bytes(b"  x\ty \r\n"), b"x\ty".to_vec());
    assert_eq!(trim_bytes(b"   "), b"".to_vec());
    assert_eq!(trim_bytes(b""), b"".to_vec());
}

#[test]
fn ack_reply_quotes_the_address() {
    assert_eq!(
        build_ack_reply(b"127.0.0.1:6000"),
        b"Successfully Connected to \"127.0.0.1:6000\"".to_vec()
    );
}

#[test]
fn directory_reply_is_debug_rendered() {
    let items = vec![b"127.0.0.1:6000".to_vec(), b"127.0.0.1:6001".to_vec()];
    let reply = build_directory_reply(&items);
    assert_eq!(
        reply,
        b"Connected Nodes: [\"127.0.0.1:6000\", \"127.0.0.1:6001\"]".to_vec()
    );
    let empty: Vec<Vec<u8>> = Vec::new();
    assert_eq!(build_directory_reply(&empty), b"Connected Nodes: []".to_vec());
}

#[test]
fn extract_nodes_inverts_the_directory_reply() {
    let items = vec![
        b"127.0.0.1:6000".to_vec(),
        b"127.0.0.1:6001".to_vec(),
        b"127.0.0.1:6002".to_vec(),
    ];
    let parsed = extract_nodes(&build_directory_reply(&items));
    assert_eq!(parsed, items);
}

#[test]
fn extract_nodes_of_empty_directory_is_one_empty_token() {
    let empty: Vec<Vec<u8>> = Vec::new();
    let parsed = extract_nodes(&build_directory_reply(&empty));
    assert_eq!(parsed.len(), 1);
    assert_eq!(parsed[0], b"".to_vec());
}
