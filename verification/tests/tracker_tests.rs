//! The tracker byte formats: compact peer lists and the UDP announce
//! packets.

use bittorrent::tracker::{
    build_announce_request, build_connect_request, extract_peers, format_peer_addr,
    parse_announce_response, parse_compact_peers, parse_connect_response, parse_tracker_response,
    Peer, PeerAddr, Peers,
};

#[test]
fn compact_peers_decode_six_byte_entries() {
    let data = [1u8, 2, 3, 4, 0x1A, 0xE1, 10, 0, 0, 1, 0, 80, 9, 9];
    let peers = parse_compact_peers(&data);
    assert_eq!(peers.len(), 2);
    assert_eq!(peers[0], PeerAddr { ip: [1, 2, 3, 4], port: 6881 });
    assert_eq!(peers[1], PeerAddr { ip: [10, 0, 0, 1], port: 80 });
}

#[test]
fn connect_request_is_magic_action_transaction() {
    let req = build_connect_request(12345);
    assert_eq!(req.len(), 16);
    assert_eq!(&req[0..8], &[0x00, 0x00, 0x04, 0x17, 0x27, 0x10, 0x19, 0x80]);
    assert_eq!(&req[8..12], &[0, 0, 0, 0]);
    assert_eq!(&req[12..16], &12345u32.to_be_bytes());
}

#[test]
fn connect_response_round_trips_the_connection_id() {
    let mut reply = Vec::new();
    reply.extend_from_slice(&0u32.to_be_bytes());
    reply.extend_from_slice(&12345u32.to_be_bytes());
    reply.extend_from_slice(&0xDEADBEEF00C0FFEEu64.to_be_bytes());
    let (action, tid, cid) = parse_connect_response(&reply).unwrap();
    assert_eq!(action, 0);
    assert_eq!(tid, 12345);
    assert_eq!(cid, 0xDEADBEEF00C0FFEE);
    assert!(parse_connect_response(&reply[..15]).is_none());
}

#[test]
fn announce_request_is_98_bytes_with_port_last() {
    let info_hash = [3u8; 20];
    let peer_id = [4u8; 20];
    let req = build_announce_request(77, 12345, &info_hash, &peer_id, 8888);
    assert_eq!(req.len(), 98);
    assert_eq!(&req[0..8], &77u64.to_be_bytes());
    assert_eq!(&req[8..12], &1u32.to_be_bytes());
    assert_eq!(&req[12..16], &12345u32.to_be_bytes());
    assert_eq!(&req[16..36], &info_hash);
    assert_eq!(&req[36..56], &peer_id);
    assert_eq!(&req[56..80], &[0u8; 24]);
    assert_eq!(&req[80..92], &[0u8; 12]);
    assert_eq!(&req[92..96], &[0xFF, 0xFF, 0xFF, 0xFF]);
    assert_eq!(&req[96..98], &8888u16.to_be_bytes());
}

#[test]
fn announce_response_decodes_header_and_peers() {
    let mut reply = Vec::new();
    reply.extend_from_slice(&1u32.to_be_bytes());
    reply.extend_from_slice(&12345u32.to_be_bytes());
    reply.extend_from_slice(&1800u32.to_be_bytes());
    reply.extend_from_slice(&3u32.to_be_bytes());
    reply.extend_from_slice(&9u32.to_be_bytes());
    reply.extend_from_slice(&[127, 0, 0, 1, 0x1A, 0xE1]);
    reply.extend_from_slice(&[192, 168, 1, 2, 0, 80]);
    // A trailing fragment shorter than one peer is ignored.
    reply.extend_from_slice(&[1, 2, 3]);
    let (action, tid, interval, peers) = parse_announce_response(&reply).unwrap();
    assert_eq!(action, 1);
    assert_eq!(tid, 12345);
    assert_eq!(interval, 1800);
    assert_eq!(peers.len(), 2);
    assert_eq!(peers[0], PeerAddr { ip: [127, 0, 0, 1], port: 6881 });
    assert_eq!(peers[1], PeerAddr { ip: [192, 168, 1, 2], port: 80 });
    assert!(parse_announce_response(&reply[..19]).is_none());
}

#[test]
fn http_response_with_compact_peers() {
    let mut b = Vec::new();
    b.extend_from_slice(b"d8:intervali1800e5:peers12:");
    b.extend_from_slice(&[127, 0, 0, 1, 0x1A, 0xE1, 10, 0, 0, 2, 0, 80]);
    b.extend_from_slice(b"e");
    let resp = parse_tracker_response(&b).expect("valid response");
    assert_eq!(resp.interval, Some(1800));
    match &resp.peers {
        Peers::Binary(data) => assert_eq!(data.len(), 12),
        Peers::List(_) => panic!("expected compact form"),
    }
    let addrs = extract_peers(&resp.peers);
    assert_eq!(addrs, vec![b"127.0.0.1:6881".to_vec(), b"10.0.0.2:80".to_vec()]);
}

#[test]
fn http_response_with_peer_dictionaries() {
    let b = b"d5:peersld2:ip9:127.0.0.14:porti6881eed2:ip8:host.tld4:porti80eeee";
    let resp = parse_tracker_response(b).expect("valid response");
    assert_eq!(resp.interval, None);
    match &resp.peers {
        Peers::List(list) => {
            assert_eq!(list.len(), 2);
            assert_eq!(list[0], Peer { ip: b"127.0.0.1".to_vec(), port: 6881 });
            assert_eq!(list[1], Peer { ip: b"host.tld".to_vec(), port: 80 });
        }
        Peers::Binary(_) => panic!("expected list form"),
    }
    let addrs = extract_peers(&resp.peers);
    assert_eq!(addrs, vec![b"127.0.0.1:6881".to_vec(), b"host.tld:80".to_vec()]);
}

#[test]
fn http_response_without_peers_is_rejected() {
    assert!(parse_tracker_response(b"d8:intervali1800ee").is_err());
    assert!(parse_tracker_response(b"").is_err());
}

#[test]
fn peer_addr_formats_as_dotted_quad_and_port() {
    let p = PeerAddr { ip: [127, 0, 0, 1], port: 6881 };
    assert_eq!(format_peer_addr(&p), b"127.0.0.1:6881".to_vec());
    let q = PeerAddr { ip: [255, 10, 0, 254], port: 80 };
    assert_eq!(format_peer_addr(&q), b"255.10.0.254:80".to_vec());
}
