//! The 68-byte handshake: exact layout and the info-hash comparison on the
//! peer's reply.

use bittorrent::handshake::{handshake_info_hash_matches, Handshake};

#[test]
fn handshake_is_exactly_68_bytes_in_order() {
    let info_hash = [7u8; 20];
    let peer_id = [9u8; 20];
    let bytes = Handshake::new(info_hash, peer_id).as_bytes();
    assert_eq!(bytes.len(), 68);
    assert_eq!(bytes[0], 0x13);
    assert_eq!(&bytes[1..20], b"BitTorrent protocol");
    assert_eq!(&bytes[20..28], &[0u8; 8]);
    assert_eq!(&bytes[28..48], &info_hash);
    assert_eq!(&bytes[48..68], &peer_id);
}

#[test]
fn reply_info_hash_comparison() {
    let info_hash = [7u8; 20];
    let peer_id = [9u8; 20];
    let reply = Handshake::new(info_hash, [1u8; 20]).as_bytes();
    assert!(handshake_info_hash_matches(&reply, &info_hash));
    let mut wrong = reply.clone();
    wrong[30] ^= 0xFF;
    assert!(!handshake_info_hash_matches(&wrong, &info_hash));
    assert_eq!(peer_id, [9u8; 20]);
}
