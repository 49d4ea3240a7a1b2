//! Torrent creation and the client identity helpers.

use bittorrent::creator::build_torrent;
use bittorrent::sha::digest_matches;
use bittorrent::torrent::FileNode;
use bittorrent::utils::{generate_peer_id, url_encode};
use sha1::{Digest, Sha1};

fn sha1_of(data: &[u8]) -> [u8; 20] {
    let mut hasher = Sha1::new();
    hasher.update(data);
    hasher.finalize().into()
}

#[test]
fn built_torrent_hashes_every_chunk() {
    let data: Vec<u8> = (0..10u8).collect();
    let t = build_torrent(b"udp://t".to_vec(), b"f.bin".to_vec(), None, &data, 4)
        .expect("buildable");
    assert_eq!(t.num_pieces(), 3);
    assert_eq!(t.total_length(), 10);
    assert_eq!(t.get_piece_hash(0).unwrap(), sha1_of(&data[0..4]));
    assert_eq!(t.get_piece_hash(1).unwrap(), sha1_of(&data[4..8]));
    assert_eq!(t.get_piece_hash(2).unwrap(), sha1_of(&data[8..10]));
    assert_eq!(t.calculate_piece_size(2), 2);
}

#[test]
fn built_multi_file_torrent_spans_the_stream() {
    let data: Vec<u8> = (0..16u8).collect();
    let files = vec![
        FileNode { length: 5, path: vec![b"a".to_vec()] },
        FileNode { length: 7, path: vec![b"b".to_vec()] },
        FileNode { length: 4, path: vec![b"c".to_vec()] },
    ];
    let t = build_torrent(b"udp://t".to_vec(), b"dir".to_vec(), Some(files), &data, 6)
        .expect("buildable");
    assert_eq!(t.num_pieces(), 3);
    assert_eq!(t.total_length(), 16);
    assert_eq!(t.get_piece_hash(1).unwrap(), sha1_of(&data[6..12]));
}

#[test]
fn build_rejects_zero_piece_length() {
    let data: Vec<u8> = vec![1, 2, 3];
    assert!(build_torrent(b"t".to_vec(), b"n".to_vec(), None, &data, 0).is_none());
}

#[test]
fn digest_matches_real_sha1_vectors() {
    // SHA-1("abc") is the classic test vector; a digest comparison must
    // accept it and reject anything else.
    let expected: [u8; 20] = [
        0xa9, 0x99, 0x3e, 0x36, 0x47, 0x06, 0x81, 0x6a, 0xba, 0x3e, 0x25, 0x71, 0x78, 0x50, 0xc2,
        0x6c, 0x9c, 0xd0, 0xd8, 0x9d,
    ];
    assert!(digest_matches(b"abc", &expected));
    assert!(!digest_matches(b"abd", &expected));
    let not_the_digest = [0u8; 20];
    assert!(!digest_matches(b"abc", &not_the_digest));
}

#[test]
fn peer_id_has_prefix_and_alphanumeric_tail() {
    let id = generate_peer_id();
    assert_eq!(&id[0..8], b"-RT0100-");
    for i in 8..20 {
        assert!(id[i].is_ascii_alphanumeric(), "byte {} not alphanumeric", i);
    }
}

#[test]
fn url_encoding_escapes_binary_bytes() {
    assert_eq!(url_encode(b"abcXYZ019"), b"abcXYZ019".to_vec());
    assert_eq!(url_encode(b"a b"), b"a+b".to_vec());
    assert_eq!(url_encode(b"*-._"), b"*-._".to_vec());
    assert_eq!(url_encode(&[0x1F, 0xAB, 0x00]), b"%1F%AB%00".to_vec());
    assert_eq!(url_encode(b"/"), b"%2F".to_vec());
}
