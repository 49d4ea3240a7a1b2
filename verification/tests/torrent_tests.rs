//! The metainfo model: piece sizes, piece hashes, total length, and the
//! tracker URL list.

use bittorrent::torrent::{FileNode, Info, Torrent, TorrentError};

fn single_file_torrent(piece_length: usize, total: i64, num_pieces: usize) -> Torrent {
    Torrent {
        announce: b"udp://tracker.example:1337".to_vec(),
        announce_list: None,
        info: Info {
            name: b"data.bin".to_vec(),
            piece_length,
            pieces: vec![0u8; 20 * num_pieces],
            length: Some(total),
            files: None,
        },
    }
}

#[test]
fn single_file_piece_sizes() {
    // piece_length 4 over 10 bytes: three pieces sized 4, 4, 2.
    let t = single_file_torrent(4, 10, 3);
    assert_eq!(t.num_pieces(), 3);
    assert_eq!(t.total_length(), 10);
    assert_eq!(t.calculate_piece_size(0), 4);
    assert_eq!(t.calculate_piece_size(1), 4);
    assert_eq!(t.calculate_piece_size(2), 2);
}

#[test]
fn piece_sizes_sum_to_total_length() {
    let t = single_file_torrent(4, 10, 3);
    let mut sum: i64 = 0;
    for i in 0..t.num_pieces() {
        sum += t.calculate_piece_size(i) as i64;
    }
    assert_eq!(sum, t.total_length());
}

#[test]
fn exact_multiple_keeps_full_last_piece() {
    let t = single_file_torrent(4, 12, 3);
    assert_eq!(t.calculate_piece_size(2), 4);
}

#[test]
fn multi_file_total_length_sums_files() {
    let t = Torrent {
        announce: b"http://t".to_vec(),
        announce_list: None,
        info: Info {
            name: b"dir".to_vec(),
            piece_length: 6,
            pieces: vec![0u8; 20 * 3],
            length: None,
            files: Some(vec![
                FileNode { length: 5, path: vec![b"a".to_vec()] },
                FileNode { length: 7, path: vec![b"b".to_vec()] },
                FileNode { length: 4, path: vec![b"c".to_vec()] },
            ]),
        },
    };
    assert_eq!(t.total_length(), 16);
    assert_eq!(t.num_pieces(), 3);
    assert_eq!(t.calculate_piece_size(2), 4);
}

#[test]
fn piece_hash_extracts_twenty_byte_slices() {
    let mut pieces = Vec::new();
    for i in 0..40 {
        pieces.push(i as u8);
    }
    let t = Torrent {
        announce: b"x".to_vec(),
        announce_list: None,
        info: Info {
            name: b"n".to_vec(),
            piece_length: 4,
            pieces,
            length: Some(8),
            files: None,
        },
    };
    let h0 = t.get_piece_hash(0).unwrap();
    let h1 = t.get_piece_hash(1).unwrap();
    assert_eq!(h0[0], 0);
    assert_eq!(h0[19], 19);
    assert_eq!(h1[0], 20);
    assert_eq!(h1[19], 39);
    assert_eq!(t.get_piece_hash(2), Err(TorrentError::OutOfRange));
}

#[test]
fn tracker_urls_deduplicate_in_order() {
    let t = Torrent {
        announce: b"udp://a".to_vec(),
        announce_list: Some(vec![
            vec![b"udp://a".to_vec(), b"udp://b".to_vec()],
            vec![b"udp://c".to_vec(), b"udp://b".to_vec()],
        ]),
        info: Info {
            name: b"n".to_vec(),
            piece_length: 4,
            pieces: vec![0u8; 20],
            length: Some(4),
            files: None,
        },
    };
    let urls = t.get_tracker_urls();
    assert_eq!(
        urls,
        vec![b"udp://a".to_vec(), b"udp://b".to_vec(), b"udp://c".to_vec()]
    );
}
