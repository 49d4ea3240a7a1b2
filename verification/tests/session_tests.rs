//! The peer session state machine: bitfield decoding, choke handling, work
//! acquisition, request pipelining, block assembly, and piece completion.

use bittorrent::manager::{PieceStatus, TorrentManager};
use bittorrent::message::Message;
use bittorrent::session::{upload_block, PeerSession};
use bittorrent::torrent::{Info, Torrent};
use sha1::{Digest, Sha1};

fn sha1_of(data: &[u8]) -> [u8; 20] {
    let mut hasher = Sha1::new();
    hasher.update(data);
    hasher.finalize().into()
}

#[test]
fn bitfield_bits_are_msb_first() {
    // Byte 0b10000001 with at least 8 pieces: pieces 0 and 7 are set.
    let mut s = PeerSession::new(10);
    s.handle_bitfield(&vec![0b1000_0001]);
    for i in 0..10 {
        let expected = i == 0 || i == 7;
        assert_eq!(s.peer_has_pieces[i], expected, "piece {}", i);
    }
}

#[test]
fn bitfield_ignores_bits_beyond_piece_count() {
    let mut s = PeerSession::new(3);
    s.handle_bitfield(&vec![0xFF, 0xFF]);
    assert_eq!(s.peer_has_pieces, vec![true, true, true]);
}

#[test]
fn have_sets_one_piece_and_checks_bounds() {
    let mut s = PeerSession::new(4);
    s.handle_have(2);
    assert_eq!(s.peer_has_pieces, vec![false, false, true, false]);
    s.handle_have(100);
    assert_eq!(s.peer_has_pieces, vec![false, false, true, false]);
}

#[test]
fn no_requests_while_choked() {
    let t = Torrent {
        announce: b"x".to_vec(),
        announce_list: None,
        info: Info {
            name: b"n".to_vec(),
            piece_length: 4,
            pieces: vec![0u8; 20],
            length: Some(4),
            files: None,
        },
    };
    let mut m = TorrentManager::new(t);
    let mut s = PeerSession::new(1);
    s.handle_bitfield(&vec![0b1000_0000]);
    // Choked: acquisition yields no assignment and the pipeline is silent.
    s.try_acquire_work(&mut m);
    assert!(s.current_work.is_none());
    assert!(s.fill_requests().is_empty());
}

#[test]
fn session_downloads_and_verifies_piece_five() {
    // Six pieces of 40000 bytes; the peer offers only piece 5.
    let piece_len: usize = 40000;
    let data5: Vec<u8> = (0..piece_len).map(|i| (i % 251) as u8).collect();
    let mut pieces = vec![0u8; 20 * 5];
    pieces.extend_from_slice(&sha1_of(&data5));
    let t = Torrent {
        announce: b"x".to_vec(),
        announce_list: None,
        info: Info {
            name: b"n".to_vec(),
            piece_length: piece_len,
            pieces,
            length: Some((6 * piece_len) as i64),
            files: None,
        },
    };
    let mut m = TorrentManager::new(t);
    let mut s = PeerSession::new(6);

    s.handle_bitfield(&vec![0b0000_0100]);
    assert!(s.peer_has_pieces[5]);
    s.handle_unchoke();
    s.try_acquire_work(&mut m);
    let st = s.current_work.as_ref().expect("assignment");
    assert_eq!(st.piece_index, 5);
    assert_eq!(st.piece_length as usize, piece_len);
    assert_eq!(m.piece_status[5], PieceStatus::InProgress);

    // ceil(40000 / 16384) = 3 requests, in order, covering the piece.
    let requests = s.fill_requests();
    assert_eq!(requests.len(), 3);
    assert_eq!(
        requests[0],
        Message::Request { index: 5, begin: 0, length: 16384 }
    );
    assert_eq!(
        requests[1],
        Message::Request { index: 5, begin: 16384, length: 16384 }
    );
    assert_eq!(
        requests[2],
        Message::Request { index: 5, begin: 32768, length: 7232 }
    );

    // Blocks for another piece or out of range are dropped.
    assert!(!s.handle_piece_block(4, 0, &vec![0u8; 16384]));
    assert!(!s.handle_piece_block(5, 40000, &vec![0u8; 10]));

    for req in &requests {
        if let Message::Request { begin, length, .. } = req {
            let lo = *begin as usize;
            let hi = lo + *length as usize;
            assert!(s.handle_piece_block(5, *begin, &data5[lo..hi].to_vec()));
        }
    }
    assert!(s.piece_complete());

    let verified = s.finish_piece(&mut m).expect("hash must match");
    assert_eq!(verified, data5);
    assert!(s.current_work.is_none());
    assert_eq!(m.piece_status[5], PieceStatus::Complete);
    assert_eq!(m.downloaded_pieces, 1);
}

#[test]
fn hash_mismatch_returns_piece_to_pending() {
    let piece_len: usize = 100;
    let good: Vec<u8> = vec![1u8; piece_len];
    let t = Torrent {
        announce: b"x".to_vec(),
        announce_list: None,
        info: Info {
            name: b"n".to_vec(),
            piece_length: piece_len,
            pieces: sha1_of(&good).to_vec(),
            length: Some(piece_len as i64),
            files: None,
        },
    };
    let mut m = TorrentManager::new(t);
    let mut s = PeerSession::new(1);
    s.handle_bitfield(&vec![0b1000_0000]);
    s.handle_unchoke();
    s.try_acquire_work(&mut m);
    let _ = s.fill_requests();

    // Deliver corrupted data for the whole piece.
    assert!(s.handle_piece_block(0, 0, &vec![2u8; piece_len]));
    assert!(s.piece_complete());
    assert!(s.finish_piece(&mut m).is_none());
    assert!(s.current_work.is_none());
    assert_eq!(m.piece_status[0], PieceStatus::Pending);
    assert_eq!(m.downloaded_pieces, 0);
}

#[test]
fn release_frees_the_assignment_on_disconnect() {
    let t = Torrent {
        announce: b"x".to_vec(),
        announce_list: None,
        info: Info {
            name: b"n".to_vec(),
            piece_length: 8,
            pieces: vec![0u8; 20],
            length: Some(8),
            files: None,
        },
    };
    let mut m = TorrentManager::new(t);
    let mut s = PeerSession::new(1);
    s.handle_bitfield(&vec![0b1000_0000]);
    s.handle_unchoke();
    s.try_acquire_work(&mut m);
    assert_eq!(m.piece_status[0], PieceStatus::InProgress);
    s.release(&mut m);
    assert!(s.current_work.is_none());
    assert_eq!(m.piece_status[0], PieceStatus::Pending);
}

#[test]
fn choke_blocks_new_requests_but_keeps_assignment() {
    let t = Torrent {
        announce: b"x".to_vec(),
        announce_list: None,
        info: Info {
            name: b"n".to_vec(),
            piece_length: 8,
            pieces: vec![0u8; 20],
            length: Some(8),
            files: None,
        },
    };
    let mut m = TorrentManager::new(t);
    let mut s = PeerSession::new(1);
    s.handle_bitfield(&vec![0b1000_0000]);
    s.handle_unchoke();
    s.try_acquire_work(&mut m);
    assert!(s.current_work.is_some());
    s.handle_choke();
    assert!(s.current_work.is_some());
    assert!(s.fill_requests().is_empty());
}

#[test]
fn upload_serves_only_complete_pieces_within_range() {
    let piece: Vec<u8> = (0..10u8).collect();
    // A pending piece is never served.
    assert!(upload_block(PieceStatus::Pending, &piece, 0, 0, 4).is_none());
    assert!(upload_block(PieceStatus::InProgress, &piece, 0, 0, 4).is_none());
    // A complete piece is served exactly within its bounds.
    let served = upload_block(PieceStatus::Complete, &piece, 3, 2, 4).unwrap();
    assert_eq!(
        served,
        Message::Piece { index: 3, begin: 2, block: vec![2, 3, 4, 5] }
    );
    // An out-of-range request is dropped, not answered.
    assert!(upload_block(PieceStatus::Complete, &piece, 3, 8, 4).is_none());
    assert!(upload_block(PieceStatus::Complete, &piece, 3, 0, 11).is_none());
}

#[test]
fn pipeline_refills_across_waves_to_cover_a_large_piece() {
    // One piece larger than the 5-block window: the first wave fills the
    // window, the refill after receipt covers the rest; 7 requests in all,
    // exactly ceil(100000 / 16384).
    let piece_len: usize = 100000;
    let data: Vec<u8> = (0..piece_len).map(|i| (i % 249) as u8).collect();
    let t = Torrent {
        announce: b"x".to_vec(),
        announce_list: None,
        info: Info {
            name: b"n".to_vec(),
            piece_length: piece_len,
            pieces: sha1_of(&data).to_vec(),
            length: Some(piece_len as i64),
            files: None,
        },
    };
    let mut m = TorrentManager::new(t);
    let mut s = PeerSession::new(1);
    s.handle_bitfield(&vec![0b1000_0000]);
    s.handle_unchoke();
    s.try_acquire_work(&mut m);

    let wave1 = s.fill_requests();
    assert_eq!(wave1.len(), 5);
    for (k, req) in wave1.iter().enumerate() {
        assert_eq!(
            *req,
            Message::Request { index: 0, begin: (k * 16384) as u32, length: 16384 }
        );
    }
    // Nothing more fits the window until blocks arrive.
    assert!(s.fill_requests().is_empty());
    for req in &wave1 {
        if let Message::Request { begin, length, .. } = req {
            let lo = *begin as usize;
            let hi = lo + *length as usize;
            assert!(s.handle_piece_block(0, *begin, &data[lo..hi].to_vec()));
        }
    }

    let wave2 = s.fill_requests();
    assert_eq!(wave2.len(), 2);
    assert_eq!(wave2[0], Message::Request { index: 0, begin: 81920, length: 16384 });
    assert_eq!(wave2[1], Message::Request { index: 0, begin: 98304, length: 1696 });
    for req in &wave2 {
        if let Message::Request { begin, length, .. } = req {
            let lo = *begin as usize;
            let hi = lo + *length as usize;
            assert!(s.handle_piece_block(0, *begin, &data[lo..hi].to_vec()));
        }
    }
    assert!(s.piece_complete());
    assert_eq!(s.finish_piece(&mut m).expect("verified"), data);
}
