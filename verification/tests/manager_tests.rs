//! The piece ledger: dispatch, completion accounting, resets, and the
//! startup verification pass.

use bittorrent::manager::{PieceStatus, TorrentManager};
use bittorrent::torrent::{Info, Torrent};
use sha1::{Digest, Sha1};

fn sha1_of(data: &[u8]) -> [u8; 20] {
    let mut hasher = Sha1::new();
    hasher.update(data);
    hasher.finalize().into()
}

fn torrent_over(piece_length: usize, chunks: &[&[u8]]) -> Torrent {
    let mut pieces = Vec::new();
    let mut total: i64 = 0;
    for c in chunks {
        pieces.extend_from_slice(&sha1_of(c));
        total += c.len() as i64;
    }
    Torrent {
        announce: b"x".to_vec(),
        announce_list: None,
        info: Info {
            name: b"n".to_vec(),
            piece_length,
            pieces,
            length: Some(total),
            files: None,
        },
    }
}

#[test]
fn pick_hands_out_pieces_in_order_without_repeats() {
    let t = torrent_over(4, &[&[0u8; 4], &[1u8; 4], &[2u8; 2]]);
    let mut m = TorrentManager::new(t);
    let bitfield = vec![true, true, true];

    assert_eq!(m.pick_next_piece(&bitfield), Some(0));
    assert_eq!(m.pick_next_piece(&bitfield), Some(1));
    assert_eq!(m.pick_next_piece(&bitfield), Some(2));
    // Every piece is taken: a further pick finds nothing.
    assert_eq!(m.pick_next_piece(&bitfield), None);

    // Only a reset makes a piece eligible again.
    m.reset_piece(1);
    assert_eq!(m.pick_next_piece(&bitfield), Some(1));
}

#[test]
fn pick_respects_the_peer_bitfield() {
    let t = torrent_over(4, &[&[0u8; 4], &[1u8; 4], &[2u8; 2]]);
    let mut m = TorrentManager::new(t);
    assert_eq!(m.pick_next_piece(&[false, false, true]), Some(2));
    assert_eq!(m.pick_next_piece(&[false, false, true]), None);
    // A short bitfield offers nothing beyond its length.
    assert_eq!(m.pick_next_piece(&[false]), None);
}

#[test]
fn mark_complete_is_idempotent_and_counts_once() {
    let t = torrent_over(4, &[&[0u8; 4], &[1u8; 4], &[2u8; 2]]);
    let mut m = TorrentManager::new(t);
    assert!(!m.is_complete());
    m.mark_piece_complete(0);
    assert_eq!(m.downloaded_pieces, 1);
    m.mark_piece_complete(0);
    assert_eq!(m.downloaded_pieces, 1);
    // A complete piece is not reset.
    m.reset_piece(0);
    assert_eq!(m.piece_status[0], PieceStatus::Complete);
    m.mark_piece_complete(1);
    m.mark_piece_complete(2);
    assert!(m.is_complete());
}

#[test]
fn verification_pass_marks_matching_pieces() {
    // All but the last piece hold correct data: the pass completes those
    // two and leaves the last pending.
    let c0: &[u8] = &[5u8; 4];
    let c1: &[u8] = &[6u8; 4];
    let c2: &[u8] = &[7u8; 2];
    let t = torrent_over(4, &[c0, c1, c2]);
    let mut m = TorrentManager::new(t);

    assert!(m.record_verified_piece(0, c0));
    assert!(m.record_verified_piece(1, c1));
    let wrong = [9u8; 2];
    assert!(!m.record_verified_piece(2, &wrong));

    assert_eq!(m.downloaded_pieces, 2);
    assert_eq!(m.piece_status[0], PieceStatus::Complete);
    assert_eq!(m.piece_status[1], PieceStatus::Complete);
    assert_eq!(m.piece_status[2], PieceStatus::Pending);
    assert!(!m.is_complete());
}
