//! The piece/file layout: multi-file spans, write-chunk slicing, and the
//! assemble round trip.

use bittorrent::layout::{assemble_piece, build_file_layout, piece_range, piece_spans,
    piece_write_chunks};
use bittorrent::torrent::{FileNode, Info, Torrent};

fn multi_file_torrent() -> Torrent {
    // Files a=5, b=7, c=4 with piece_length 6: 16 bytes, 3 pieces.
    Torrent {
        announce: b"x".to_vec(),
        announce_list: None,
        info: Info {
            name: b"root".to_vec(),
            piece_length: 6,
            pieces: vec![0u8; 20 * 3],
            length: None,
            files: Some(vec![
                FileNode { length: 5, path: vec![b"a".to_vec()] },
                FileNode { length: 7, path: vec![b"b".to_vec()] },
                FileNode { length: 4, path: vec![b"c".to_vec()] },
            ]),
        },
    }
}

#[test]
fn layout_prefixes_name_and_keeps_order() {
    let t = multi_file_torrent();
    let layout = build_file_layout(&t);
    assert_eq!(layout.len(), 3);
    assert_eq!(layout[0].path, vec![b"root".to_vec(), b"a".to_vec()]);
    assert_eq!(layout[0].length, 5);
    assert_eq!(layout[1].path, vec![b"root".to_vec(), b"b".to_vec()]);
    assert_eq!(layout[2].path, vec![b"root".to_vec(), b"c".to_vec()]);
}

#[test]
fn single_file_layout_is_one_entry() {
    let t = Torrent {
        announce: b"x".to_vec(),
        announce_list: None,
        info: Info {
            name: b"data.bin".to_vec(),
            piece_length: 4,
            pieces: vec![0u8; 20 * 3],
            length: Some(10),
            files: None,
        },
    };
    let layout = build_file_layout(&t);
    assert_eq!(layout.len(), 1);
    assert_eq!(layout[0].path, vec![b"data.bin".to_vec()]);
    assert_eq!(layout[0].length, 10);
}

#[test]
fn multi_file_piece_spans() {
    let t = multi_file_torrent();
    let layout = build_file_layout(&t);

    // Piece 0 covers a[0..5] then b[0..1].
    let s0 = piece_spans(&t, &layout, 0);
    assert_eq!(s0.len(), 2);
    assert_eq!((s0[0].file_index, s0[0].file_offset, s0[0].piece_offset, s0[0].length), (0, 0, 0, 5));
    assert_eq!((s0[1].file_index, s0[1].file_offset, s0[1].piece_offset, s0[1].length), (1, 0, 5, 1));

    // Piece 1 covers b[1..7].
    let s1 = piece_spans(&t, &layout, 1);
    assert_eq!(s1.len(), 1);
    assert_eq!((s1[0].file_index, s1[0].file_offset, s1[0].piece_offset, s1[0].length), (1, 1, 0, 6));

    // Piece 2 covers c[0..4], size 4.
    let s2 = piece_spans(&t, &layout, 2);
    assert_eq!(s2.len(), 1);
    assert_eq!((s2[0].file_index, s2[0].file_offset, s2[0].piece_offset, s2[0].length), (2, 0, 0, 4));
}

#[test]
fn piece_ranges_follow_piece_length() {
    let t = multi_file_torrent();
    assert_eq!(piece_range(&t, 0), (0, 6));
    assert_eq!(piece_range(&t, 1), (6, 12));
    assert_eq!(piece_range(&t, 2), (12, 16));
}

#[test]
fn write_chunks_then_assemble_round_trips() {
    let t = multi_file_torrent();
    let layout = build_file_layout(&t);
    let data: Vec<u8> = vec![10, 11, 12, 13, 14, 15];
    let spans = piece_spans(&t, &layout, 0);
    let chunks = piece_write_chunks(&data, &spans);
    assert_eq!(chunks.len(), 2);
    assert_eq!(chunks[0], vec![10, 11, 12, 13, 14]);
    assert_eq!(chunks[1], vec![15]);
    let rebuilt = assemble_piece(6, &spans, &chunks);
    assert_eq!(rebuilt, data);
}
