//! An in-memory download round trip: a file set is turned into a torrent,
//! every piece travels through a session as wire blocks from a simulated
//! seeder, is verified against its hash, and is written back through the
//! layout into a fresh file set that must equal the original byte for byte.

use bittorrent::creator::build_torrent;
use bittorrent::layout::{assemble_piece, build_file_layout, piece_spans, piece_write_chunks};
use bittorrent::manager::TorrentManager;
use bittorrent::message::Message;
use bittorrent::session::PeerSession;
use bittorrent::torrent::FileNode;

#[test]
fn download_reproduces_the_file_set_byte_for_byte() {
    // The original file set: three files over an 11-byte piece size, so
    // pieces span file boundaries.
    let file_bytes: Vec<Vec<u8>> = vec![
        (0..23u8).collect(),
        (100..103u8).collect(),
        (7..47u8).collect(),
    ];
    let files: Vec<FileNode> = vec![
        FileNode { length: 23, path: vec![b"a".to_vec()] },
        FileNode { length: 3, path: vec![b"sub".to_vec(), b"b".to_vec()] },
        FileNode { length: 40, path: vec![b"c".to_vec()] },
    ];
    let stream: Vec<u8> = file_bytes.concat();
    let torrent = build_torrent(b"udp://t".to_vec(), b"set".to_vec(), Some(files), &stream, 11)
        .expect("buildable");
    let num_pieces = torrent.num_pieces();
    assert_eq!(num_pieces, 6);

    let layout = build_file_layout(&torrent);
    let mut disk: Vec<Vec<u8>> = layout.iter().map(|e| vec![0u8; e.length as usize]).collect();

    let mut manager = TorrentManager::new(torrent.clone());
    let mut session = PeerSession::new(num_pieces);
    session.handle_bitfield(&vec![0xFF]);
    session.handle_unchoke();

    loop {
        session.try_acquire_work(&mut manager);
        let index = match &session.current_work {
            Some(st) => st.piece_index,
            None => break,
        };
        // The simulated seeder answers each request with the stream bytes.
        let requests = session.fill_requests();
        assert!(!requests.is_empty());
        let start = index * 11;
        for req in &requests {
            if let Message::Request { begin, length, .. } = req {
                let lo = start + *begin as usize;
                let hi = lo + *length as usize;
                let block = stream[lo..hi].to_vec();
                assert!(session.handle_piece_block(index as u32, *begin, &block));
            }
        }
        assert!(session.piece_complete());
        let data = session.finish_piece(&mut manager).expect("hash verified");

        // Write the verified piece through the spans.
        let spans = piece_spans(&torrent, &layout, index);
        let chunks = piece_write_chunks(&data, &spans);
        for (span, chunk) in spans.iter().zip(chunks.iter()) {
            let file = &mut disk[span.file_index];
            let at = span.file_offset as usize;
            file[at..at + chunk.len()].copy_from_slice(chunk);
        }

        // Reading the piece back through the same spans returns the data.
        let read_back: Vec<Vec<u8>> = spans
            .iter()
            .map(|s| {
                let at = s.file_offset as usize;
                disk[s.file_index][at..at + s.length].to_vec()
            })
            .collect();
        let rebuilt = assemble_piece(data.len(), &spans, &read_back);
        assert_eq!(rebuilt, data);
    }

    assert!(manager.is_complete());
    assert_eq!(disk, file_bytes);
}
