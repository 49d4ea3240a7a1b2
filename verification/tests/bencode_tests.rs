//! The metainfo codec: canonical encoding, parsing, validation, and the
//! info-hash fidelity guarantee.

use bittorrent::bencode::{encode_info, encode_torrent, BencodeError};
use bittorrent::creator::build_torrent;
use bittorrent::torrent::FileNode;
use bittorrent::torrent::{Info, Torrent};
use sha1::{Digest, Sha1};

fn sha1_of(data: &[u8]) -> [u8; 20] {
    let mut hasher = Sha1::new();
    hasher.update(data);
    hasher.finalize().into()
}

fn sample_info_bytes() -> Vec<u8> {
    let mut b = Vec::new();
    b.extend_from_slice(b"d6:lengthi10e4:name1:a12:piece lengthi4e6:pieces60:");
    b.extend_from_slice(&[7u8; 60]);
    b.extend_from_slice(b"e");
    b
}

fn sample_torrent_bytes() -> Vec<u8> {
    let mut b = Vec::new();
    b.extend_from_slice(b"d8:announce7:udp://t4:info");
    b.extend_from_slice(&sample_info_bytes());
    b.extend_from_slice(b"e");
    b
}

#[test]
fn load_parses_a_single_file_torrent() {
    let t = Torrent::load(&sample_torrent_bytes()).expect("valid torrent");
    assert_eq!(t.announce, b"udp://t".to_vec());
    assert_eq!(t.info.name, b"a".to_vec());
    assert_eq!(t.info.piece_length, 4);
    assert_eq!(t.info.length, Some(10));
    assert_eq!(t.info.pieces.len(), 60);
    assert_eq!(t.num_pieces(), 3);
}

#[test]
fn encode_info_reproduces_the_parsed_segment() {
    let t = Torrent::load(&sample_torrent_bytes()).expect("valid torrent");
    assert_eq!(encode_info(&t.info), sample_info_bytes());
}

#[test]
fn info_hash_is_sha1_of_the_original_info_segment() {
    let t = Torrent::load(&sample_torrent_bytes()).expect("valid torrent");
    assert_eq!(t.calculate_info_hash(), sha1_of(&sample_info_bytes()));
}

#[test]
fn load_accepts_announce_list_and_skips_unknown_top_level_keys() {
    let mut b = Vec::new();
    b.extend_from_slice(b"d8:announce7:udp://t13:announce-listll7:udp://t7:udp://uel7:udp://vee");
    b.extend_from_slice(b"7:comment5:hello4:info");
    b.extend_from_slice(&sample_info_bytes());
    b.extend_from_slice(b"e");
    let t = Torrent::load(&b).expect("valid torrent");
    let urls = t.get_tracker_urls();
    assert_eq!(
        urls,
        vec![b"udp://t".to_vec(), b"udp://u".to_vec(), b"udp://v".to_vec()]
    );
}

#[test]
fn load_parses_a_multi_file_torrent() {
    let mut info = Vec::new();
    info.extend_from_slice(b"d5:filesl");
    info.extend_from_slice(b"d6:lengthi5e4:pathl1:aee");
    info.extend_from_slice(b"d6:lengthi7e4:pathl1:bee");
    info.extend_from_slice(b"d6:lengthi4e4:pathl1:cee");
    info.extend_from_slice(b"e4:name3:dir12:piece lengthi6e6:pieces60:");
    info.extend_from_slice(&[9u8; 60]);
    info.extend_from_slice(b"e");
    let mut b = Vec::new();
    b.extend_from_slice(b"d8:announce7:udp://t4:info");
    b.extend_from_slice(&info);
    b.extend_from_slice(b"e");
    let t = Torrent::load(&b).expect("valid torrent");
    assert_eq!(t.total_length(), 16);
    let files = t.info.files.as_ref().unwrap();
    assert_eq!(files.len(), 3);
    assert_eq!(files[1].length, 7);
    assert_eq!(files[1].path, vec![b"b".to_vec()]);
    assert_eq!(encode_info(&t.info), info);
}

#[test]
fn load_of_encoded_torrent_round_trips() {
    let data: Vec<u8> = (0..100u8).collect();
    let built = build_torrent(b"udp://t".to_vec(), b"blob".to_vec(), None, &data, 32)
        .expect("buildable");
    let parsed = Torrent::load(&encode_torrent(&built)).expect("own encoding parses");
    assert_eq!(parsed, built);

    let files = vec![
        FileNode { length: 60, path: vec![b"x".to_vec(), b"y".to_vec()] },
        FileNode { length: 40, path: vec![b"z".to_vec()] },
    ];
    let multi = build_torrent(b"udp://t".to_vec(), b"dir".to_vec(), Some(files), &data, 32)
        .expect("buildable");
    let parsed_multi = Torrent::load(&encode_torrent(&multi)).expect("own encoding parses");
    assert_eq!(parsed_multi, multi);
}

#[test]
fn load_rejects_wrong_piece_count() {
    // 10 bytes at piece length 4 need 3 hashes, not 2.
    let mut b = Vec::new();
    b.extend_from_slice(b"d8:announce7:udp://t4:infod6:lengthi10e4:name1:a12:piece lengthi4e6:pieces40:");
    b.extend_from_slice(&[7u8; 40]);
    b.extend_from_slice(b"ee");
    assert_eq!(Torrent::load(&b), Err(BencodeError::BadMetainfo));
}

#[test]
fn load_rejects_missing_announce_or_info() {
    let mut no_announce = Vec::new();
    no_announce.extend_from_slice(b"d4:info");
    no_announce.extend_from_slice(&sample_info_bytes());
    no_announce.extend_from_slice(b"e");
    assert_eq!(Torrent::load(&no_announce), Err(BencodeError::BadMetainfo));
    assert_eq!(
        Torrent::load(b"d8:announce7:udp://te"),
        Err(BencodeError::BadMetainfo)
    );
}

#[test]
fn load_rejects_syntax_errors() {
    assert_eq!(Torrent::load(b""), Err(BencodeError::Syntax));
    assert_eq!(Torrent::load(b"i5e"), Err(BencodeError::Syntax));
    assert_eq!(Torrent::load(b"d8:announce"), Err(BencodeError::Syntax));
}

#[test]
fn load_rejects_non_canonical_info() {
    // An unknown key inside the info dictionary survives parsing but makes
    // the re-encoding differ, so no faithful info-hash exists.
    let mut info = Vec::new();
    info.extend_from_slice(b"d6:lengthi10e4:name1:a12:piece lengthi4e6:pieces60:");
    info.extend_from_slice(&[7u8; 60]);
    info.extend_from_slice(b"7:private1:1e");
    let mut b = Vec::new();
    b.extend_from_slice(b"d8:announce7:udp://t4:info");
    b.extend_from_slice(&info);
    b.extend_from_slice(b"e");
    assert_eq!(Torrent::load(&b), Err(BencodeError::NonCanonical));
}

#[test]
fn load_rejects_oversized_integers() {
    let mut b = Vec::new();
    b.extend_from_slice(b"d8:announce7:udp://t4:infod6:lengthi99999999999999999999e4:name1:a12:piece lengthi4e6:pieces0:ee");
    assert_eq!(Torrent::load(&b), Err(BencodeError::Overflow));
}
