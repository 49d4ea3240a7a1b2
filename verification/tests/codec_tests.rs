//! The wire codec: exact bytes for each message, parse/serialize round
//! trips, and the rejections the parser owes.

use bittorrent::message::{Message, MessageError};

#[test]
fn request_serializes_to_exact_bytes() {
    let m = Message::Request { index: 1, begin: 0, length: 16384 };
    let bytes = m.serialize();
    assert_eq!(
        bytes,
        vec![
            0x00, 0x00, 0x00, 0x0D, 0x06, 0x00, 0x00, 0x00, 0x01, 0x00, 0x00, 0x00, 0x00, 0x00,
            0x00, 0x40, 0x00
        ]
    );
}

#[test]
fn fixed_messages_serialize_to_exact_bytes() {
    assert_eq!(Message::KeepAlive.serialize(), vec![0, 0, 0, 0]);
    assert_eq!(Message::Choke.serialize(), vec![0, 0, 0, 1, 0]);
    assert_eq!(Message::Unchoke.serialize(), vec![0, 0, 0, 1, 1]);
    assert_eq!(Message::Interested.serialize(), vec![0, 0, 0, 1, 2]);
    assert_eq!(Message::NotInterested.serialize(), vec![0, 0, 0, 1, 3]);
    assert_eq!(
        Message::Have { index: 258 }.serialize(),
        vec![0, 0, 0, 5, 4, 0, 0, 1, 2]
    );
}

#[test]
fn bitfield_and_piece_serialize_with_payload() {
    assert_eq!(
        Message::Bitfield(vec![0b10000001, 0x40]).serialize(),
        vec![0, 0, 0, 3, 5, 0b10000001, 0x40]
    );
    assert_eq!(
        Message::Piece { index: 2, begin: 7, block: vec![9, 8] }.serialize(),
        vec![0, 0, 0, 11, 7, 0, 0, 0, 2, 0, 0, 0, 7, 9, 8]
    );
}

#[test]
fn parse_of_serialized_message_round_trips() {
    let messages = vec![
        Message::KeepAlive,
        Message::Choke,
        Message::Unchoke,
        Message::Interested,
        Message::NotInterested,
        Message::Have { index: 7 },
        Message::Bitfield(vec![0xFF, 0x01]),
        Message::Request { index: 3, begin: 16384, length: 1000 },
        Message::Piece { index: 3, begin: 16384, block: vec![1, 2, 3, 4, 5] },
    ];
    for m in messages {
        let wire = m.serialize();
        let frame = &wire[4..];
        let parsed = Message::parse_frame(frame).expect("well-formed frame");
        assert_eq!(parsed, m);
    }
}

#[test]
fn serialize_of_parsed_frame_round_trips() {
    let frames: Vec<Vec<u8>> = vec![
        vec![],
        vec![0],
        vec![1],
        vec![4, 0, 0, 0, 9],
        vec![5, 0xAA, 0x55, 0x00],
        vec![6, 0, 0, 0, 1, 0, 0, 0, 2, 0, 0, 64, 0],
        vec![7, 0, 0, 0, 1, 0, 0, 0, 2, 10, 20, 30],
    ];
    for frame in frames {
        let m = Message::parse_frame(&frame).expect("well-formed frame");
        let wire = m.serialize();
        assert_eq!(&wire[4..], &frame[..]);
        let len = u32::from_be_bytes([wire[0], wire[1], wire[2], wire[3]]) as usize;
        assert_eq!(len, frame.len());
    }
}

#[test]
fn parser_rejects_malformed_frames() {
    assert_eq!(
        Message::parse_frame(&[4, 0, 0, 0]),
        Err(MessageError::BadPayload { id: 4 })
    );
    assert_eq!(
        Message::parse_frame(&[6, 0, 0, 0, 1]),
        Err(MessageError::BadPayload { id: 6 })
    );
    assert_eq!(
        Message::parse_frame(&[7, 0, 0, 0, 1, 0, 0, 0]),
        Err(MessageError::BadPayload { id: 7 })
    );
    assert_eq!(
        Message::parse_frame(&[9, 1, 2, 3]),
        Err(MessageError::UnknownId { id: 9 })
    );
}
