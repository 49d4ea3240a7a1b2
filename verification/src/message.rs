//! The peer wire protocol messages and their codec.
//!
//! Every message is framed as a 4-byte big-endian length prefix followed by
//! the frame: one id byte and an id-specific payload. A length of zero is a
//! keep-alive with no frame at all.

use vstd::prelude::*;

use crate::bytes::{
    bytes_range, lemma_u32_be_inverse, lemma_u32_be_round_trip, push_bytes, push_u32_be,
    read_u32_be, spec_u32_from_be, spec_u32_to_be,
};

verus! {

/// A message of the peer wire protocol.
#[derive(Debug, PartialEq)]
pub enum Message {
    /// Empty frame; keeps an idle connection open.
    KeepAlive,
    /// The peer stops serving our requests.
    Choke,
    /// The peer is willing to serve our requests.
    Unchoke,
    /// We want to download from the peer.
    Interested,
    /// We do not want to download from the peer.
    NotInterested,
    /// The peer now has the piece `index`.
    Have { index: u32 },
    /// The set of pieces the peer has, packed MSB-first.
    Bitfield(Vec<u8>),
    /// Asks for `length` bytes of piece `index` starting at `begin`.
    Request { index: u32, begin: u32, length: u32 },
    /// A block of data of piece `index` starting at `begin`.
    Piece { index: u32, begin: u32, block: Vec<u8> },
}

/// The mathematical model of a message: byte payloads become sequences.
pub enum MessageView {
    KeepAlive,
    Choke,
    Unchoke,
    Interested,
    NotInterested,
    Have { index: u32 },
    Bitfield(Seq<u8>),
    Request { index: u32, begin: u32, length: u32 },
    Piece { index: u32, begin: u32, block: Seq<u8> },
}

impl View for Message {
    type V = MessageView;

    open spec fn view(&self) -> MessageView {
        match self {
            Message::KeepAlive => MessageView::KeepAlive,
            Message::Choke => MessageView::Choke,
            Message::Unchoke => MessageView::Unchoke,
            Message::Interested => MessageView::Interested,
            Message::NotInterested => MessageView::NotInterested,
            Message::Have { index } => MessageView::Have { index: *index },
            Message::Bitfield(payload) => MessageView::Bitfield(payload@),
            Message::Request { index, begin, length } => MessageView::Request {
                index: *index,
                begin: *begin,
                length: *length,
            },
            Message::Piece { index, begin, block } => MessageView::Piece {
                index: *index,
                begin: *begin,
                block: block@,
            },
        }
    }
}

/// A message can be framed only if its frame length fits the 32-bit prefix.
pub open spec fn spec_message_wf(m: MessageView) -> bool {
    match m {
        MessageView::Bitfield(payload) => payload.len() + 1 <= u32::MAX,
        MessageView::Piece { index, begin, block } => block.len() + 9 <= u32::MAX,
        _ => true,
    }
}

/// The frame of a message: the id byte and the payload, without the length
/// prefix. A keep-alive has an empty frame.
pub open spec fn spec_frame(m: MessageView) -> Seq<u8> {
    match m {
        MessageView::KeepAlive => Seq::<u8>::empty(),
        MessageView::Choke => seq![0u8],
        MessageView::Unchoke => seq![1u8],
        MessageView::Interested => seq![2u8],
        MessageView::NotInterested => seq![3u8],
        MessageView::Have { index } => seq![4u8] + spec_u32_to_be(index),
        MessageView::Bitfield(payload) => seq![5u8] + payload,
        MessageView::Request { index, begin, length } => seq![6u8] + spec_u32_to_be(index)
            + spec_u32_to_be(begin) + spec_u32_to_be(length),
        MessageView::Piece { index, begin, block } => seq![7u8] + spec_u32_to_be(index)
            + spec_u32_to_be(begin) + block,
    }
}

/// The full wire bytes of a message: big-endian frame length, then the frame.
pub open spec fn spec_serialize(m: MessageView) -> Seq<u8> {
    spec_u32_to_be(spec_frame(m).len() as u32) + spec_frame(m)
}

/// What the parser makes of a frame; `None` is a fatal protocol error.
pub open spec fn spec_parse_frame(p: Seq<u8>) -> Option<MessageView> {
    if p.len() == 0 {
        Some(MessageView::KeepAlive)
    } else if p[0] == 0 {
        Some(MessageView::Choke)
    } else if p[0] == 1 {
        Some(MessageView::Unchoke)
    } else if p[0] == 2 {
        Some(MessageView::Interested)
    } else if p[0] == 3 {
        Some(MessageView::NotInterested)
    } else if p[0] == 4 {
        if p.len() == 5 {
            Some(MessageView::Have { index: spec_u32_from_be(p[1], p[2], p[3], p[4]) })
        } else {
            None
        }
    } else if p[0] == 5 {
        Some(MessageView::Bitfield(p.skip(1)))
    } else if p[0] == 6 {
        if p.len() == 13 {
            Some(MessageView::Request {
                index: spec_u32_from_be(p[1], p[2], p[3], p[4]),
                begin: spec_u32_from_be(p[5], p[6], p[7], p[8]),
                length: spec_u32_from_be(p[9], p[10], p[11], p[12]),
            })
        } else {
            None
        }
    } else if p[0] == 7 {
        if p.len() >= 9 {
            Some(MessageView::Piece {
                index: spec_u32_from_be(p[1], p[2], p[3], p[4]),
                begin: spec_u32_from_be(p[5], p[6], p[7], p[8]),
                block: p.skip(9),
            })
        } else {
            None
        }
    } else {
        None
    }
}

/// A frame is well formed when it is exactly the serialization of some
/// message: empty, or one id byte with a payload of the exact length that
/// id calls for. (The parser is slightly more lenient: it ignores stray
/// payload bytes after the ids 0 through 3, as received implementations do.)
pub open spec fn spec_frame_wf(p: Seq<u8>) -> bool {
    if p.len() == 0 {
        true
    } else if p[0] <= 3 {
        p.len() == 1
    } else if p[0] == 4 {
        p.len() == 5
    } else if p[0] == 5 {
        true
    } else if p[0] == 6 {
        p.len() == 13
    } else if p[0] == 7 {
        p.len() >= 9
    } else {
        false
    }
}

/// Why a frame was rejected.
#[derive(Debug, PartialEq, Eq, Structural, Clone, Copy)]
pub enum MessageError {
    /// The payload length does not fit the message id.
    BadPayload { id: u8 },
    /// The id byte is none of the eight defined messages.
    UnknownId { id: u8 },
}

/// The error the parser reports for a rejected frame.
pub open spec fn spec_parse_error(p: Seq<u8>) -> MessageError {
    if p.len() > 0 && p[0] > 7 {
        MessageError::UnknownId { id: p[0] }
    } else if p.len() > 0 {
        MessageError::BadPayload { id: p[0] }
    } else {
        MessageError::BadPayload { id: 0 }
    }
}

impl Message {
    /// Serializes the message into its wire bytes: 4-byte big-endian frame
    /// length, then the frame.
    pub fn serialize(&self) -> (r: Vec<u8>)
        requires
            spec_message_wf(self@),
        ensures
            r@ == spec_serialize(self@),
    {
        let mut out: Vec<u8> = Vec::new();
        match self {
            Message::KeepAlive => {
                push_u32_be(&mut out, 0);
            }
            Message::Choke => {
                push_u32_be(&mut out, 1);
                out.push(0);
            }
            Message::Unchoke => {
                push_u32_be(&mut out, 1);
                out.push(1);
            }
            Message::Interested => {
                push_u32_be(&mut out, 1);
                out.push(2);
            }
            Message::NotInterested => {
                push_u32_be(&mut out, 1);
                out.push(3);
            }
            Message::Have { index } => {
                push_u32_be(&mut out, 5);
                out.push(4);
                push_u32_be(&mut out, *index);
            }
            Message::Bitfield(payload) => {
                push_u32_be(&mut out, (payload.len() as u32) + 1);
                out.push(5);
                push_bytes(&mut out, payload.as_slice());
            }
            Message::Request { index, begin, length } => {
                push_u32_be(&mut out, 13);
                out.push(6);
                push_u32_be(&mut out, *index);
                push_u32_be(&mut out, *begin);
                push_u32_be(&mut out, *length);
            }
            Message::Piece { index, begin, block } => {
                push_u32_be(&mut out, (block.len() as u32) + 9);
                out.push(7);
                push_u32_be(&mut out, *index);
                push_u32_be(&mut out, *begin);
                push_bytes(&mut out, block.as_slice());
            }
        }
        proof {
            assert(out@ =~= spec_serialize(self@));
        }
        out
    }

    /// Parses one frame (the bytes after the length prefix). Accepts exactly
    /// the well-formed frames; the error tells why the frame was rejected.
    pub fn parse_frame(p: &[u8]) -> (r: Result<Message, MessageError>)
        requires
            p@.len() <= u32::MAX,
        ensures
            match r {
                Ok(m) => spec_parse_frame(p@) == Some(m@) && spec_message_wf(m@),
                Err(e) => spec_parse_frame(p@) is None && e == spec_parse_error(p@),
            },
    {
        if p.len() == 0 {
            return Ok(Message::KeepAlive);
        }
        let id = p[0];
        if id == 0 {
            Ok(Message::Choke)
        } else if id == 1 {
            Ok(Message::Unchoke)
        } else if id == 2 {
            Ok(Message::Interested)
        } else if id == 3 {
            Ok(Message::NotInterested)
        } else if id == 4 {
            if p.len() == 5 {
                Ok(Message::Have { index: read_u32_be(p, 1) })
            } else {
                Err(MessageError::BadPayload { id })
            }
        } else if id == 5 {
            let payload = bytes_range(p, 1, p.len());
            proof {
                assert(payload@ =~= p@.skip(1));
            }
            Ok(Message::Bitfield(payload))
        } else if id == 6 {
            if p.len() == 13 {
                Ok(Message::Request {
                    index: read_u32_be(p, 1),
                    begin: read_u32_be(p, 5),
                    length: read_u32_be(p, 9),
                })
            } else {
                Err(MessageError::BadPayload { id })
            }
        } else if id == 7 {
            if p.len() >= 9 {
                let block = bytes_range(p, 9, p.len());
                proof {
                    assert(block@ =~= p@.skip(9));
                }
                Ok(Message::Piece {
                    index: read_u32_be(p, 1),
                    begin: read_u32_be(p, 5),
                    block,
                })
            } else {
                Err(MessageError::BadPayload { id })
            }
        } else {
            Err(MessageError::UnknownId { id })
        }
    }
}

/// Parsing the frame of a serialized message gives the message back: one
/// direction of the codec bijection.
pub proof fn lemma_parse_serialize(m: MessageView)
    requires
        spec_message_wf(m),
    ensures
        spec_serialize(m) == spec_u32_to_be(spec_frame(m).len() as u32) + spec_frame(m),
        spec_parse_frame(spec_frame(m)) == Some(m),
{
    let p = spec_frame(m);
    match m {
        MessageView::KeepAlive => {}
        MessageView::Choke => {}
        MessageView::Unchoke => {}
        MessageView::Interested => {}
        MessageView::NotInterested => {}
        MessageView::Have { index } => {
            lemma_u32_be_round_trip(index);
        }
        MessageView::Bitfield(payload) => {
            assert(p.skip(1) =~= payload);
        }
        MessageView::Request { index, begin, length } => {
            lemma_u32_be_round_trip(index);
            lemma_u32_be_round_trip(begin);
            lemma_u32_be_round_trip(length);
        }
        MessageView::Piece { index, begin, block } => {
            lemma_u32_be_round_trip(index);
            lemma_u32_be_round_trip(begin);
            assert(p.skip(9) =~= block);
        }
    }
}

/// Serializing what a well-formed frame parses to gives the frame back, with
/// its length prefix in front: the other direction of the bijection.
pub proof fn lemma_serialize_parse(p: Seq<u8>)
    requires
        spec_frame_wf(p),
        p.len() <= u32::MAX,
    ensures
        spec_parse_frame(p) matches Some(m) && spec_message_wf(m) && spec_serialize(m)
            == spec_u32_to_be(p.len() as u32) + p,
{
    let m = spec_parse_frame(p).unwrap();
    if p.len() == 0 {
        assert(spec_frame(m) =~= p);
    } else if p[0] == 0 || p[0] == 1 || p[0] == 2 || p[0] == 3 {
        assert(spec_frame(m) =~= p);
    } else if p[0] == 4 {
        lemma_u32_be_inverse(p[1], p[2], p[3], p[4]);
        assert(spec_frame(m) =~= p);
    } else if p[0] == 5 {
        assert(spec_frame(m) =~= p);
    } else if p[0] == 6 {
        lemma_u32_be_inverse(p[1], p[2], p[3], p[4]);
        lemma_u32_be_inverse(p[5], p[6], p[7], p[8]);
        lemma_u32_be_inverse(p[9], p[10], p[11], p[12]);
        assert(spec_frame(m) =~= p);
    } else {
        assert(p[0] == 7 && p.len() >= 9);
        lemma_u32_be_inverse(p[1], p[2], p[3], p[4]);
        lemma_u32_be_inverse(p[5], p[6], p[7], p[8]);
        let a = spec_u32_to_be(spec_u32_from_be(p[1], p[2], p[3], p[4]));
        let b = spec_u32_to_be(spec_u32_from_be(p[5], p[6], p[7], p[8]));
        assert(spec_frame(m) == seq![7u8] + a + b + p.skip(9));
        assert(seq![7u8] + a + b + p.skip(9) =~= p);
    }
}

} // verus!
