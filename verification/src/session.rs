//! The per-peer session state machine: the peer's advertised pieces, the
//! choke flag, one piece assignment at a time, request pipelining, block
//! assembly, and the hand-over to the manager when a piece completes. The
//! socket itself lives outside; the session consumes parsed messages and
//! yields messages to send.

use vstd::prelude::*;

use crate::bytes::{write_at, zero_vec};
use crate::manager::{spec_pick, PieceStatus, TorrentManager};
use crate::message::{Message, MessageView};
use crate::sha::{digest_matches, sha1_of};
use crate::torrent::{spec_num_pieces, spec_piece_size, InfoView};

verus! {

/// Maximum bytes requested per block; the protocol's customary unit.
pub const BLOCK_MAX: u32 = 16384;

/// How many bytes may be in flight (requested, not yet downloaded) at once:
/// five blocks.
pub const PIPELINE_WINDOW: u32 = 81920;

/// The one piece a session is currently downloading.
pub struct PeerSessionState {
    /// The piece's index.
    pub piece_index: usize,
    /// The assembly buffer, exactly the piece's size.
    pub piece_buffer: Vec<u8>,
    /// How many bytes of the piece have arrived.
    pub downloaded: u32,
    /// How many bytes of the piece have been requested.
    pub requested: u32,
    /// The piece's exact size.
    pub piece_length: u32,
}

/// The state of one peer connection.
pub struct PeerSession {
    /// False while the peer is choking us; requests may be issued only when
    /// true.
    pub am_unchoked: bool,
    /// Which pieces the peer claims to have.
    pub peer_has_pieces: Vec<bool>,
    /// The current piece assignment, if any.
    pub current_work: Option<PeerSessionState>,
}

/// Bit `i` of a bitfield payload, packed MSB-first: bit 7 of byte 0 is
/// piece 0.
pub open spec fn spec_bit_set(bits: Seq<u8>, i: int) -> bool {
    &&& 0 <= i
    &&& i / 8 < bits.len()
    &&& (bits[i / 8] >> (7 - (i % 8)) as u8) & 1u8 == 1u8
}

impl PeerSession {
    /// The session invariant, against the torrent it downloads: one
    /// availability flag per piece, and an assignment whose buffer matches
    /// the piece's exact size, with `downloaded <= requested <= size`.
    pub open spec fn wf(&self, info: InfoView) -> bool {
        &&& self.peer_has_pieces@.len() == spec_num_pieces(info)
        &&& self.assignment_inv()
        &&& match self.current_work {
            Some(st) => st.piece_index < spec_num_pieces(info) && st.piece_length
                == spec_piece_size(info, st.piece_index as int),
            None => true,
        }
    }

    /// The part of the invariant the assignment carries by itself: a buffer
    /// of the piece's exact size, with `downloaded <= requested <= size`.
    pub open spec fn assignment_inv(&self) -> bool {
        match self.current_work {
            Some(st) => st.piece_buffer@.len() == st.piece_length && st.downloaded <= st.requested
                <= st.piece_length,
            None => true,
        }
    }

    /// A fresh session: choked, no assignment, and a peer assumed to have
    /// nothing until its bitfield or haves say otherwise.
    pub fn new(num_pieces: usize) -> (r: PeerSession)
        ensures
            r.peer_has_pieces@.len() == num_pieces,
            forall|i: int| 0 <= i < num_pieces ==> !r.peer_has_pieces@[i],
            !r.am_unchoked,
            r.current_work is None,
    {
        let mut v: Vec<bool> = Vec::new();
        let mut i: usize = 0;
        while i < num_pieces
            invariant
                i <= num_pieces,
                v@.len() == i,
                forall|k: int| 0 <= k < i ==> !v@[k],
            decreases num_pieces - i,
        {
            v.push(false);
            i = i + 1;
        }
        PeerSession { am_unchoked: false, peer_has_pieces: v, current_work: None }
    }

    /// The peer choked us: no new requests until it unchokes. The running
    /// assignment is kept; a stall is recovered by the caller's timeout.
    pub fn handle_choke(&mut self)
        ensures
            *final(self) == (PeerSession { am_unchoked: false, ..*old(self) }),
    {
        self.am_unchoked = false;
    }

    /// The peer unchoked us: requests may flow again.
    pub fn handle_unchoke(&mut self)
        ensures
            *final(self) == (PeerSession { am_unchoked: true, ..*old(self) }),
    {
        self.am_unchoked = true;
    }

    /// The peer announced one more piece; an index out of range is ignored.
    pub fn handle_have(&mut self, index: u32)
        ensures
            final(self).am_unchoked == old(self).am_unchoked,
            final(self).current_work == old(self).current_work,
            final(self).peer_has_pieces@ == (if (index as int)
                < old(self).peer_has_pieces@.len() {
                old(self).peer_has_pieces@.update(index as int, true)
            } else {
                old(self).peer_has_pieces@
            }),
    {
        if (index as usize) < self.peer_has_pieces.len() {
            self.peer_has_pieces[index as usize] = true;
        }
    }

    /// Applies a bitfield: every piece whose bit is set (MSB-first within
    /// each byte) becomes available; bits beyond the piece count are
    /// ignored, and availability is never taken away.
    pub fn handle_bitfield(&mut self, payload: &Vec<u8>)
        ensures
            final(self).am_unchoked == old(self).am_unchoked,
            final(self).current_work == old(self).current_work,
            final(self).peer_has_pieces@.len() == old(self).peer_has_pieces@.len(),
            forall|i: int|
                0 <= i < old(self).peer_has_pieces@.len() ==> final(self).peer_has_pieces@[i] == (
                old(self).peer_has_pieces@[i] || spec_bit_set(payload@, i)),
    {
        let n = self.peer_has_pieces.len();
        let ghost p0 = self.peer_has_pieces@;
        let mut i: usize = 0;
        while i < n
            invariant
                n == self.peer_has_pieces@.len(),
                p0 == old(self).peer_has_pieces@,
                p0.len() == n,
                self.am_unchoked == old(self).am_unchoked,
                self.current_work == old(self).current_work,
                i <= n,
                forall|k: int|
                    #![trigger self.peer_has_pieces@[k]]
                    0 <= k < i ==> self.peer_has_pieces@[k] == (p0[k] || spec_bit_set(
                        payload@,
                        k,
                    )),
                forall|k: int| i <= k < n ==> self.peer_has_pieces@[k] == p0[k],
            decreases n - i,
        {
            let byte_index = i / 8;
            let ghost ii = i as int;
            let mut avail = self.peer_has_pieces[i];
            if byte_index < payload.len() {
                let b = payload[byte_index];
                let shift: u8 = (7 - (i % 8)) as u8;
                if (b >> shift) & 1 == 1 {
                    avail = true;
                }
            }
            proof {
                assert(avail == (p0[ii] || spec_bit_set(payload@, ii)));
            }
            let ghost prevv = self.peer_has_pieces@;
            self.peer_has_pieces[i] = avail;
            proof {
                assert(self.peer_has_pieces@ =~= prevv.update(ii, avail));
            }
            i = i + 1;
        }
    }

    /// If unchoked and idle, asks the manager for a piece this peer has and
    /// sets up the assignment: a zeroed buffer of the piece's exact size.
    pub fn try_acquire_work(&mut self, m: &mut TorrentManager)
        requires
            old(self).wf(old(m).torrent.info@),
            old(m).wf(),
        ensures
            final(m).wf(),
            final(m).torrent == old(m).torrent,
            final(self).wf(final(m).torrent.info@),
            final(self).am_unchoked == old(self).am_unchoked,
            final(self).peer_has_pieces == old(self).peer_has_pieces,
            !(old(self).am_unchoked && old(self).current_work is None) ==> *final(self)
                == *old(self) && *final(m) == *old(m),
            (old(self).am_unchoked && old(self).current_work is None) ==> match spec_pick(
                old(m).piece_status@,
                old(self).peer_has_pieces@,
            ) {
                Some(i) => {
                    &&& final(self).current_work matches Some(st)
                    &&& st.piece_index == i
                    &&& st.downloaded == 0
                    &&& st.requested == 0
                    &&& st.piece_length == spec_piece_size(old(m).torrent.info@, i)
                    &&& forall|j: int| 0 <= j < st.piece_buffer@.len() ==> st.piece_buffer@[j] == 0u8
                    &&& final(m).piece_status@ == old(m).piece_status@.update(
                        i,
                        PieceStatus::InProgress,
                    )
                },
                None => final(self).current_work is None && final(m).piece_status@ == old(
                    m,
                ).piece_status@,
            },
    {
        if self.am_unchoked && self.current_work.is_none() {
            match m.pick_next_piece(self.peer_has_pieces.as_slice()) {
                Some(index) => {
                    let piece_length = m.torrent.calculate_piece_size(index);
                    let piece_buffer = zero_vec(piece_length as usize);
                    self.current_work = Some(
                        PeerSessionState {
                            piece_index: index,
                            piece_buffer,
                            downloaded: 0,
                            requested: 0,
                            piece_length,
                        },
                    );
                }
                None => {}
            }
        }
    }

    /// The request pipeline: while unchoked, with work assigned and fewer
    /// than five blocks in flight, emits the next block requests in order
    /// and advances `requested`.
    pub fn fill_requests(&mut self) -> (r: Vec<Message>)
        requires
            old(self).assignment_inv(),
        ensures
            final(self).assignment_inv(),
            final(self).am_unchoked == old(self).am_unchoked,
            final(self).peer_has_pieces == old(self).peer_has_pieces,
            match old(self).current_work {
                Some(st) => {
                    &&& final(self).current_work matches Some(st2)
                    &&& st2.piece_index == st.piece_index && st2.piece_length == st.piece_length
                        && st2.downloaded == st.downloaded && st2.piece_buffer == st.piece_buffer
                    &&& (if old(self).am_unchoked {
                        r@.map_values(|msg: Message| msg@) == spec_pipeline(
                            st.piece_index as u32,
                            st.piece_length,
                            st.requested,
                            st.downloaded,
                        ) && st2.requested == spec_pipeline_end(
                            st.piece_length,
                            st.requested,
                            st.downloaded,
                        )
                    } else {
                        r@.len() == 0 && st2.requested == st.requested
                    })
                },
                None => *final(self) == *old(self) && r@.len() == 0,
            },
    {
        let mut out: Vec<Message> = Vec::new();
        let unchoked = self.am_unchoked;
        match &mut self.current_work {
            Some(st) => {
                if !unchoked {
                    return out;
                }
                let index = st.piece_index;
                let size = st.piece_length;
                let downloaded = st.downloaded;
                let mut requested = st.requested;
                let ghost r0 = st.requested;
                proof {
                    assert(out@.map_values(|msg: Message| msg@) + spec_pipeline(
                        index as u32,
                        size,
                        requested,
                        downloaded,
                    ) =~= spec_pipeline(index as u32, size, r0, downloaded));
                }
                while requested < size && requested - downloaded < PIPELINE_WINDOW
                    invariant
                        downloaded <= requested <= size,
                        spec_pipeline(index as u32, size, r0, downloaded) == out@.map_values(
                            |msg: Message| msg@,
                        ) + spec_pipeline(index as u32, size, requested, downloaded),
                        spec_pipeline_end(size, r0, downloaded) == spec_pipeline_end(
                            size,
                            requested,
                            downloaded,
                        ),
                    decreases size - requested,
                {
                    let remaining = size - requested;
                    let block_size = if BLOCK_MAX < remaining {
                        BLOCK_MAX
                    } else {
                        remaining
                    };
                    let msg = Message::Request {
                        index: index as u32,
                        begin: requested,
                        length: block_size,
                    };
                    let ghost prev = out@.map_values(|m2: Message| m2@);
                    let ghost tail = spec_pipeline(
                        index as u32,
                        size,
                        (requested + block_size) as u32,
                        downloaded,
                    );
                    out.push(msg);
                    proof {
                        assert(out@.map_values(|m2: Message| m2@) =~= prev.push(msg@));
                        assert(prev + (seq![msg@] + tail) =~= prev.push(msg@) + tail);
                    }
                    requested = requested + block_size;
                }
                st.requested = requested;
                out
            }
            None => out,
        }
    }
}

impl PeerSession {
    /// Accepts one block of the current assignment: the bytes go into the
    /// buffer at `begin` and are counted. A block for another piece, past
    /// the end of the piece, or beyond what was requested is dropped.
    pub fn handle_piece_block(&mut self, index: u32, begin: u32, block: &Vec<u8>) -> (accepted:
        bool)
        requires
            old(self).assignment_inv(),
        ensures
            final(self).assignment_inv(),
            final(self).am_unchoked == old(self).am_unchoked,
            final(self).peer_has_pieces == old(self).peer_has_pieces,
            accepted == (old(self).current_work matches Some(st) && st.piece_index == index
                && begin + block@.len() <= st.piece_length && st.downloaded + block@.len()
                <= st.requested),
            !accepted ==> *final(self) == *old(self),
            accepted ==> ({
                let st = old(self).current_work->Some_0;
                &&& final(self).current_work matches Some(st2)
                &&& st2.piece_index == st.piece_index
                &&& st2.piece_length == st.piece_length
                &&& st2.requested == st.requested
                &&& st2.downloaded == st.downloaded + block@.len()
                &&& st2.piece_buffer@.len() == st.piece_buffer@.len()
                &&& (forall|j: int|
                    begin <= j < begin + block@.len() ==> st2.piece_buffer@[j] == block@[j
                        - begin])
                &&& (forall|j: int|
                    0 <= j < st.piece_buffer@.len() && !(begin <= j < begin + block@.len())
                        ==> st2.piece_buffer@[j] == st.piece_buffer@[j])
            }),
    {
        match &mut self.current_work {
            Some(st) => {
                let blen = block.len();
                let fits = st.piece_index == index as usize && blen <= (st.piece_length as usize)
                    && (begin as u64) + (blen as u64) <= (st.piece_length as u64)
                    && (st.downloaded as u64) + (blen as u64) <= (st.requested as u64);
                if fits {
                    write_at(&mut st.piece_buffer, begin as usize, block.as_slice());
                    st.downloaded = st.downloaded + (block.len() as u32);
                    true
                } else {
                    false
                }
            }
            None => false,
        }
    }

    /// True exactly when the assignment's buffer is fully downloaded.
    pub fn piece_complete(&self) -> (r: bool)
        ensures
            r == (self.current_work matches Some(st) && st.downloaded == st.piece_length),
    {
        match &self.current_work {
            Some(st) => st.downloaded == st.piece_length,
            None => false,
        }
    }

    /// Finishes a fully downloaded piece: hashes the buffer and compares it
    /// to the expected piece hash. On a match the piece is recorded complete
    /// in the ledger and the verified bytes are handed back for writing; on
    /// a mismatch the piece returns to the pending pool and the buffer is
    /// discarded. Either way the assignment is cleared.
    pub fn finish_piece(&mut self, m: &mut TorrentManager) -> (r: Option<Vec<u8>>)
        requires
            old(self).wf(old(m).torrent.info@),
            old(m).wf(),
            old(self).current_work is Some,
        ensures
            final(m).wf(),
            final(m).torrent == old(m).torrent,
            final(self).wf(final(m).torrent.info@),
            final(self).current_work is None,
            final(self).am_unchoked == old(self).am_unchoked,
            final(self).peer_has_pieces == old(self).peer_has_pieces,
            ({
                let st = old(self).current_work->Some_0;
                let expected = old(m).torrent.info@.pieces.subrange(
                    20 * st.piece_index as int,
                    20 * st.piece_index as int + 20,
                );
                match r {
                    Some(data) => {
                        &&& sha1_of(st.piece_buffer@) == expected
                        &&& data@ == st.piece_buffer@
                        &&& final(m).piece_status@ == old(m).piece_status@.update(
                            st.piece_index as int,
                            PieceStatus::Complete,
                        )
                    },
                    None => {
                        &&& sha1_of(st.piece_buffer@) != expected
                        &&& final(m).piece_status@ == (if old(m).piece_status@[st.piece_index
                            as int] is Complete {
                            old(m).piece_status@
                        } else {
                            old(m).piece_status@.update(st.piece_index as int, PieceStatus::Pending)
                        })
                    },
                }
            }),
    {
        let mut work: Option<PeerSessionState> = None;
        core::mem::swap(&mut self.current_work, &mut work);
        match work {
            Some(st) => {
                proof {
                    let len = m.torrent.info@.pieces.len() as int;
                    assert(20 * st.piece_index + 20 <= len) by (nonlinear_arith)
                        requires
                            st.piece_index < len / 20,
                            len % 20 == 0,
                            len >= 0,
                    ;
                }
                let expected = match m.torrent.get_piece_hash(st.piece_index) {
                    Ok(h) => h,
                    Err(_) => {
                        proof {
                            assert(false);
                        }
                        return None;
                    }
                };
                if digest_matches(st.piece_buffer.as_slice(), &expected) {
                    m.mark_piece_complete(st.piece_index);
                    Some(st.piece_buffer)
                } else {
                    m.reset_piece(st.piece_index);
                    None
                }
            }
            None => {
                proof {
                    assert(false);
                }
                None
            }
        }
    }

    /// Cleanup when a session ends for any reason: the assignment, if any,
    /// returns to the pending pool so another peer can pick it up.
    pub fn release(&mut self, m: &mut TorrentManager)
        requires
            old(self).wf(old(m).torrent.info@),
            old(m).wf(),
        ensures
            final(m).wf(),
            final(m).torrent == old(m).torrent,
            final(m).downloaded_pieces == old(m).downloaded_pieces,
            final(self).current_work is None,
            final(self).am_unchoked == old(self).am_unchoked,
            final(self).peer_has_pieces == old(self).peer_has_pieces,
            final(m).piece_status@ == (match old(self).current_work {
                Some(st) => (if old(m).piece_status@[st.piece_index as int] is Complete {
                    old(m).piece_status@
                } else {
                    old(m).piece_status@.update(st.piece_index as int, PieceStatus::Pending)
                }),
                None => old(m).piece_status@,
            }),
    {
        let mut work: Option<PeerSessionState> = None;
        core::mem::swap(&mut self.current_work, &mut work);
        match work {
            Some(st) => {
                m.reset_piece(st.piece_index);
            }
            None => {}
        }
    }
}

/// The upload-service decision: a peer's request for `length` bytes of
/// piece `index` at `begin` is served exactly when the piece is recorded
/// complete and the requested range lies within the piece (and the block
/// fits a frame); anything else is dropped without a reply.
pub fn upload_block(
    status: PieceStatus,
    piece: &Vec<u8>,
    index: u32,
    begin: u32,
    length: u32,
) -> (r: Option<Message>)
    ensures
        r is Some <==> (status is Complete && begin + length <= piece@.len() && length + 9
            <= u32::MAX),
        r matches Some(m) ==> m@ == (MessageView::Piece {
            index,
            begin,
            block: piece@.subrange(begin as int, begin as int + length as int),
        }) && crate::message::spec_message_wf(m@),
{
    if !matches!(status, PieceStatus::Complete) {
        return None;
    }
    if (begin as u64) + (length as u64) > piece.len() as u64 {
        return None;
    }
    if length > u32::MAX - 9 {
        return None;
    }
    let lo = begin as usize;
    let hi = lo + (length as usize);
    let block = crate::bytes::bytes_range(piece.as_slice(), lo, hi);
    Some(Message::Piece { index, begin, block })
}

/// The requests the pipeline emits from `begin` on: block-sized requests in
/// order, until the piece is fully requested or five blocks are in flight.
pub open spec fn spec_pipeline(index: u32, size: u32, begin: u32, downloaded: u32) -> Seq<
    MessageView,
>
    decreases size - begin,
{
    if begin >= size || begin - downloaded >= PIPELINE_WINDOW {
        Seq::<MessageView>::empty()
    } else {
        let len: u32 = if BLOCK_MAX < (size - begin) as u32 {
            BLOCK_MAX
        } else {
            (size - begin) as u32
        };
        seq![MessageView::Request { index, begin, length: len }] + spec_pipeline(
            index,
            size,
            (begin + len) as u32,
            downloaded,
        )
    }
}

/// Law (pipelining): starting a fresh piece no larger than the in-flight
/// window, the pipeline emits exactly `ceil(size / BLOCK_MAX)` requests.
pub proof fn lemma_pipeline_request_count(index: u32, size: u32, begin: u32)
    requires
        size <= PIPELINE_WINDOW,
        begin <= size,
    ensures
        spec_pipeline(index, size, begin, 0).len() == ((size - begin) + BLOCK_MAX - 1) as int
            / (BLOCK_MAX as int),
    decreases size - begin,
{
    let rem = (size - begin) as int;
    if begin >= size {
        assert(rem == 0);
        assert((0 + BLOCK_MAX - 1) as int / (BLOCK_MAX as int) == 0) by (nonlinear_arith);
    } else {
        let len: u32 = if BLOCK_MAX < (size - begin) as u32 {
            BLOCK_MAX
        } else {
            (size - begin) as u32
        };
        lemma_pipeline_request_count(index, size, (begin + len) as u32);
        if BLOCK_MAX < (size - begin) as u32 {
            assert((rem + BLOCK_MAX - 1) / (BLOCK_MAX as int) == 1 + ((rem - BLOCK_MAX)
                + BLOCK_MAX - 1) / (BLOCK_MAX as int)) by (nonlinear_arith)
                requires
                    rem > BLOCK_MAX,
            ;
        } else {
            assert((rem + BLOCK_MAX - 1) / (BLOCK_MAX as int) == 1) by (nonlinear_arith)
                requires
                    0 < rem <= BLOCK_MAX,
            ;
        }
    }
}

/// Law (pipelining across waves): from any state, the pipeline emits
/// exactly as many block requests as fit both the rest of the piece and
/// the open part of the in-flight window, and `requested` advances to the
/// piece end or to the window edge. Waves therefore tile the piece in
/// consecutive blocks: `ceil(size / BLOCK_MAX)` requests in all.
pub proof fn lemma_pipeline_wave(index: u32, size: u32, begin: u32, downloaded: u32)
    requires
        downloaded <= begin <= size,
    ensures
        ({
            let window = if begin - downloaded >= PIPELINE_WINDOW {
                0int
            } else {
                (PIPELINE_WINDOW - (begin - downloaded)) as int
            };
            let need = ((size - begin) + BLOCK_MAX - 1) as int / (BLOCK_MAX as int);
            let cap = (window + BLOCK_MAX - 1) / (BLOCK_MAX as int);
            &&& spec_pipeline(index, size, begin, downloaded).len() == (if need <= cap {
                need
            } else {
                cap
            })
            &&& spec_pipeline_end(size, begin, downloaded) == (if need <= cap {
                size as int
            } else {
                begin + cap * BLOCK_MAX
            })
        }),
    decreases size - begin,
{
    let window = if begin - downloaded >= PIPELINE_WINDOW {
        0int
    } else {
        (PIPELINE_WINDOW - (begin - downloaded)) as int
    };
    let remaining = (size - begin) as int;
    let need = (remaining + BLOCK_MAX - 1) as int / (BLOCK_MAX as int);
    let cap = (window + BLOCK_MAX - 1) / (BLOCK_MAX as int);
    if begin >= size {
        assert(need == 0) by (nonlinear_arith)
            requires
                need == (0 + BLOCK_MAX - 1) as int / (BLOCK_MAX as int),
        ;
        assert(cap >= 0) by (nonlinear_arith)
            requires
                cap == (window + BLOCK_MAX - 1) / (BLOCK_MAX as int),
                window >= 0,
        ;
    } else if begin - downloaded >= PIPELINE_WINDOW {
        assert(window == 0);
        assert(cap == 0) by (nonlinear_arith)
            requires
                cap == (0 + BLOCK_MAX - 1) as int / (BLOCK_MAX as int),
        ;
        assert(need >= 1) by (nonlinear_arith)
            requires
                need == (remaining + BLOCK_MAX - 1) as int / (BLOCK_MAX as int),
                remaining >= 1,
        ;
    } else {
        let len: u32 = if BLOCK_MAX < (size - begin) as u32 {
            BLOCK_MAX
        } else {
            (size - begin) as u32
        };
        lemma_pipeline_wave(index, size, (begin + len) as u32, downloaded);
        let window2 = if (begin + len) - downloaded >= PIPELINE_WINDOW {
            0int
        } else {
            (PIPELINE_WINDOW - ((begin + len) - downloaded)) as int
        };
        let remaining2 = (size - (begin + len)) as int;
        let need2 = (remaining2 + BLOCK_MAX - 1) as int / (BLOCK_MAX as int);
        let cap2 = (window2 + BLOCK_MAX - 1) / (BLOCK_MAX as int);
        assert(window >= 1);
        assert(cap >= 1) by (nonlinear_arith)
            requires
                cap == (window + BLOCK_MAX - 1) / (BLOCK_MAX as int),
                window >= 1,
        ;
        if remaining <= BLOCK_MAX {
            assert(len == remaining);
            assert(need == 1) by (nonlinear_arith)
                requires
                    need == (remaining + BLOCK_MAX - 1) as int / (BLOCK_MAX as int),
                    1 <= remaining <= BLOCK_MAX,
            ;
            assert(need2 == 0) by (nonlinear_arith)
                requires
                    need2 == (0 + BLOCK_MAX - 1) as int / (BLOCK_MAX as int),
            ;
            assert(cap2 >= 0) by (nonlinear_arith)
                requires
                    cap2 == (window2 + BLOCK_MAX - 1) / (BLOCK_MAX as int),
                    window2 >= 0,
            ;
        } else {
            assert(len == BLOCK_MAX);
            assert(need == 1 + need2) by (nonlinear_arith)
                requires
                    need == (remaining + BLOCK_MAX - 1) as int / (BLOCK_MAX as int),
                    need2 == ((remaining - BLOCK_MAX) + BLOCK_MAX - 1) as int / (
                    BLOCK_MAX as int),
                    remaining > BLOCK_MAX,
            ;
            if window <= BLOCK_MAX {
                assert(window2 == 0);
                assert(cap == 1) by (nonlinear_arith)
                    requires
                        cap == (window + BLOCK_MAX - 1) / (BLOCK_MAX as int),
                        1 <= window <= BLOCK_MAX,
                ;
                assert(cap2 == 0) by (nonlinear_arith)
                    requires
                        cap2 == (0 + BLOCK_MAX - 1) as int / (BLOCK_MAX as int),
                ;
            } else {
                assert(window2 == window - BLOCK_MAX);
                assert(cap == 1 + cap2) by (nonlinear_arith)
                    requires
                        cap == (window + BLOCK_MAX - 1) / (BLOCK_MAX as int),
                        cap2 == ((window - BLOCK_MAX) + BLOCK_MAX - 1) / (BLOCK_MAX as int),
                        window > BLOCK_MAX,
                ;
            }
            assert((1 + cap2) * BLOCK_MAX == BLOCK_MAX + cap2 * BLOCK_MAX) by (nonlinear_arith);
        }
    }
}

/// Where `requested` stands after the pipeline runs.
pub open spec fn spec_pipeline_end(size: u32, begin: u32, downloaded: u32) -> u32
    decreases size - begin,
{
    if begin >= size || begin - downloaded >= PIPELINE_WINDOW {
        begin
    } else {
        let len: u32 = if BLOCK_MAX < (size - begin) as u32 {
            BLOCK_MAX
        } else {
            (size - begin) as u32
        };
        spec_pipeline_end(size, (begin + len) as u32, downloaded)
    }
}

} // verus!
