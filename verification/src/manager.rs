//! The piece ledger: the shared record of which pieces are pending, being
//! downloaded, or complete. All transitions happen under one exclusive lock
//! held by the caller; each method here is one such atomic transition.

use vstd::prelude::*;

use crate::sha::{digest_matches, sha1_of};
use crate::torrent::{spec_info_wf, spec_num_pieces, Torrent};

verus! {

/// The download state of one piece.
#[derive(Debug, PartialEq, Eq, Structural, Clone, Copy)]
pub enum PieceStatus {
    /// Nobody is working on the piece.
    Pending,
    /// Exactly one session is downloading the piece.
    InProgress,
    /// The piece was verified against its hash (and written out).
    Complete,
}

/// Number of complete pieces in a ledger.
pub open spec fn spec_count_complete(s: Seq<PieceStatus>) -> int
    decreases s.len(),
{
    if s.len() == 0 {
        0
    } else {
        (if s[0] is Complete {
            1int
        } else {
            0int
        }) + spec_count_complete(s.skip(1))
    }
}

/// The count of complete pieces lies between 0 and the ledger length.
pub proof fn lemma_count_bounds(s: Seq<PieceStatus>)
    ensures
        0 <= spec_count_complete(s) <= s.len(),
    decreases s.len(),
{
    if s.len() > 0 {
        lemma_count_bounds(s.skip(1));
    }
}

/// How one update changes the count of complete pieces.
pub proof fn lemma_count_update(s: Seq<PieceStatus>, i: int, v: PieceStatus)
    requires
        0 <= i < s.len(),
    ensures
        spec_count_complete(s.update(i, v)) == spec_count_complete(s) + (if v is Complete {
            1int
        } else {
            0int
        }) - (if s[i] is Complete {
            1int
        } else {
            0int
        }),
    decreases s.len(),
{
    if i == 0 {
        assert(s.update(0, v).skip(1) =~= s.skip(1));
    } else {
        assert(s.update(i, v).skip(1) =~= s.skip(1).update(i - 1, v));
        lemma_count_update(s.skip(1), i - 1, v);
    }
}

/// The count reaches the length exactly when every piece is complete.
pub proof fn lemma_count_full(s: Seq<PieceStatus>)
    ensures
        (spec_count_complete(s) == s.len()) <==> (forall|i: int|
            0 <= i < s.len() ==> s[i] is Complete),
    decreases s.len(),
{
    if s.len() > 0 {
        lemma_count_full(s.skip(1));
        lemma_count_bounds(s.skip(1));
        assert(forall|i: int| 0 <= i < s.skip(1).len() ==> s.skip(1)[i] == s[i + 1]);
        if spec_count_complete(s) == s.len() {
            assert(s[0] is Complete);
            assert(spec_count_complete(s.skip(1)) == s.skip(1).len());
            assert forall|i: int| 0 <= i < s.len() implies s[i] is Complete by {
                if i > 0 {
                    assert(s.skip(1)[i - 1] is Complete);
                }
            }
        }
        if forall|i: int| 0 <= i < s.len() ==> s[i] is Complete {
            assert(s[0] is Complete);
            assert(forall|i: int| 0 <= i < s.skip(1).len() ==> s.skip(1)[i] is Complete);
            assert(spec_count_complete(s.skip(1)) == s.skip(1).len());
        }
    }
}

/// The first pending piece at or after `j` that the peer has.
pub open spec fn spec_pick_from(s: Seq<PieceStatus>, bf: Seq<bool>, j: int) -> Option<int>
    decreases s.len() - j,
{
    if j < 0 || j >= s.len() {
        None
    } else if s[j] is Pending && j < bf.len() && bf[j] {
        Some(j)
    } else {
        spec_pick_from(s, bf, j + 1)
    }
}

/// The piece the manager hands out for a peer bitfield: the first pending
/// index the peer has, scanned in ascending order.
pub open spec fn spec_pick(s: Seq<PieceStatus>, bf: Seq<bool>) -> Option<int> {
    spec_pick_from(s, bf, 0)
}

/// Whatever pick returns is a pending piece the peer has, and no eligible
/// piece lies below it.
pub proof fn lemma_pick_properties(s: Seq<PieceStatus>, bf: Seq<bool>, j: int)
    requires
        0 <= j,
    ensures
        match spec_pick_from(s, bf, j) {
            Some(i) => j <= i < s.len() && s[i] is Pending && i < bf.len() && bf[i]
                && (forall|k: int|
                j <= k < i ==> !(s[k] is Pending && k < bf.len() && bf[k])),
            None => forall|k: int| j <= k < s.len() ==> !(s[k] is Pending && k < bf.len() && bf[k]),
        },
    decreases s.len() - j,
{
    if j < s.len() {
        if !(s[j] is Pending && j < bf.len() && bf[j]) {
            lemma_pick_properties(s, bf, j + 1);
        }
    }
}

/// The shared state of a download: the torrent, the per-piece ledger, and
/// the count of complete pieces.
pub struct TorrentManager {
    /// The immutable metainfo of the download.
    pub torrent: Torrent,
    /// One status per piece.
    pub piece_status: Vec<PieceStatus>,
    /// Count of pieces whose status is `Complete`.
    pub downloaded_pieces: usize,
}

impl TorrentManager {
    /// The manager invariant: one ledger slot per piece, a well-formed
    /// torrent, and a counter that equals the number of complete pieces.
    pub open spec fn wf(&self) -> bool {
        &&& spec_info_wf(self.torrent.info@)
        &&& self.piece_status@.len() == spec_num_pieces(self.torrent.info@)
        &&& self.downloaded_pieces == spec_count_complete(self.piece_status@)
    }

    /// A fresh manager: every piece pending, nothing downloaded.
    pub fn new(torrent: Torrent) -> (r: TorrentManager)
        requires
            spec_info_wf(torrent.info@),
        ensures
            r.wf(),
            r.torrent == torrent,
            r.piece_status@.len() == spec_num_pieces(torrent.info@),
            forall|i: int| 0 <= i < r.piece_status@.len() ==> r.piece_status@[i] is Pending,
            r.downloaded_pieces == 0,
    {
        let piece_count = torrent.info.pieces.len() / 20;
        let piece_status: Vec<PieceStatus> = make_pending(piece_count);
        proof {
            lemma_all_pending_count_zero(piece_status@);
        }
        TorrentManager { torrent, piece_status, downloaded_pieces: 0 }
    }

    /// Hands out the first pending piece the peer has and marks it
    /// `InProgress`; the atomic transition that keeps two sessions from
    /// downloading the same piece.
    pub fn pick_next_piece(&mut self, peer_bitfield: &[bool]) -> (r: Option<usize>)
        requires
            old(self).wf(),
        ensures
            final(self).wf(),
            final(self).torrent == old(self).torrent,
            final(self).downloaded_pieces == old(self).downloaded_pieces,
            match r {
                Some(i) => {
                    &&& spec_pick(old(self).piece_status@, peer_bitfield@) == Some(i as int)
                    &&& i < old(self).piece_status@.len()
                    &&& old(self).piece_status@[i as int] is Pending
                    &&& i < peer_bitfield@.len() && peer_bitfield@[i as int]
                    &&& final(self).piece_status@ == old(self).piece_status@.update(
                        i as int,
                        PieceStatus::InProgress,
                    )
                },
                None => {
                    &&& spec_pick(old(self).piece_status@, peer_bitfield@) is None
                    &&& final(self).piece_status@ == old(self).piece_status@
                },
            },
    {
        let ghost s0 = self.piece_status@;
        let mut index: usize = 0;
        while index < self.piece_status.len()
            invariant
                self.piece_status@ == s0,
                s0 == old(self).piece_status@,
                self.torrent == old(self).torrent,
                self.downloaded_pieces == old(self).downloaded_pieces,
                self.wf(),
                index <= s0.len(),
                spec_pick_from(s0, peer_bitfield@, 0) == spec_pick_from(
                    s0,
                    peer_bitfield@,
                    index as int,
                ),
            decreases s0.len() - index,
        {
            let is_pending = matches!(self.piece_status[index], PieceStatus::Pending);
            if is_pending && index < peer_bitfield.len() && peer_bitfield[index] {
                self.piece_status[index] = PieceStatus::InProgress;
                proof {
                    lemma_count_update(s0, index as int, PieceStatus::InProgress);
                }
                return Some(index);
            }
            index = index + 1;
        }
        None
    }

    /// Records a piece as complete; idempotent, and bumps the counter only
    /// on the first transition.
    pub fn mark_piece_complete(&mut self, index: usize)
        requires
            old(self).wf(),
            index < old(self).piece_status@.len(),
        ensures
            final(self).wf(),
            final(self).torrent == old(self).torrent,
            final(self).piece_status@ == old(self).piece_status@.update(
                index as int,
                PieceStatus::Complete,
            ),
            final(self).downloaded_pieces == old(self).downloaded_pieces + (if old(
                self,
            ).piece_status@[index as int] is Complete {
                0int
            } else {
                1int
            }),
    {
        let ghost s0 = self.piece_status@;
        let n = self.piece_status.len();
        let was_complete = matches!(self.piece_status[index], PieceStatus::Complete);
        proof {
            assert(s0.len() == n);
            lemma_count_update(s0, index as int, PieceStatus::Complete);
            lemma_count_bounds(s0.update(index as int, PieceStatus::Complete));
            assert(s0.update(index as int, PieceStatus::Complete).len() == n);
        }
        if !was_complete {
            self.piece_status[index] = PieceStatus::Complete;
            self.downloaded_pieces = self.downloaded_pieces + 1;
        } else {
            proof {
                assert(s0.update(index as int, PieceStatus::Complete) =~= s0);
            }
        }
    }

    /// Returns a non-complete piece to the pending pool; called when a
    /// session abandons or fails a piece. A complete piece stays complete.
    pub fn reset_piece(&mut self, index: usize)
        requires
            old(self).wf(),
            index < old(self).piece_status@.len(),
        ensures
            final(self).wf(),
            final(self).torrent == old(self).torrent,
            final(self).downloaded_pieces == old(self).downloaded_pieces,
            final(self).piece_status@ == (if old(self).piece_status@[index as int] is Complete {
                old(self).piece_status@
            } else {
                old(self).piece_status@.update(index as int, PieceStatus::Pending)
            }),
    {
        let ghost s0 = self.piece_status@;
        let is_complete = matches!(self.piece_status[index], PieceStatus::Complete);
        if !is_complete {
            self.piece_status[index] = PieceStatus::Pending;
            proof {
                lemma_count_update(s0, index as int, PieceStatus::Pending);
            }
        }
    }

    /// True exactly when every piece is complete.
    pub fn is_complete(&self) -> (r: bool)
        requires
            self.wf(),
        ensures
            r == (forall|i: int|
                0 <= i < self.piece_status@.len() ==> self.piece_status@[i] is Complete),
    {
        proof {
            lemma_count_full(self.piece_status@);
        }
        self.downloaded_pieces == self.piece_status.len()
    }

    /// Checks a freshly read piece against its expected hash; on a match the
    /// piece is recorded complete. This is the per-piece step of the
    /// startup verification pass.
    pub fn record_verified_piece(&mut self, index: usize, data: &[u8]) -> (r: bool)
        requires
            old(self).wf(),
            index < old(self).piece_status@.len(),
            20 * index + 20 <= old(self).torrent.info@.pieces.len(),
        ensures
            final(self).wf(),
            final(self).torrent == old(self).torrent,
            r == (sha1_of(data@) == old(self).torrent.info@.pieces.subrange(
                20 * index as int,
                20 * index as int + 20,
            )),
            final(self).piece_status@ == (if r {
                old(self).piece_status@.update(index as int, PieceStatus::Complete)
            } else {
                old(self).piece_status@
            }),
    {
        let expected = match self.torrent.get_piece_hash(index) {
            Ok(h) => h,
            Err(_) => {
                proof {
                    assert(false);
                }
                return false;
            }
        };
        if digest_matches(data, &expected) {
            self.mark_piece_complete(index);
            true
        } else {
            false
        }
    }
}

/// One atomic ledger transition, in the order the manager's lock serializes
/// them.
pub enum ManagerOp {
    /// `pick_next_piece` on behalf of a peer with this bitfield.
    Pick { bitfield: Seq<bool> },
    /// `mark_piece_complete` of this piece.
    Mark { index: int },
    /// `reset_piece` of this piece.
    Reset { index: int },
}

/// The ledger after one transition.
pub open spec fn spec_apply_op(s: Seq<PieceStatus>, op: ManagerOp) -> Seq<PieceStatus> {
    match op {
        ManagerOp::Pick { bitfield } => match spec_pick(s, bitfield) {
            Some(i) => s.update(i, PieceStatus::InProgress),
            None => s,
        },
        ManagerOp::Mark { index } => if 0 <= index < s.len() {
            s.update(index, PieceStatus::Complete)
        } else {
            s
        },
        ManagerOp::Reset { index } => if 0 <= index < s.len() && !(s[index] is Complete) {
            s.update(index, PieceStatus::Pending)
        } else {
            s
        },
    }
}

/// The ledger after a whole sequence of transitions.
pub open spec fn spec_apply_ops(s: Seq<PieceStatus>, ops: Seq<ManagerOp>) -> Seq<PieceStatus>
    decreases ops.len(),
{
    if ops.len() == 0 {
        s
    } else {
        spec_apply_ops(spec_apply_op(s, ops[0]), ops.skip(1))
    }
}

/// No transition in `ops` resets piece `i`.
pub open spec fn spec_no_reset_of(ops: Seq<ManagerOp>, i: int) -> bool {
    forall|k: int|
        0 <= k < ops.len() ==> !(#[trigger] ops[k] matches ManagerOp::Reset { index } && index
            == i)
}

/// A transition other than a reset of `i` never makes piece `i` pending
/// again.
proof fn lemma_op_preserves_taken(s: Seq<PieceStatus>, op: ManagerOp, i: int)
    requires
        0 <= i < s.len(),
        !(s[i] is Pending),
        !(op matches ManagerOp::Reset { index } && index == i),
    ensures
        spec_apply_op(s, op).len() == s.len(),
        !(spec_apply_op(s, op)[i] is Pending),
{
    match op {
        ManagerOp::Pick { bitfield } => {
            lemma_pick_properties(s, bitfield, 0);
        }
        ManagerOp::Mark { index } => {}
        ManagerOp::Reset { index } => {}
    }
}

/// Law (mutual exclusion): once a pick has handed out piece `i` — so `i` is
/// no longer pending — no interleaving of picks, completions, and resets of
/// other pieces lets a later pick hand out `i` again; only a reset of `i`
/// itself can.
pub proof fn lemma_pick_mutual_exclusion(
    s: Seq<PieceStatus>,
    ops: Seq<ManagerOp>,
    i: int,
    bf: Seq<bool>,
)
    requires
        0 <= i < s.len(),
        !(s[i] is Pending),
        spec_no_reset_of(ops, i),
    ensures
        spec_apply_ops(s, ops).len() == s.len(),
        !(spec_apply_ops(s, ops)[i] is Pending),
        spec_pick(spec_apply_ops(s, ops), bf) != Some(i),
    decreases ops.len(),
{
    if ops.len() == 0 {
        lemma_pick_properties(s, bf, 0);
    } else {
        lemma_op_preserves_taken(s, ops[0], i);
        assert(spec_no_reset_of(ops.skip(1), i)) by {
            assert(forall|k: int| 0 <= k < ops.skip(1).len() ==> ops.skip(1)[k] == ops[k + 1]);
        }
        lemma_pick_mutual_exclusion(spec_apply_op(s, ops[0]), ops.skip(1), i, bf);
    }
}

/// A ledger of `n` pending pieces.
fn make_pending(n: usize) -> (r: Vec<PieceStatus>)
    ensures
        r@.len() == n,
        forall|i: int| 0 <= i < n ==> r@[i] is Pending,
{
    let mut v: Vec<PieceStatus> = Vec::new();
    let mut i: usize = 0;
    while i < n
        invariant
            i <= n,
            v@.len() == i,
            forall|k: int| 0 <= k < i ==> v@[k] is Pending,
        decreases n - i,
    {
        v.push(PieceStatus::Pending);
        i = i + 1;
    }
    v
}

/// An all-pending ledger has no complete piece.
proof fn lemma_all_pending_count_zero(s: Seq<PieceStatus>)
    requires
        forall|i: int| 0 <= i < s.len() ==> s[i] is Pending,
    ensures
        spec_count_complete(s) == 0,
    decreases s.len(),
{
    if s.len() > 0 {
        assert(forall|i: int| 0 <= i < s.skip(1).len() ==> s.skip(1)[i] == s[i + 1]);
        lemma_all_pending_count_zero(s.skip(1));
    }
}

} // verus!
