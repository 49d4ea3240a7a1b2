//! Building a new torrent from data: chunking a byte stream into pieces,
//! hashing each piece, and assembling a well-formed metainfo. Reading the
//! source files and writing the .torrent file stay outside; this module
//! turns bytes into a torrent.

use vstd::prelude::*;

use crate::bytes::bytes_range;
use crate::sha::{sha1_digest, sha1_of};
use crate::torrent::{
    check_info_wf, spec_info_wf, spec_num_pieces, FileNode, FileNodeView, Info, Torrent,
};

verus! {

/// The piece size used for newly created torrents: 256 KiB.
pub const PIECE_LENGTH: usize = 262144;

/// The byte range of chunk `k` of a stream of `len` bytes cut into
/// `piece_length` units: the last chunk may be short.
pub open spec fn spec_chunk_end(len: int, piece_length: int, k: int) -> int {
    if (k + 1) * piece_length < len {
        (k + 1) * piece_length
    } else {
        len
    }
}

/// Cuts `data` into pieces of `piece_length` bytes (the last piece may be
/// shorter) and returns the concatenation of their 20-byte SHA-1 digests,
/// one per piece, in order.
pub fn build_pieces(data: &[u8], piece_length: usize) -> (r: Vec<u8>)
    requires
        0 < piece_length,
    ensures
        r@.len() % 20 == 0,
        r@.len() / 20 == (data@.len() + piece_length - 1) / (piece_length as int),
        forall|k: int|
            0 <= k < r@.len() / 20 ==> r@.subrange(20 * k, 20 * k + 20) == sha1_of(
                data@.subrange(
                    k * piece_length,
                    spec_chunk_end(data@.len() as int, piece_length as int, k),
                ),
            ),
{
    let n = data.len();
    let mut out: Vec<u8> = Vec::new();
    let mut off: usize = 0;
    let ghost mut k: int = 0;
    while off < n
        invariant
            n == data@.len(),
            0 < piece_length,
            0 <= k,
            off <= n,
            off == k * piece_length || (off == n && k >= 1 && n <= k * piece_length),
            k >= 1 ==> (k - 1) * piece_length < n,
            out@.len() == 20 * k,
            forall|t: int|
                0 <= t < k ==> out@.subrange(20 * t, 20 * t + 20) == sha1_of(
                    data@.subrange(
                        t * piece_length,
                        spec_chunk_end(n as int, piece_length as int, t),
                    ),
                ),
        decreases n - off,
    {
        let end = if n - off < piece_length {
            n
        } else {
            off + piece_length
        };
        proof {
            assert((k + 1) * piece_length == k * piece_length + piece_length) by (nonlinear_arith);
            assert(end == spec_chunk_end(n as int, piece_length as int, k));
        }
        let chunk = bytes_range(data, off, end);
        let digest = sha1_digest(chunk.as_slice());
        let ghost prev = out@;
        crate::bytes::push_bytes(&mut out, digest.as_slice());
        proof {
            assert(out@ == prev + digest@);
            assert(out@.subrange(20 * k, 20 * k + 20) =~= digest@);
            assert forall|t: int|
                0 <= t < k + 1 implies out@.subrange(20 * t, 20 * t + 20) == sha1_of(
                data@.subrange(t * piece_length, spec_chunk_end(n as int, piece_length as int, t)),
            ) by {
                if t < k {
                    assert(out@.subrange(20 * t, 20 * t + 20) =~= prev.subrange(
                        20 * t,
                        20 * t + 20,
                    ));
                }
            }
        }
        off = end;
        proof {
            k = k + 1;
            assert(off == k * piece_length || (off == n && n <= k * piece_length));
        }
    }
    proof {
        if k == 0 {
            assert(off == 0);
        }
        assert(k * piece_length >= n);
        lemma_chunk_count(n as int, piece_length as int, k);
    }
    out
}

/// Exactly `ceil(len / piece_length)` chunks are produced: the loop stops
/// with `k * piece_length >= len` and `(k - 1) * piece_length < len`.
proof fn lemma_chunk_count(len: int, piece_length: int, k: int)
    requires
        piece_length >= 1,
        len >= 0,
        k >= 0,
        k * piece_length >= len,
        k >= 1 ==> (k - 1) * piece_length < len,
        k == 0 ==> len == 0,
    ensures
        k == (len + piece_length - 1) / piece_length,
{
    if k == 0 {
        assert((0 + piece_length - 1) / piece_length == 0) by (nonlinear_arith)
            requires
                piece_length >= 1,
        ;
    } else {
        assert(k == (len + piece_length - 1) / piece_length) by (nonlinear_arith)
            requires
                piece_length >= 1,
                len >= 1 || len > (k - 1) * piece_length,
                k >= 1,
                k * piece_length >= len,
                (k - 1) * piece_length < len,
        ;
    }
}

/// Assembles a torrent from in-memory data: `files` is the file list for a
/// multi-file torrent (its declared lengths must sum to the data's length)
/// or nothing for a single-file torrent. Succeeds exactly when the
/// resulting metainfo is well formed, which is owed whenever the piece
/// length is positive and fits 32 bits and the declared lengths match the
/// data.
pub fn build_torrent(
    announce: Vec<u8>,
    name: Vec<u8>,
    files: Option<Vec<FileNode>>,
    data: &Vec<u8>,
    piece_length: usize,
) -> (r: Option<Torrent>)
    ensures
        (0 < piece_length <= u32::MAX && (match files {
            None => data@.len() <= i64::MAX,
            Some(fs) => {
                let fsv = fs@.map_values(|f: FileNode| f@);
                crate::torrent::spec_files_wf(fsv) && crate::torrent::spec_sum_lengths(fsv)
                    == data@.len() && data@.len() <= i64::MAX
            },
        })) ==> r is Some,
        r matches Some(t) ==> {
            &&& spec_info_wf(t.info@)
            &&& t.announce@ == announce@
            &&& t.announce_list is None
            &&& t.info@.name == name@
            &&& t.info@.piece_length == piece_length
            &&& t.info@.files == (match files {
                Some(fs) => Some(fs@.map_values(|f: FileNode| f@)),
                None => None::<Seq<FileNodeView>>,
            })
            &&& t.info@.length == (match files {
                Some(_) => None::<i64>,
                None => Some(data@.len() as i64),
            })
            &&& spec_num_pieces(t.info@) == (data@.len() + piece_length - 1) / (
            piece_length as int)
            &&& t.info@.pieces.len() == 20 * spec_num_pieces(t.info@)
            &&& (forall|k: int|
                0 <= k < spec_num_pieces(t.info@) ==> t.info@.pieces.subrange(20 * k, 20 * k + 20)
                    == sha1_of(
                    data@.subrange(
                        k * piece_length,
                        spec_chunk_end(data@.len() as int, piece_length as int, k),
                    ),
                ))
        },
{
    if piece_length == 0 {
        return None;
    }
    let pieces = build_pieces(data.as_slice(), piece_length);
    let info = match files {
        Some(fs) => Info { name, piece_length, pieces, length: None, files: Some(fs) },
        None => {
            if data.len() as u64 > i64::MAX as u64 {
                return None;
            }
            Info {
                name,
                piece_length,
                pieces,
                length: Some(data.len() as i64),
                files: None,
            }
        }
    };
    if !check_info_wf(&info) {
        return None;
    }
    Some(Torrent { announce, announce_list: None, info })
}

} // verus!
