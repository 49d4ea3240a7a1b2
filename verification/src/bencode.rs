//! Bencode: the metainfo file format. The encoder is specified byte for
//! byte; `Torrent::load` parses a .torrent file, validates the metainfo
//! invariants, and accepts only inputs whose info dictionary re-encodes to
//! exactly the bytes it was read from, so that the info-hash computed from
//! the re-encoding equals the hash of the original info segment.

use vstd::prelude::*;

use crate::bytes::{eq_bytes, push_bytes};
use crate::sha::{sha1_digest, sha1_of};
use crate::torrent::{
    check_info_wf, spec_info_wf, FileNode, FileNodeView, Info, InfoView, Torrent, TorrentView,
};

verus! {

/// The decimal digits of a non-negative integer, most significant first.
pub open spec fn spec_dec(n: int) -> Seq<u8>
    recommends
        n >= 0,
    decreases n,
{
    if n < 10 {
        seq![(48 + n) as u8]
    } else {
        spec_dec(n / 10).push((48 + n % 10) as u8)
    }
}

/// A bencoded integer: `i<decimal>e`, with `-` for negative values.
pub open spec fn spec_encode_int(v: int) -> Seq<u8> {
    if v >= 0 {
        seq![105u8] + spec_dec(v) + seq![101u8]
    } else {
        seq![105u8, 45u8] + spec_dec(-v) + seq![101u8]
    }
}

/// A bencoded byte string: `<decimal length>:<bytes>`.
pub open spec fn spec_encode_bytes(b: Seq<u8>) -> Seq<u8> {
    spec_dec(b.len() as int) + seq![58u8] + b
}

/// The bytes of the key `length`.
pub open spec fn spec_key_length() -> Seq<u8> {
    seq![108u8, 101u8, 110u8, 103u8, 116u8, 104u8]
}

/// The bytes of the key `path`.
pub open spec fn spec_key_path() -> Seq<u8> {
    seq![112u8, 97u8, 116u8, 104u8]
}

/// The bytes of the key `files`.
pub open spec fn spec_key_files() -> Seq<u8> {
    seq![102u8, 105u8, 108u8, 101u8, 115u8]
}

/// The bytes of the key `name`.
pub open spec fn spec_key_name() -> Seq<u8> {
    seq![110u8, 97u8, 109u8, 101u8]
}

/// The bytes of the key `piece length` (with the space).
pub open spec fn spec_key_piece_length() -> Seq<u8> {
    seq![112u8, 105u8, 101u8, 99u8, 101u8, 32u8, 108u8, 101u8, 110u8, 103u8, 116u8, 104u8]
}

/// The bytes of the key `pieces`.
pub open spec fn spec_key_pieces() -> Seq<u8> {
    seq![112u8, 105u8, 101u8, 99u8, 101u8, 115u8]
}

/// The bytes of the key `announce`.
pub open spec fn spec_key_announce() -> Seq<u8> {
    seq![97u8, 110u8, 110u8, 111u8, 117u8, 110u8, 99u8, 101u8]
}

/// The bytes of the key `announce-list`.
pub open spec fn spec_key_announce_list() -> Seq<u8> {
    seq![97u8, 110u8, 110u8, 111u8, 117u8, 110u8, 99u8, 101u8, 45u8, 108u8, 105u8, 115u8, 116u8]
}

/// The bytes of the key `info`.
pub open spec fn spec_key_info() -> Seq<u8> {
    seq![105u8, 110u8, 102u8, 111u8]
}

/// The items of a bencoded list of byte strings, concatenated.
pub open spec fn spec_encode_bytes_items(items: Seq<Seq<u8>>) -> Seq<u8>
    decreases items.len(),
{
    if items.len() == 0 {
        Seq::<u8>::empty()
    } else {
        spec_encode_bytes(items[0]) + spec_encode_bytes_items(items.skip(1))
    }
}

/// One file entry of the `files` list:
/// `d 6:length i<len>e 4:path l <components> e e`.
pub open spec fn spec_encode_file(f: FileNodeView) -> Seq<u8> {
    seq![100u8] + spec_encode_bytes(spec_key_length()) + spec_encode_int(f.length as int)
        + spec_encode_bytes(spec_key_path()) + seq![108u8] + spec_encode_bytes_items(f.path)
        + seq![101u8] + seq![101u8]
}

/// The items of the `files` list, concatenated.
pub open spec fn spec_encode_file_items(fs: Seq<FileNodeView>) -> Seq<u8>
    decreases fs.len(),
{
    if fs.len() == 0 {
        Seq::<u8>::empty()
    } else {
        spec_encode_file(fs[0]) + spec_encode_file_items(fs.skip(1))
    }
}

/// The canonical bencoding of an info dictionary, keys in sorted order:
/// `files` (multi-file), `length` (single-file), `name`, `piece length`,
/// `pieces`.
pub open spec fn spec_encode_info(info: InfoView) -> Seq<u8> {
    seq![100u8] + (match info.files {
        Some(fs) => spec_encode_bytes(spec_key_files()) + seq![108u8] + spec_encode_file_items(fs)
            + seq![101u8],
        None => Seq::<u8>::empty(),
    }) + (match info.length {
        Some(l) => spec_encode_bytes(spec_key_length()) + spec_encode_int(l as int),
        None => Seq::<u8>::empty(),
    }) + spec_encode_bytes(spec_key_name()) + spec_encode_bytes(info.name) + spec_encode_bytes(
        spec_key_piece_length(),
    ) + spec_encode_int(info.piece_length as int) + spec_encode_bytes(spec_key_pieces())
        + spec_encode_bytes(info.pieces) + seq![101u8]
}

/// The items of one announce tier: a list of URL byte strings.
pub open spec fn spec_encode_tier_items(tiers: Seq<Seq<Seq<u8>>>) -> Seq<u8>
    decreases tiers.len(),
{
    if tiers.len() == 0 {
        Seq::<u8>::empty()
    } else {
        seq![108u8] + spec_encode_bytes_items(tiers[0]) + seq![101u8] + spec_encode_tier_items(
            tiers.skip(1),
        )
    }
}

/// The canonical bencoding of a whole torrent: `announce`, the optional
/// `announce-list`, then `info`, keys in sorted order.
pub open spec fn spec_encode_torrent(t: TorrentView) -> Seq<u8> {
    seq![100u8] + spec_encode_bytes(spec_key_announce()) + spec_encode_bytes(t.announce) + (
    match t.announce_list {
        Some(tiers) => spec_encode_bytes(spec_key_announce_list()) + seq![108u8]
            + spec_encode_tier_items(tiers) + seq![101u8],
        None => Seq::<u8>::empty(),
    }) + spec_encode_bytes(spec_key_info()) + spec_encode_info(t.info) + seq![101u8]
}

/// Appends the decimal digits of `n`.
pub(crate) fn push_dec(out: &mut Vec<u8>, n: u64)
    ensures
        final(out)@ == old(out)@ + spec_dec(n as int),
    decreases n,
{
    if n < 10 {
        out.push(48 + (n as u8));
        proof {
            assert(out@ =~= old(out)@ + spec_dec(n as int));
        }
    } else {
        push_dec(out, n / 10);
        out.push(48 + ((n % 10) as u8));
        proof {
            assert(out@ =~= old(out)@ + spec_dec(n as int));
        }
    }
}

/// Appends a bencoded integer.
fn push_int(out: &mut Vec<u8>, v: i64)
    ensures
        final(out)@ == old(out)@ + spec_encode_int(v as int),
{
    out.push(105);
    if v >= 0 {
        push_dec(out, v as u64);
    } else {
        out.push(45);
        let m: u64 = if v == i64::MIN {
            9223372036854775808u64
        } else {
            (-v) as u64
        };
        push_dec(out, m);
    }
    out.push(101);
    proof {
        assert(out@ =~= old(out)@ + spec_encode_int(v as int));
    }
}

/// Appends a bencoded byte string.
fn push_bytes_val(out: &mut Vec<u8>, b: &[u8])
    ensures
        final(out)@ == old(out)@ + spec_encode_bytes(b@),
{
    push_dec(out, b.len() as u64);
    out.push(58);
    push_bytes(out, b);
    proof {
        assert(out@ =~= old(out)@ + spec_encode_bytes(b@));
    }
}

/// Appends the canonical bencoding of an info dictionary.
#[verifier::rlimit(100)]
pub fn encode_info(info: &Info) -> (r: Vec<u8>)
    ensures
        r@ == spec_encode_info(info@),
{
    let mut out: Vec<u8> = Vec::new();
    out.push(100);
    match &info.files {
        Some(files) => {
            let ghost fsv = info@.files->Some_0;
            let mut key: Vec<u8> = Vec::new();
            key.push(102);
            key.push(105);
            key.push(108);
            key.push(101);
            key.push(115);
            proof {
                assert(key@ =~= spec_key_files());
            }
            push_bytes_val(&mut out, key.as_slice());
            out.push(108);
            let ghost base = out@;
            let mut i: usize = 0;
            proof {
                assert(fsv.skip(0) =~= fsv);
            }
            while i < files.len()
                invariant
                    fsv == files@.map_values(|f: FileNode| f@),
                    i <= fsv.len(),
                    base + spec_encode_file_items(fsv) == out@ + spec_encode_file_items(
                        fsv.skip(i as int),
                    ),
                decreases fsv.len() - i,
            {
                proof {
                    assert(fsv.skip(i as int)[0] == fsv[i as int]);
                    assert(fsv.skip(i as int).skip(1) =~= fsv.skip(i as int + 1));
                }
                let f = &files[i];
                push_file_entry(&mut out, f);
                proof {
                    assert(fsv[i as int] == f@);
                    assert(out@ + spec_encode_file_items(fsv.skip(i as int + 1)) =~= base
                        + spec_encode_file_items(fsv));
                }
                i = i + 1;
            }
            proof {
                assert(spec_encode_file_items(fsv.skip(fsv.len() as int)) =~= Seq::<u8>::empty());
                assert(out@ + Seq::<u8>::empty() =~= out@);
            }
            out.push(101);
        }
        None => {}
    }
    match &info.length {
        Some(l) => {
            let mut key: Vec<u8> = Vec::new();
            key.push(108);
            key.push(101);
            key.push(110);
            key.push(103);
            key.push(116);
            key.push(104);
            proof {
                assert(key@ =~= spec_key_length());
            }
            push_bytes_val(&mut out, key.as_slice());
            push_int(&mut out, *l);
        }
        None => {}
    }
    let mut key_name: Vec<u8> = Vec::new();
    key_name.push(110);
    key_name.push(97);
    key_name.push(109);
    key_name.push(101);
    proof {
        assert(key_name@ =~= spec_key_name());
    }
    push_bytes_val(&mut out, key_name.as_slice());
    push_bytes_val(&mut out, info.name.as_slice());
    let mut key_pl: Vec<u8> = Vec::new();
    key_pl.push(112);
    key_pl.push(105);
    key_pl.push(101);
    key_pl.push(99);
    key_pl.push(101);
    key_pl.push(32);
    key_pl.push(108);
    key_pl.push(101);
    key_pl.push(110);
    key_pl.push(103);
    key_pl.push(116);
    key_pl.push(104);
    proof {
        assert(key_pl@ =~= spec_key_piece_length());
    }
    push_bytes_val(&mut out, key_pl.as_slice());
    push_int_usize(&mut out, info.piece_length);
    let mut key_ps: Vec<u8> = Vec::new();
    key_ps.push(112);
    key_ps.push(105);
    key_ps.push(101);
    key_ps.push(99);
    key_ps.push(101);
    key_ps.push(115);
    proof {
        assert(key_ps@ =~= spec_key_pieces());
    }
    push_bytes_val(&mut out, key_ps.as_slice());
    push_bytes_val(&mut out, info.pieces.as_slice());
    out.push(101);
    proof {
        assert(out@ =~= spec_encode_info(info@));
    }
    out
}

/// Appends a bencoded non-negative integer from a `usize`.
fn push_int_usize(out: &mut Vec<u8>, v: usize)
    ensures
        final(out)@ == old(out)@ + spec_encode_int(v as int),
{
    out.push(105);
    push_dec(out, v as u64);
    out.push(101);
    proof {
        assert(out@ =~= old(out)@ + spec_encode_int(v as int));
    }
}

/// Appends one entry of the `files` list.
fn push_file_entry(out: &mut Vec<u8>, f: &FileNode)
    ensures
        final(out)@ == old(out)@ + spec_encode_file(f@),
{
    out.push(100);
    let mut key: Vec<u8> = Vec::new();
    key.push(108);
    key.push(101);
    key.push(110);
    key.push(103);
    key.push(116);
    key.push(104);
    proof {
        assert(key@ =~= spec_key_length());
    }
    push_bytes_val(out, key.as_slice());
    push_int(out, f.length);
    let mut key_path: Vec<u8> = Vec::new();
    key_path.push(112);
    key_path.push(97);
    key_path.push(116);
    key_path.push(104);
    proof {
        assert(key_path@ =~= spec_key_path());
    }
    push_bytes_val(out, key_path.as_slice());
    out.push(108);
    let ghost pv = f.path.deep_view();
    let ghost base = out@;
    let mut i: usize = 0;
    proof {
        assert(pv.skip(0) =~= pv);
    }
    while i < f.path.len()
        invariant
            pv == f.path.deep_view(),
            i <= pv.len(),
            base + spec_encode_bytes_items(pv) == out@ + spec_encode_bytes_items(
                pv.skip(i as int),
            ),
        decreases pv.len() - i,
    {
        proof {
            assert(pv.skip(i as int)[0] == pv[i as int]);
            assert(pv.skip(i as int).skip(1) =~= pv.skip(i as int + 1));
            assert(pv[i as int] =~= f.path@[i as int]@);
        }
        push_bytes_val(out, f.path[i].as_slice());
        proof {
            assert(out@ + spec_encode_bytes_items(pv.skip(i as int + 1)) =~= base
                + spec_encode_bytes_items(pv));
        }
        i = i + 1;
    }
    proof {
        assert(spec_encode_bytes_items(pv.skip(pv.len() as int)) =~= Seq::<u8>::empty());
        assert(out@ + Seq::<u8>::empty() =~= out@);
    }
    out.push(101);
    out.push(101);
    proof {
        assert(out@ =~= old(out)@ + spec_encode_file(f@));
    }
}

/// The canonical bencoding of a whole torrent, for writing a .torrent
/// file.
#[verifier::rlimit(100)]
pub fn encode_torrent(t: &Torrent) -> (r: Vec<u8>)
    ensures
        r@ == spec_encode_torrent(t@),
{
    let mut out: Vec<u8> = Vec::new();
    out.push(100);
    let k_announce = key_announce();
    push_bytes_val(&mut out, k_announce.as_slice());
    push_bytes_val(&mut out, t.announce.as_slice());
    match &t.announce_list {
        Some(tiers) => {
            let ghost tv = tiers.deep_view();
            let k_announce_list = key_announce_list();
            push_bytes_val(&mut out, k_announce_list.as_slice());
            out.push(108);
            let ghost base = out@;
            let mut i: usize = 0;
            proof {
                assert(tv.skip(0) =~= tv);
            }
            while i < tiers.len()
                invariant
                    tv == tiers.deep_view(),
                    i <= tv.len(),
                    tv.len() == tiers@.len(),
                    base + spec_encode_tier_items(tv) == out@ + spec_encode_tier_items(
                        tv.skip(i as int),
                    ),
                decreases tv.len() - i,
            {
                proof {
                    assert(tv.skip(i as int)[0] == tv[i as int]);
                    assert(tv.skip(i as int).skip(1) =~= tv.skip(i as int + 1));
                }
                let tier = &tiers[i];
                out.push(108);
                let ghost tierv = tv[i as int];
                let ghost base2 = out@;
                let mut j: usize = 0;
                proof {
                    assert(tierv.skip(0) =~= tierv);
                }
                while j < tier.len()
                    invariant
                        tier == tiers@[i as int],
                        i < tiers@.len(),
                        tv == tiers.deep_view(),
                        tierv == tv[i as int],
                        tierv.len() == tier@.len(),
                        j <= tierv.len(),
                        base2 + spec_encode_bytes_items(tierv) == out@ + spec_encode_bytes_items(
                            tierv.skip(j as int),
                        ),
                    decreases tierv.len() - j,
                {
                    proof {
                        assert(tierv.skip(j as int)[0] == tierv[j as int]);
                        assert(tierv.skip(j as int).skip(1) =~= tierv.skip(j as int + 1));
                        assert(tierv[j as int] =~= tier@[j as int]@);
                    }
                    push_bytes_val(&mut out, tier[j].as_slice());
                    proof {
                        assert(out@ + spec_encode_bytes_items(tierv.skip(j as int + 1)) =~= base2
                            + spec_encode_bytes_items(tierv));
                    }
                    j = j + 1;
                }
                proof {
                    assert(spec_encode_bytes_items(tierv.skip(tierv.len() as int))
                        =~= Seq::<u8>::empty());
                    assert(out@ + Seq::<u8>::empty() =~= out@);
                }
                out.push(101);
                proof {
                    assert(out@ + spec_encode_tier_items(tv.skip(i as int + 1)) =~= base
                        + spec_encode_tier_items(tv));
                }
                i = i + 1;
            }
            proof {
                assert(spec_encode_tier_items(tv.skip(tv.len() as int)) =~= Seq::<u8>::empty());
                assert(out@ + Seq::<u8>::empty() =~= out@);
            }
            out.push(101);
        }
        None => {}
    }
    let k_info = key_info();
    push_bytes_val(&mut out, k_info.as_slice());
    let enc_info = encode_info(&t.info);
    push_bytes(&mut out, enc_info.as_slice());
    out.push(101);
    proof {
        assert(out@ =~= spec_encode_torrent(t@));
    }
    out
}

/// Why a metainfo file was rejected.
#[derive(Debug, PartialEq, Eq, Structural, Clone, Copy)]
pub enum BencodeError {
    /// The input is not syntactically valid bencode of the expected shape.
    Syntax,
    /// A length or integer in the input does not fit its machine type.
    Overflow,
    /// A required key is missing, or a metainfo invariant does not hold.
    BadMetainfo,
    /// The info dictionary does not re-encode to its original bytes, so no
    /// faithful info-hash could be computed for it.
    NonCanonical,
}

/// The key `length` as a vector.
fn key_length() -> (r: Vec<u8>)
    ensures
        r@ == spec_key_length(),
{
    let mut k: Vec<u8> = Vec::new();
    k.push(108);
    k.push(101);
    k.push(110);
    k.push(103);
    k.push(116);
    k.push(104);
    proof {
        assert(k@ =~= spec_key_length());
    }
    k
}

/// The key `path` as a vector.
fn key_path() -> (r: Vec<u8>)
    ensures
        r@ == spec_key_path(),
{
    let mut k: Vec<u8> = Vec::new();
    k.push(112);
    k.push(97);
    k.push(116);
    k.push(104);
    proof {
        assert(k@ =~= spec_key_path());
    }
    k
}

/// The key `files` as a vector.
fn key_files() -> (r: Vec<u8>)
    ensures
        r@ == spec_key_files(),
{
    let mut k: Vec<u8> = Vec::new();
    k.push(102);
    k.push(105);
    k.push(108);
    k.push(101);
    k.push(115);
    proof {
        assert(k@ =~= spec_key_files());
    }
    k
}

/// The key `name` as a vector.
fn key_name() -> (r: Vec<u8>)
    ensures
        r@ == spec_key_name(),
{
    let mut k: Vec<u8> = Vec::new();
    k.push(110);
    k.push(97);
    k.push(109);
    k.push(101);
    proof {
        assert(k@ =~= spec_key_name());
    }
    k
}

/// The key `piece length` as a vector.
fn key_piece_length() -> (r: Vec<u8>)
    ensures
        r@ == spec_key_piece_length(),
{
    let mut k: Vec<u8> = Vec::new();
    k.push(112);
    k.push(105);
    k.push(101);
    k.push(99);
    k.push(101);
    k.push(32);
    k.push(108);
    k.push(101);
    k.push(110);
    k.push(103);
    k.push(116);
    k.push(104);
    proof {
        assert(k@ =~= spec_key_piece_length());
    }
    k
}

/// The key `pieces` as a vector.
fn key_pieces() -> (r: Vec<u8>)
    ensures
        r@ == spec_key_pieces(),
{
    let mut k: Vec<u8> = Vec::new();
    k.push(112);
    k.push(105);
    k.push(101);
    k.push(99);
    k.push(101);
    k.push(115);
    proof {
        assert(k@ =~= spec_key_pieces());
    }
    k
}

/// The key `announce` as a vector.
fn key_announce() -> (r: Vec<u8>)
    ensures
        r@ == spec_key_announce(),
{
    let mut k: Vec<u8> = Vec::new();
    k.push(97);
    k.push(110);
    k.push(110);
    k.push(111);
    k.push(117);
    k.push(110);
    k.push(99);
    k.push(101);
    proof {
        assert(k@ =~= spec_key_announce());
    }
    k
}

/// The key `announce-list` as a vector.
fn key_announce_list() -> (r: Vec<u8>)
    ensures
        r@ == spec_key_announce_list(),
{
    let mut k: Vec<u8> = Vec::new();
    k.push(97);
    k.push(110);
    k.push(110);
    k.push(111);
    k.push(117);
    k.push(110);
    k.push(99);
    k.push(101);
    k.push(45);
    k.push(108);
    k.push(105);
    k.push(115);
    k.push(116);
    proof {
        assert(k@ =~= spec_key_announce_list());
    }
    k
}

/// The key `info` as a vector.
fn key_info() -> (r: Vec<u8>)
    ensures
        r@ == spec_key_info(),
{
    let mut k: Vec<u8> = Vec::new();
    k.push(105);
    k.push(110);
    k.push(102);
    k.push(111);
    proof {
        assert(k@ =~= spec_key_info());
    }
    k
}

/// The integer a run of ASCII digits denotes, most significant first.
pub open spec fn spec_digits_val(s: Seq<u8>) -> int
    decreases s.len(),
{
    if s.len() == 0 {
        0
    } else {
        spec_digits_val(s.take(s.len() - 1)) * 10 + (s[s.len() - 1] - 48)
    }
}

/// Every byte of `s` is an ASCII digit.
pub open spec fn spec_all_digits(s: Seq<u8>) -> bool {
    forall|k: int| 0 <= k < s.len() ==> 48 <= #[trigger] s[k] <= 57
}

/// Law (decimal round trip): reading back the decimal digits the encoder
/// produces for `n` yields `n` again.
pub proof fn lemma_dec_round_trip(n: int)
    requires
        n >= 0,
    ensures
        spec_all_digits(spec_dec(n)),
        spec_digits_val(spec_dec(n)) == n,
        spec_dec(n).len() >= 1,
    decreases n,
{
    if n < 10 {
        let s = spec_dec(n);
        assert(s.take(s.len() - 1) =~= Seq::<u8>::empty());
        assert(s[s.len() - 1] == (48 + n) as u8);
        assert(spec_digits_val(s.take(s.len() - 1)) == 0);
        assert(spec_digits_val(s) == 0 * 10 + ((48 + n) as u8 - 48));
    } else {
        lemma_dec_round_trip(n / 10);
        let s = spec_dec(n);
        assert(s == spec_dec(n / 10).push((48 + n % 10) as u8));
        assert(s.take(s.len() - 1) =~= spec_dec(n / 10));
        assert(s[s.len() - 1] == (48 + n % 10) as u8);
        assert(spec_digits_val(s) == (n / 10) * 10 + ((48 + n % 10) as u8 - 48));
        assert(n / 10 * 10 + n % 10 == n) by (nonlinear_arith);
    }
}

/// The value of a digit run is non-negative.
proof fn lemma_digits_val_nonneg(s: Seq<u8>)
    requires
        spec_all_digits(s),
    ensures
        spec_digits_val(s) >= 0,
    decreases s.len(),
{
    if s.len() > 0 {
        assert(forall|k: int| 0 <= k < s.len() - 1 ==> s.take(s.len() - 1)[k] == s[k]);
        lemma_digits_val_nonneg(s.take(s.len() - 1));
    }
}

/// A digit run's value only grows as digits are appended.
proof fn lemma_digits_val_prefix(s: Seq<u8>, m: int)
    requires
        spec_all_digits(s),
        0 <= m <= s.len(),
    ensures
        spec_digits_val(s.take(m)) <= spec_digits_val(s),
    decreases s.len() - m,
{
    if m == s.len() {
        assert(s.take(m) =~= s);
    } else {
        lemma_digits_val_prefix(s, m + 1);
        let t = s.take(m + 1);
        assert(t.take(t.len() - 1) =~= s.take(m));
        assert(forall|k: int| 0 <= k < m ==> s.take(m)[k] == s[k]);
        lemma_digits_val_nonneg(s.take(m));
        assert(t[t.len() - 1] == s[m]);
        assert(spec_digits_val(t) == spec_digits_val(s.take(m)) * 10 + (s[m] - 48));
    }
}

/// A non-empty digit run ends at the terminator `stop` at index `j`.
pub open spec fn spec_digit_run_at(bytes: Seq<u8>, pos: int, stop: u8, j: int) -> bool {
    &&& 0 <= pos < j < bytes.len()
    &&& bytes[j] == stop
    &&& spec_all_digits(bytes.subrange(pos, j))
}

/// For a non-digit terminator, at most one digit run starts at `pos`.
proof fn lemma_digit_run_unique(bytes: Seq<u8>, pos: int, stop: u8, j1: int, j2: int)
    requires
        !(48 <= stop <= 57),
        spec_digit_run_at(bytes, pos, stop, j1),
        spec_digit_run_at(bytes, pos, stop, j2),
    ensures
        j1 == j2,
{
    if j1 < j2 {
        assert(bytes.subrange(pos, j2)[j1 - pos] == bytes[j1]);
    } else if j2 < j1 {
        assert(bytes.subrange(pos, j1)[j2 - pos] == bytes[j2]);
    }
}

/// Parses the decimal digits at `pos`, up to the (non-digit) terminator
/// `stop`; rejects an empty digit run and values that do not fit a `u64`.
/// On success the bytes consumed before the terminator are exactly a digit
/// run denoting the returned value; on failure no digit run with a value
/// that fits stands at `pos` at all.
pub(crate) fn parse_digits(bytes: &[u8], pos: usize, stop: u8) -> (r: Result<(u64, usize), BencodeError>)
    requires
        pos <= bytes@.len(),
        !(48 <= stop <= 57),
    ensures
        r matches Ok(p) ==> pos < p.1 <= bytes@.len() && pos < p.1 - 1
            && bytes@[p.1 - 1] == stop && spec_all_digits(bytes@.subrange(pos as int, p.1 - 1))
            && p.0 == spec_digits_val(bytes@.subrange(pos as int, p.1 - 1)),
        r is Err ==> forall|j: int|
            spec_digit_run_at(bytes@, pos as int, stop, j) ==> spec_digits_val(
                bytes@.subrange(pos as int, j),
            ) > u64::MAX,
{
    let n = bytes.len();
    let mut i = pos;
    let mut acc: u64 = 0;
    let mut seen = false;
    proof {
        assert(bytes@.subrange(pos as int, pos as int) =~= Seq::<u8>::empty());
    }
    while i < n
        invariant
            n == bytes@.len(),
            !(48 <= stop <= 57),
            pos <= i <= n,
            seen ==> i > pos,
            !seen ==> i == pos,
            spec_all_digits(bytes@.subrange(pos as int, i as int)),
            acc == spec_digits_val(bytes@.subrange(pos as int, i as int)),
        decreases n - i,
    {
        let c = bytes[i];
        if c == stop {
            if !seen {
                proof {
                    assert forall|j: int|
                        spec_digit_run_at(bytes@, pos as int, stop, j) implies false by {
                        assert(bytes@.subrange(pos as int, j)[0] == bytes@[pos as int]);
                    }
                }
                return Err(BencodeError::Syntax);
            }
            return Ok((acc, i + 1));
        }
        if c < 48 || c > 57 {
            proof {
                assert forall|j: int|
                    spec_digit_run_at(bytes@, pos as int, stop, j) implies false by {
                    if j < i {
                        assert(bytes@.subrange(pos as int, i as int)[j - pos] == bytes@[j]);
                    } else if j > i {
                        assert(bytes@.subrange(pos as int, j)[i - pos] == bytes@[i as int]);
                    }
                }
            }
            return Err(BencodeError::Syntax);
        }
        let d = (c - 48) as u64;
        if acc > (u64::MAX - d) / 10 {
            proof {
                assert(acc * 10 + d > u64::MAX) by (nonlinear_arith)
                    requires
                        acc > (u64::MAX - d) / 10,
                        0 <= d <= 9,
                ;
                let pre1 = bytes@.subrange(pos as int, i as int + 1);
                assert(pre1.take(pre1.len() - 1) =~= bytes@.subrange(pos as int, i as int));
                assert(pre1[pre1.len() - 1] == bytes@[i as int]);
                assert(spec_digits_val(pre1) == acc * 10 + (c - 48));
                assert forall|j: int|
                    spec_digit_run_at(bytes@, pos as int, stop, j) implies spec_digits_val(
                    bytes@.subrange(pos as int, j),
                ) > u64::MAX by {
                    if j < i {
                        assert(bytes@.subrange(pos as int, i as int)[j - pos] == bytes@[j]);
                    } else if j == i {
                        assert(bytes@.subrange(pos as int, j) =~= bytes@.subrange(
                            pos as int,
                            i as int,
                        ));
                        assert(bytes@[i as int] == stop);
                    } else {
                        let run = bytes@.subrange(pos as int, j);
                        assert(run.take(i + 1 - pos) =~= pre1);
                        lemma_digits_val_prefix(run, i + 1 - pos);
                    }
                }
            }
            return Err(BencodeError::Overflow);
        }
        proof {
            let pre = bytes@.subrange(pos as int, i as int);
            let ext = bytes@.subrange(pos as int, i as int + 1);
            assert(ext.take(ext.len() - 1) =~= pre);
            assert(ext[ext.len() - 1] == bytes@[i as int]);
            assert(acc * 10 + d <= u64::MAX) by (nonlinear_arith)
                requires
                    acc <= (u64::MAX - d) / 10,
                    0 <= d <= 9,
            ;
        }
        acc = acc * 10 + d;
        seen = true;
        i = i + 1;
    }
    proof {
        assert forall|j: int|
            spec_digit_run_at(bytes@, pos as int, stop, j) implies false by {
            assert(bytes@.subrange(pos as int, i as int)[j - pos] == bytes@[j]);
        }
    }
    Err(BencodeError::Syntax)
}

/// A byte string `<len>:<bytes>` stands at `[pos, end)`: a digit run
/// denoting the content length, a colon, then exactly that many bytes,
/// which are `content`.
pub open spec fn spec_string_at(bytes: Seq<u8>, pos: int, end: int, content: Seq<u8>) -> bool {
    exists|d: int|
        pos < d < end && spec_all_digits(#[trigger] bytes.subrange(pos, d)) && bytes[d] == 58
            && content == bytes.subrange(d + 1, end) && content.len() == spec_digits_val(
            bytes.subrange(pos, d),
        )
}


/// The exact layout of an encoded byte string at `pos` of `bytes`.
proof fn lemma_string_encoding_shape(bytes: Seq<u8>, pos: int, s: Seq<u8>)
    requires
        0 <= pos,
        pos + spec_encode_bytes(s).len() <= bytes.len(),
        bytes.subrange(pos, pos + spec_encode_bytes(s).len() as int) == spec_encode_bytes(s),
    ensures
        ({
            let m = spec_dec(s.len() as int).len() as int;
            &&& spec_encode_bytes(s).len() == m + 1 + s.len()
            &&& m >= 1
            &&& spec_digit_run_at(bytes, pos, 58u8, pos + m)
            &&& spec_digits_val(bytes.subrange(pos, pos + m)) == s.len()
            &&& bytes.subrange(pos + m + 1, pos + spec_encode_bytes(s).len() as int) == s
        }),
{
    lemma_dec_round_trip(s.len() as int);
    let e = spec_encode_bytes(s);
    let d = spec_dec(s.len() as int);
    let m = d.len() as int;
    assert(e == d + seq![58u8] + s);
    assert(e.len() == m + 1 + s.len());
    assert(bytes.subrange(pos, pos + m) =~= d) by {
        assert forall|t: int| 0 <= t < m implies bytes.subrange(pos, pos + m)[t] == d[t] by {
            assert(bytes.subrange(pos, pos + m)[t] == bytes[pos + t]);
            assert(bytes.subrange(pos, pos + e.len() as int)[t] == bytes[pos + t]);
            assert(e[t] == d[t]);
        }
    }
    assert(bytes[pos + m] == 58) by {
        assert(bytes.subrange(pos, pos + e.len() as int)[m] == bytes[pos + m]);
        assert(e[m] == 58);
    }
    assert(bytes.subrange(pos + m + 1, pos + e.len() as int) =~= s) by {
        assert forall|t: int|
            0 <= t < s.len() implies bytes.subrange(pos + m + 1, pos + e.len() as int)[t]
                == s[t] by {
            assert(bytes.subrange(pos + m + 1, pos + e.len() as int)[t] == bytes[pos + m + 1 + t]);
            assert(bytes.subrange(pos, pos + e.len() as int)[m + 1 + t] == bytes[pos + m + 1 + t]);
            assert(e[m + 1 + t] == s[t]);
        }
    }
    assert(spec_digit_run_at(bytes, pos, 58u8, pos + m));
}

/// The exact layout of an encoded integer at `pos` of `bytes`.
proof fn lemma_int_encoding_shape(bytes: Seq<u8>, pos: int, v: int)
    requires
        0 <= pos,
        pos + spec_encode_int(v).len() <= bytes.len(),
        bytes.subrange(pos, pos + spec_encode_int(v).len() as int) == spec_encode_int(v),
    ensures
        bytes[pos] == 105,
        pos + 1 < bytes.len(),
        v >= 0 ==> ({
            let m = spec_dec(v).len() as int;
            &&& spec_encode_int(v).len() == m + 2
            &&& bytes[pos + 1] != 45
            &&& spec_digit_run_at(bytes, pos + 1, 101u8, pos + 1 + m)
            &&& spec_digits_val(bytes.subrange(pos + 1, pos + 1 + m)) == v
        }),
        v < 0 ==> ({
            let m = spec_dec(-v).len() as int;
            &&& spec_encode_int(v).len() == m + 3
            &&& bytes[pos + 1] == 45
            &&& spec_digit_run_at(bytes, pos + 2, 101u8, pos + 2 + m)
            &&& spec_digits_val(bytes.subrange(pos + 2, pos + 2 + m)) == -v
        }),
{
    let e = spec_encode_int(v);
    if v >= 0 {
        lemma_dec_round_trip(v);
        let d = spec_dec(v);
        let m = d.len() as int;
        assert(e == seq![105u8] + d + seq![101u8]);
        assert(e.len() == m + 2);
        assert(bytes[pos] == 105) by {
            assert(bytes.subrange(pos, pos + e.len() as int)[0] == bytes[pos]);
            assert(e[0] == 105);
        }
        assert(bytes.subrange(pos + 1, pos + 1 + m) =~= d) by {
            assert forall|t: int|
                0 <= t < m implies bytes.subrange(pos + 1, pos + 1 + m)[t] == d[t] by {
                assert(bytes.subrange(pos + 1, pos + 1 + m)[t] == bytes[pos + 1 + t]);
                assert(bytes.subrange(pos, pos + e.len() as int)[1 + t] == bytes[pos + 1 + t]);
                assert(e[1 + t] == d[t]);
            }
        }
        assert(bytes[pos + 1 + m] == 101) by {
            assert(bytes.subrange(pos, pos + e.len() as int)[m + 1] == bytes[pos + 1 + m]);
            assert(e[m + 1] == 101);
        }
        assert(bytes[pos + 1] != 45) by {
            assert(bytes.subrange(pos + 1, pos + 1 + m)[0] == bytes[pos + 1]);
            assert(48 <= d[0] <= 57);
        }
        assert(spec_digit_run_at(bytes, pos + 1, 101u8, pos + 1 + m));
    } else {
        lemma_dec_round_trip(-v);
        let d = spec_dec(-v);
        let m = d.len() as int;
        assert(e == seq![105u8, 45u8] + d + seq![101u8]);
        assert(e.len() == m + 3);
        assert(bytes[pos] == 105 && bytes[pos + 1] == 45) by {
            assert(bytes.subrange(pos, pos + e.len() as int)[0] == bytes[pos]);
            assert(bytes.subrange(pos, pos + e.len() as int)[1] == bytes[pos + 1]);
            assert(e[0] == 105 && e[1] == 45);
        }
        assert(bytes.subrange(pos + 2, pos + 2 + m) =~= d) by {
            assert forall|t: int|
                0 <= t < m implies bytes.subrange(pos + 2, pos + 2 + m)[t] == d[t] by {
                assert(bytes.subrange(pos + 2, pos + 2 + m)[t] == bytes[pos + 2 + t]);
                assert(bytes.subrange(pos, pos + e.len() as int)[2 + t] == bytes[pos + 2 + t]);
                assert(e[2 + t] == d[t]);
            }
        }
        assert(bytes[pos + 2 + m] == 101) by {
            assert(bytes.subrange(pos, pos + e.len() as int)[m + 2] == bytes[pos + 2 + m]);
            assert(e[m + 2] == 101);
        }
        assert(spec_digit_run_at(bytes, pos + 2, 101u8, pos + 2 + m));
    }
}

/// Parses a byte string `<len>:<bytes>` at `pos`.
pub(crate) fn parse_string_val(bytes: &[u8], pos: usize) -> (r: Result<(Vec<u8>, usize), BencodeError>)
    requires
        pos <= bytes@.len(),
    ensures
        r matches Ok(p) ==> pos < p.1 <= bytes@.len() && spec_string_at(
            bytes@,
            pos as int,
            p.1 as int,
            p.0@,
        ),
        forall|s: Seq<u8>|
            #![trigger spec_encode_bytes(s)]
            (s.len() <= usize::MAX && pos + spec_encode_bytes(s).len() <= bytes@.len()
                && bytes@.subrange(pos as int, pos + spec_encode_bytes(s).len() as int)
                == spec_encode_bytes(s)) ==> (r matches Ok(p) && p.0@ == s && p.1 == pos
                + spec_encode_bytes(s).len()),
{
    let n = bytes.len();
    let (len64, p) = match parse_digits(bytes, pos, 58) {
        Ok(x) => x,
        Err(e) => {
            proof {
                assert forall|s: Seq<u8>|
                    s.len() <= usize::MAX && pos + spec_encode_bytes(s).len() <= bytes@.len()
                        && bytes@.subrange(pos as int, pos + spec_encode_bytes(s).len() as int)
                        == #[trigger] spec_encode_bytes(s) implies false by {
                    lemma_string_encoding_shape(bytes@, pos as int, s);
                    let m = spec_dec(s.len() as int).len() as int;
                    assert(spec_digit_run_at(bytes@, pos as int, 58u8, pos + m));
                    assert(spec_digits_val(bytes@.subrange(pos as int, pos + m)) > u64::MAX);
                }
            }
            return Err(e);
        }
    };
    if len64 > (n - p) as u64 {
        proof {
            assert forall|s: Seq<u8>|
                s.len() <= usize::MAX && pos + spec_encode_bytes(s).len() <= bytes@.len()
                    && bytes@.subrange(pos as int, pos + spec_encode_bytes(s).len() as int)
                    == #[trigger] spec_encode_bytes(s) implies false by {
                lemma_string_encoding_shape(bytes@, pos as int, s);
                let m = spec_dec(s.len() as int).len() as int;
                assert(spec_digit_run_at(bytes@, pos as int, 58u8, p - 1));
                lemma_digit_run_unique(bytes@, pos as int, 58u8, p - 1, pos + m);
                assert(len64 == s.len());
            }
        }
        return Err(BencodeError::Syntax);
    }
    let len = len64 as usize;
    let content = crate::bytes::bytes_range(bytes, p, p + len);
    proof {
        let d = p - 1;
        assert(pos < d < p + len && spec_all_digits(bytes@.subrange(pos as int, d as int))
            && bytes@[d as int] == 58 && content@ == bytes@.subrange(d + 1, p as int + len as int)
            && content@.len() == spec_digits_val(bytes@.subrange(pos as int, d as int)));
        assert(spec_string_at(bytes@, pos as int, p as int + len as int, content@));
        assert forall|s: Seq<u8>|
            s.len() <= usize::MAX && pos + spec_encode_bytes(s).len() <= bytes@.len()
                && bytes@.subrange(pos as int, pos + spec_encode_bytes(s).len() as int)
                == #[trigger] spec_encode_bytes(s) implies (content@ == s && p + len == pos
                + spec_encode_bytes(s).len()) by {
            lemma_string_encoding_shape(bytes@, pos as int, s);
            let m = spec_dec(s.len() as int).len() as int;
            assert(spec_digit_run_at(bytes@, pos as int, 58u8, p - 1));
            lemma_digit_run_unique(bytes@, pos as int, 58u8, p - 1, pos + m);
            assert(len64 == s.len());
            assert(len == s.len());
            assert(content@ =~= s);
        }
    }
    Ok((content, p + len))
}

/// An integer `i<decimal>e` (with an optional minus sign) stands at
/// `[pos, end)` and denotes `v`.
pub open spec fn spec_int_at(bytes: Seq<u8>, pos: int, end: int, v: int) -> bool {
    &&& pos < end <= bytes.len()
    &&& bytes[pos] == 105
    &&& bytes[end - 1] == 101
    &&& if v >= 0 {
        spec_all_digits(bytes.subrange(pos + 1, end - 1)) && v == spec_digits_val(
            bytes.subrange(pos + 1, end - 1),
        )
    } else {
        bytes[pos + 1] == 45 && spec_all_digits(bytes.subrange(pos + 2, end - 1)) && -v
            == spec_digits_val(bytes.subrange(pos + 2, end - 1))
    }
}

/// Parses an integer `i<decimal>e` at `pos`.
pub(crate) fn parse_int_val(bytes: &[u8], pos: usize) -> (r: Result<(i64, usize), BencodeError>)
    requires
        pos <= bytes@.len(),
    ensures
        r matches Ok(p) ==> pos < p.1 <= bytes@.len() && spec_int_at(
            bytes@,
            pos as int,
            p.1 as int,
            p.0 as int,
        ),
        forall|v: i64|
            #![trigger spec_encode_int(v as int)]
            (pos + spec_encode_int(v as int).len() <= bytes@.len() && bytes@.subrange(
                pos as int,
                pos + spec_encode_int(v as int).len() as int,
            ) == spec_encode_int(v as int)) ==> (r matches Ok(p) && p.0 == v && p.1 == pos
            + spec_encode_int(v as int).len()),
{
    let n = bytes.len();
    if pos >= n || bytes[pos] != 105 {
        proof {
            assert forall|v: i64|
                pos + spec_encode_int(v as int).len() <= bytes@.len() && bytes@.subrange(
                    pos as int,
                    pos + spec_encode_int(v as int).len() as int,
                ) == #[trigger] spec_encode_int(v as int) implies false by {
                lemma_int_encoding_shape(bytes@, pos as int, v as int);
            }
        }
        return Err(BencodeError::Syntax);
    }
    let mut p = pos + 1;
    let mut neg = false;
    if p < n && bytes[p] == 45 {
        neg = true;
        p = p + 1;
    }
    let (mag, p2) = match parse_digits(bytes, p, 101) {
        Ok(x) => x,
        Err(e) => {
            proof {
                assert forall|v: i64|
                    pos + spec_encode_int(v as int).len() <= bytes@.len() && bytes@.subrange(
                        pos as int,
                        pos + spec_encode_int(v as int).len() as int,
                    ) == #[trigger] spec_encode_int(v as int) implies false by {
                    lemma_int_encoding_shape(bytes@, pos as int, v as int);
                    if v >= 0 {
                        let m = spec_dec(v as int).len() as int;
                        assert(!neg && p == pos + 1);
                        assert(spec_digit_run_at(bytes@, p as int, 101u8, pos + 1 + m));
                        assert(spec_digits_val(bytes@.subrange(p as int, pos + 1 + m))
                            > u64::MAX);
                    } else {
                        let m = spec_dec(-(v as int)).len() as int;
                        assert(neg && p == pos + 2);
                        assert(spec_digit_run_at(bytes@, p as int, 101u8, pos + 2 + m));
                        assert(spec_digits_val(bytes@.subrange(p as int, pos + 2 + m))
                            > u64::MAX);
                        assert(-(v as int) <= 9223372036854775808);
                    }
                }
            }
            return Err(e);
        }
    };
    proof {
        assert forall|v: i64|
            pos + spec_encode_int(v as int).len() <= bytes@.len() && bytes@.subrange(
                pos as int,
                pos + spec_encode_int(v as int).len() as int,
            ) == #[trigger] spec_encode_int(v as int) implies (if v >= 0 {
                !neg && mag == v && p2 == pos + spec_encode_int(v as int).len()
            } else {
                neg && mag == -(v as int) && p2 == pos + spec_encode_int(v as int).len()
            }) by {
            lemma_int_encoding_shape(bytes@, pos as int, v as int);
            if v >= 0 {
                let m = spec_dec(v as int).len() as int;
                assert(!neg && p == pos + 1);
                assert(spec_digit_run_at(bytes@, p as int, 101u8, p2 - 1));
                lemma_digit_run_unique(bytes@, p as int, 101u8, p2 - 1, pos + 1 + m);
            } else {
                let m = spec_dec(-(v as int)).len() as int;
                assert(neg && p == pos + 2);
                assert(spec_digit_run_at(bytes@, p as int, 101u8, p2 - 1));
                lemma_digit_run_unique(bytes@, p as int, 101u8, p2 - 1, pos + 2 + m);
            }
        }
    }
    if neg {
        if mag == 0 {
            return Err(BencodeError::Syntax);
        }
        if mag > 9223372036854775808u64 {
            return Err(BencodeError::Overflow);
        }
        if mag == 9223372036854775808u64 {
            Ok((i64::MIN, p2))
        } else {
            Ok((0i64 - (mag as i64), p2))
        }
    } else {
        if mag > i64::MAX as u64 {
            return Err(BencodeError::Overflow);
        }
        Ok((mag as i64, p2))
    }
}

/// Skips one bencoded value of any shape at `pos`.
pub(crate) fn skip_value(bytes: &[u8], pos: usize) -> (r: Result<usize, BencodeError>)
    requires
        pos <= bytes@.len(),
    ensures
        r matches Ok(p2) ==> pos < p2 <= bytes@.len(),
    decreases bytes@.len() - pos,
{
    let n = bytes.len();
    if pos >= n {
        return Err(BencodeError::Syntax);
    }
    let c = bytes[pos];
    if c == 105 {
        let (_v, p2) = match parse_int_val(bytes, pos) {
            Ok(x) => x,
            Err(e) => {
                return Err(e);
            }
        };
        Ok(p2)
    } else if c >= 48 && c <= 57 {
        let (_s, p2) = match parse_string_val(bytes, pos) {
            Ok(x) => x,
            Err(e) => {
                return Err(e);
            }
        };
        Ok(p2)
    } else if c == 108 || c == 100 {
        let is_dict = c == 100;
        let mut p: usize = pos + 1;
        while p < n
            invariant
                n == bytes@.len(),
                pos < p <= n,
            decreases n - p,
        {
            if bytes[p] == 101 {
                return Ok(p + 1);
            }
            if is_dict {
                let (_k, pk) = match parse_string_val(bytes, p) {
                    Ok(x) => x,
                    Err(e) => {
                        return Err(e);
                    }
                };
                let p2 = match skip_value(bytes, pk) {
                    Ok(x) => x,
                    Err(e) => {
                        return Err(e);
                    }
                };
                p = p2;
            } else {
                let p2 = match skip_value(bytes, p) {
                    Ok(x) => x,
                    Err(e) => {
                        return Err(e);
                    }
                };
                p = p2;
            }
        }
        Err(BencodeError::Syntax)
    } else {
        Err(BencodeError::Syntax)
    }
}

/// Parses a list of byte strings `l <strings> e` at `pos`.
fn parse_string_list(bytes: &[u8], pos: usize) -> (r: Result<(Vec<Vec<u8>>, usize), BencodeError>)
    requires
        pos <= bytes@.len(),
    ensures
        r matches Ok(p) ==> pos < p.1 <= bytes@.len(),
{
    let n = bytes.len();
    if pos >= n || bytes[pos] != 108 {
        return Err(BencodeError::Syntax);
    }
    let mut items: Vec<Vec<u8>> = Vec::new();
    let mut p: usize = pos + 1;
    while p < n
        invariant
            n == bytes@.len(),
            pos < p <= n,
        decreases n - p,
    {
        if bytes[p] == 101 {
            return Ok((items, p + 1));
        }
        let (s, p2) = match parse_string_val(bytes, p) {
            Ok(x) => x,
            Err(e) => {
                return Err(e);
            }
        };
        items.push(s);
        p = p2;
    }
    Err(BencodeError::Syntax)
}

/// Parses the tiers of an `announce-list`: a list of lists of URLs.
fn parse_tiers(bytes: &[u8], pos: usize) -> (r: Result<(Vec<Vec<Vec<u8>>>, usize), BencodeError>)
    requires
        pos <= bytes@.len(),
    ensures
        r matches Ok(p) ==> pos < p.1 <= bytes@.len(),
{
    let n = bytes.len();
    if pos >= n || bytes[pos] != 108 {
        return Err(BencodeError::Syntax);
    }
    let mut tiers: Vec<Vec<Vec<u8>>> = Vec::new();
    let mut p: usize = pos + 1;
    while p < n
        invariant
            n == bytes@.len(),
            pos < p <= n,
        decreases n - p,
    {
        if bytes[p] == 101 {
            return Ok((tiers, p + 1));
        }
        let (tier, p2) = match parse_string_list(bytes, p) {
            Ok(x) => x,
            Err(e) => {
                return Err(e);
            }
        };
        tiers.push(tier);
        p = p2;
    }
    Err(BencodeError::Syntax)
}

/// Parses one entry of the `files` list: a dictionary with `length` and
/// `path`; unknown keys are skipped.
fn parse_file_entry(bytes: &[u8], pos: usize) -> (r: Result<(FileNode, usize), BencodeError>)
    requires
        pos <= bytes@.len(),
    ensures
        r matches Ok(p) ==> pos < p.1 <= bytes@.len(),
{
    let n = bytes.len();
    if pos >= n || bytes[pos] != 100 {
        return Err(BencodeError::Syntax);
    }
    let k_length = key_length();
    let k_path = key_path();
    let mut length: Option<i64> = None;
    let mut path: Option<Vec<Vec<u8>>> = None;
    let mut p: usize = pos + 1;
    while p < n
        invariant
            n == bytes@.len(),
            pos < p <= n,
        decreases n - p,
    {
        if bytes[p] == 101 {
            return match (length, path) {
                (Some(l), Some(pt)) => Ok((FileNode { length: l, path: pt }, p + 1)),
                _ => Err(BencodeError::BadMetainfo),
            };
        }
        let (key, pk) = match parse_string_val(bytes, p) {
            Ok(x) => x,
            Err(e) => {
                return Err(e);
            }
        };
        if eq_bytes(key.as_slice(), k_length.as_slice()) {
            let (v, p2) = match parse_int_val(bytes, pk) {
                Ok(x) => x,
                Err(e) => {
                    return Err(e);
                }
            };
            length = Some(v);
            p = p2;
        } else if eq_bytes(key.as_slice(), k_path.as_slice()) {
            let (pt, p2) = match parse_string_list(bytes, pk) {
                Ok(x) => x,
                Err(e) => {
                    return Err(e);
                }
            };
            path = Some(pt);
            p = p2;
        } else {
            let p2 = match skip_value(bytes, pk) {
                Ok(x) => x,
                Err(e) => {
                    return Err(e);
                }
            };
            p = p2;
        }
    }
    Err(BencodeError::Syntax)
}

/// Parses the `files` list: `l <file dictionaries> e`.
fn parse_files(bytes: &[u8], pos: usize) -> (r: Result<(Vec<FileNode>, usize), BencodeError>)
    requires
        pos <= bytes@.len(),
    ensures
        r matches Ok(p) ==> pos < p.1 <= bytes@.len(),
{
    let n = bytes.len();
    if pos >= n || bytes[pos] != 108 {
        return Err(BencodeError::Syntax);
    }
    let mut files: Vec<FileNode> = Vec::new();
    let mut p: usize = pos + 1;
    while p < n
        invariant
            n == bytes@.len(),
            pos < p <= n,
        decreases n - p,
    {
        if bytes[p] == 101 {
            return Ok((files, p + 1));
        }
        let (f, p2) = match parse_file_entry(bytes, p) {
            Ok(x) => x,
            Err(e) => {
                return Err(e);
            }
        };
        files.push(f);
        p = p2;
    }
    Err(BencodeError::Syntax)
}

/// Parses the info dictionary; unknown keys are skipped, but any skipped
/// key will later fail the canonical re-encoding check.
fn parse_info(bytes: &[u8], pos: usize) -> (r: Result<(Info, usize), BencodeError>)
    requires
        pos <= bytes@.len(),
    ensures
        r matches Ok(p) ==> pos < p.1 <= bytes@.len(),
{
    let n = bytes.len();
    if pos >= n || bytes[pos] != 100 {
        return Err(BencodeError::Syntax);
    }
    let k_files = key_files();
    let k_length = key_length();
    let k_name = key_name();
    let k_piece_length = key_piece_length();
    let k_pieces = key_pieces();
    let mut name: Option<Vec<u8>> = None;
    let mut piece_length: Option<usize> = None;
    let mut pieces: Option<Vec<u8>> = None;
    let mut length: Option<i64> = None;
    let mut files: Option<Vec<FileNode>> = None;
    let mut p: usize = pos + 1;
    while p < n
        invariant
            n == bytes@.len(),
            pos < p <= n,
        decreases n - p,
    {
        if bytes[p] == 101 {
            return match (name, piece_length, pieces) {
                (Some(nm), Some(pl), Some(ps)) => Ok(
                    (Info { name: nm, piece_length: pl, pieces: ps, length, files }, p + 1),
                ),
                _ => Err(BencodeError::BadMetainfo),
            };
        }
        let (key, pk) = match parse_string_val(bytes, p) {
            Ok(x) => x,
            Err(e) => {
                return Err(e);
            }
        };
        if eq_bytes(key.as_slice(), k_files.as_slice()) {
            let (fs, p2) = match parse_files(bytes, pk) {
                Ok(x) => x,
                Err(e) => {
                    return Err(e);
                }
            };
            files = Some(fs);
            p = p2;
        } else if eq_bytes(key.as_slice(), k_length.as_slice()) {
            let (v, p2) = match parse_int_val(bytes, pk) {
                Ok(x) => x,
                Err(e) => {
                    return Err(e);
                }
            };
            length = Some(v);
            p = p2;
        } else if eq_bytes(key.as_slice(), k_name.as_slice()) {
            let (v, p2) = match parse_string_val(bytes, pk) {
                Ok(x) => x,
                Err(e) => {
                    return Err(e);
                }
            };
            name = Some(v);
            p = p2;
        } else if eq_bytes(key.as_slice(), k_piece_length.as_slice()) {
            let (v, p2) = match parse_int_val(bytes, pk) {
                Ok(x) => x,
                Err(e) => {
                    return Err(e);
                }
            };
            if v < 0 || v > u32::MAX as i64 {
                return Err(BencodeError::BadMetainfo);
            }
            piece_length = Some(v as usize);
            p = p2;
        } else if eq_bytes(key.as_slice(), k_pieces.as_slice()) {
            let (v, p2) = match parse_string_val(bytes, pk) {
                Ok(x) => x,
                Err(e) => {
                    return Err(e);
                }
            };
            pieces = Some(v);
            p = p2;
        } else {
            let p2 = match skip_value(bytes, pk) {
                Ok(x) => x,
                Err(e) => {
                    return Err(e);
                }
            };
            p = p2;
        }
    }
    Err(BencodeError::Syntax)
}


/// The item encoding splits at any index.
proof fn lemma_bytes_items_split(items: Seq<Seq<u8>>, j: int)
    requires
        0 <= j <= items.len(),
    ensures
        spec_encode_bytes_items(items) == spec_encode_bytes_items(items.take(j))
            + spec_encode_bytes_items(items.skip(j)),
    decreases j,
{
    if j == 0 {
        assert(items.take(0) =~= Seq::<Seq<u8>>::empty());
        assert(items.skip(0) =~= items);
        assert(spec_encode_bytes_items(items) =~= spec_encode_bytes_items(items.take(0))
            + spec_encode_bytes_items(items));
    } else {
        lemma_bytes_items_split(items.skip(1), j - 1);
        assert(items.take(j)[0] == items[0]);
        assert(items.take(j).skip(1) =~= items.skip(1).take(j - 1));
        assert(items.skip(1).skip(j - 1) =~= items.skip(j));
        assert(spec_encode_bytes_items(items) =~= spec_encode_bytes_items(items.take(j))
            + spec_encode_bytes_items(items.skip(j)));
    }
}

/// The item encoding peels off the item at the front of a suffix.
proof fn lemma_bytes_items_head(items: Seq<Seq<u8>>, j: int)
    requires
        0 <= j < items.len(),
    ensures
        spec_encode_bytes_items(items.skip(j)) == spec_encode_bytes(items[j])
            + spec_encode_bytes_items(items.skip(j + 1)),
{
    assert(items.skip(j)[0] == items[j]);
    assert(items.skip(j).skip(1) =~= items.skip(j + 1));
}

/// The item encoding grows by one encoded item.
proof fn lemma_bytes_items_extend(items: Seq<Seq<u8>>, j: int)
    requires
        0 <= j < items.len(),
    ensures
        spec_encode_bytes_items(items.take(j + 1)) == spec_encode_bytes_items(items.take(j))
            + spec_encode_bytes(items[j]),
{
    lemma_bytes_items_split(items.take(j + 1), j);
    assert(items.take(j + 1).take(j) =~= items.take(j));
    assert(items.take(j + 1).skip(j) =~= items.skip(j).take(1));
    assert(items.skip(j).take(1)[0] == items[j]);
    assert(items.skip(j).take(1).skip(1) =~= Seq::<Seq<u8>>::empty());
    assert(spec_encode_bytes_items(items.skip(j).take(1).skip(1)) =~= Seq::<u8>::empty());
    assert(spec_encode_bytes_items(items.skip(j).take(1)) =~= spec_encode_bytes(items[j]));
}

/// True exactly when `pattern` occurs verbatim at `pos`; on a match the
/// returned position stands right after it.
fn expect_bytes(bytes: &[u8], pos: usize, pattern: &Vec<u8>) -> (r: Option<usize>)
    requires
        pos <= bytes@.len(),
    ensures
        r matches Some(p) ==> p == pos + pattern@.len() && p <= bytes@.len() && bytes@.subrange(
            pos as int,
            p as int,
        ) == pattern@,
        r is None ==> !(pos + pattern@.len() <= bytes@.len() && bytes@.subrange(
            pos as int,
            pos + pattern@.len() as int,
        ) == pattern@),
{
    if pattern.len() > bytes.len() - pos {
        return None;
    }
    let seg = vstd::slice::slice_subrange(bytes, pos, pos + pattern.len());
    if crate::bytes::eq_bytes(seg, pattern.as_slice()) {
        Some(pos + pattern.len())
    } else {
        None
    }
}

/// Strictly parses consecutive byte strings up to and including a closing
/// `e`: the canonical reading of one bencoded list body of strings.
#[verifier::rlimit(100)]
fn parse_string_items(bytes: &[u8], pos: usize) -> (r: Option<(Vec<Vec<u8>>, usize)>)
    requires
        pos <= bytes@.len(),
    ensures
        r matches Some(p) ==> pos < p.1 <= bytes@.len(),
        forall|items: Seq<Seq<u8>>|
            #![trigger spec_encode_bytes_items(items)]
            (pos + spec_encode_bytes_items(items).len() + 1 <= bytes@.len() && bytes@.subrange(
                pos as int,
                pos + spec_encode_bytes_items(items).len() + 1,
            ) == spec_encode_bytes_items(items) + seq![101u8]) ==> (r matches Some(p)
            && p.0@.map_values(|x: Vec<u8>| x@) == items && p.1 == pos
            + spec_encode_bytes_items(items).len() + 1),
{
    let n = bytes.len();
    let mut out: Vec<Vec<u8>> = Vec::new();
    let mut p = pos;
    proof {
        assert forall|items: Seq<Seq<u8>>|
            pos + spec_encode_bytes_items(items).len() + 1 <= bytes@.len() && bytes@.subrange(
                pos as int,
                pos + spec_encode_bytes_items(items).len() + 1,
            ) == #[trigger] spec_encode_bytes_items(items) + seq![101u8] implies exists|j: int|
            0 <= j <= items.len() && p == pos + spec_encode_bytes_items(items.take(j)).len()
                && out@.map_values(|x: Vec<u8>| x@) == items.take(j) by {
            assert(items.take(0) =~= Seq::<Seq<u8>>::empty());
            assert(out@.map_values(|x: Vec<u8>| x@) =~= items.take(0));
            assert(0 <= 0 <= items.len() && p == pos + spec_encode_bytes_items(
                items.take(0),
            ).len() && out@.map_values(|x: Vec<u8>| x@) == items.take(0));
        }
    }
    while p < n
        invariant
            n == bytes@.len(),
            pos <= p <= n,
            forall|items: Seq<Seq<u8>>|
                #![trigger spec_encode_bytes_items(items)]
                (pos + spec_encode_bytes_items(items).len() + 1 <= bytes@.len()
                    && bytes@.subrange(
                    pos as int,
                    pos + spec_encode_bytes_items(items).len() + 1,
                ) == spec_encode_bytes_items(items) + seq![101u8]) ==> exists|j: int|
                    0 <= j <= items.len() && p == pos + spec_encode_bytes_items(
                        items.take(j),
                    ).len() && out@.map_values(|x: Vec<u8>| x@) == items.take(j),
        decreases n - p,
    {
        if bytes[p] == 101 {
            proof {
                assert forall|items: Seq<Seq<u8>>|
                    pos + spec_encode_bytes_items(items).len() + 1 <= bytes@.len()
                        && bytes@.subrange(
                        pos as int,
                        pos + spec_encode_bytes_items(items).len() + 1,
                    ) == #[trigger] spec_encode_bytes_items(items) + seq![101u8] implies (
                    out@.map_values(|x: Vec<u8>| x@) == items && p + 1 == pos
                        + spec_encode_bytes_items(items).len() + 1) by {
                    let ll = spec_encode_bytes_items(items).len() as int;
                    let j = choose|j: int|
                        0 <= j <= items.len() && p == pos + spec_encode_bytes_items(
                            items.take(j),
                        ).len() && out@.map_values(|x: Vec<u8>| x@) == items.take(j);
                    lemma_bytes_items_split(items, j);
                    if j < items.len() {
                        lemma_bytes_items_head(items, j);
                        lemma_dec_round_trip(items[j].len() as int);
                        let eb = spec_encode_bytes(items[j]);
                        assert(eb[0] == spec_dec(items[j].len() as int)[0]);
                        assert(48 <= eb[0] <= 57);
                        let off = p - pos;
                        assert(spec_encode_bytes_items(items)[off] == eb[0]);
                        assert(bytes@.subrange(pos as int, pos + ll + 1)[off] == bytes@[p as int]);
                        assert(false);
                    }
                    assert(items.take(j) =~= items);
                }
            }
            return Some((out, p + 1));
        }
        let (sval, p2) = match parse_string_val(bytes, p) {
            Ok(x) => x,
            Err(_) => {
                proof {
                    assert forall|items: Seq<Seq<u8>>|
                        pos + spec_encode_bytes_items(items).len() + 1 <= bytes@.len()
                            && bytes@.subrange(
                            pos as int,
                            pos + spec_encode_bytes_items(items).len() + 1,
                        ) == #[trigger] spec_encode_bytes_items(items) + seq![101u8] implies
                        false by {
                        let ll = spec_encode_bytes_items(items).len() as int;
                        let j = choose|j: int|
                            0 <= j <= items.len() && p == pos + spec_encode_bytes_items(
                                items.take(j),
                            ).len() && out@.map_values(|x: Vec<u8>| x@) == items.take(j);
                        lemma_bytes_items_split(items, j);
                        if j == items.len() {
                            assert(items.take(j) =~= items);
                            assert(bytes@.subrange(pos as int, pos + ll + 1)[ll]
                                == bytes@[p as int]);
                            assert((spec_encode_bytes_items(items) + seq![101u8])[ll] == 101u8);
                        } else {
                            lemma_bytes_items_head(items, j);
                            let eb = spec_encode_bytes(items[j]);
                            let off = p - pos;
                            assert(bytes@.subrange(p as int, p + eb.len() as int) =~= eb) by {
                                assert forall|t: int|
                                    0 <= t < eb.len() implies bytes@.subrange(
                                    p as int,
                                    p + eb.len() as int,
                                )[t] == eb[t] by {
                                    assert(spec_encode_bytes_items(items)[off + t] == eb[t]);
                                    assert(bytes@.subrange(pos as int, pos + ll + 1)[off + t]
                                        == bytes@[p + t]);
                                    assert(bytes@.subrange(p as int, p + eb.len() as int)[t]
                                        == bytes@[p + t]);
                                }
                            }
                            assert(items[j].len() <= eb.len());
                            assert(items[j].len() <= usize::MAX);
                        }
                    }
                }
                return None;
            }
        };
        let ghost prev = out@;
        let ghost p_old = p as int;
        out.push(sval);
        p = p2;
        proof {
            assert forall|items: Seq<Seq<u8>>|
                pos + spec_encode_bytes_items(items).len() + 1 <= bytes@.len()
                    && bytes@.subrange(
                    pos as int,
                    pos + spec_encode_bytes_items(items).len() + 1,
                ) == #[trigger] spec_encode_bytes_items(items) + seq![101u8] implies exists|j2:
                int|
                0 <= j2 <= items.len() && p == pos + spec_encode_bytes_items(
                    items.take(j2),
                ).len() && out@.map_values(|x: Vec<u8>| x@) == items.take(j2) by {
                let ll = spec_encode_bytes_items(items).len() as int;
                let j = choose|j: int|
                    0 <= j <= items.len() && p_old == pos + spec_encode_bytes_items(
                        items.take(j),
                    ).len() && prev.map_values(|x: Vec<u8>| x@) == items.take(j);
                lemma_bytes_items_split(items, j);
                if j == items.len() {
                    assert(items.take(j) =~= items);
                    assert(bytes@.subrange(pos as int, pos + ll + 1)[ll] == bytes@[p_old]);
                    assert((spec_encode_bytes_items(items) + seq![101u8])[ll] == 101u8);
                    assert(false);
                }
                lemma_bytes_items_head(items, j);
                let eb = spec_encode_bytes(items[j]);
                let off = p_old - pos;
                assert(bytes@.subrange(p_old, p_old + eb.len() as int) =~= eb) by {
                    assert forall|t: int|
                        0 <= t < eb.len() implies bytes@.subrange(
                        p_old,
                        p_old + eb.len() as int,
                    )[t] == eb[t] by {
                        assert(spec_encode_bytes_items(items)[off + t] == eb[t]);
                        assert(bytes@.subrange(pos as int, pos + ll + 1)[off + t]
                            == bytes@[p_old + t]);
                        assert(bytes@.subrange(p_old, p_old + eb.len() as int)[t]
                            == bytes@[p_old + t]);
                    }
                }
                assert(items[j].len() <= eb.len());
                assert(sval@ == items[j] && p2 == p_old + eb.len());
                lemma_bytes_items_extend(items, j);
                assert(out@.map_values(|x: Vec<u8>| x@) =~= items.take(j + 1));
                assert(0 <= j + 1 <= items.len() && p == pos + spec_encode_bytes_items(
                    items.take(j + 1),
                ).len() && out@.map_values(|x: Vec<u8>| x@) == items.take(j + 1));
            }
        }
    }
    proof {
        assert forall|items: Seq<Seq<u8>>|
            pos + spec_encode_bytes_items(items).len() + 1 <= bytes@.len() && bytes@.subrange(
                pos as int,
                pos + spec_encode_bytes_items(items).len() + 1,
            ) == #[trigger] spec_encode_bytes_items(items) + seq![101u8] implies false by {
            let j = choose|j: int|
                0 <= j <= items.len() && p == pos + spec_encode_bytes_items(
                    items.take(j),
                ).len() && out@.map_values(|x: Vec<u8>| x@) == items.take(j);
            lemma_bytes_items_split(items, j);
        }
    }
    None
}


/// The file-entry encoding splits at any index.
proof fn lemma_file_items_split(fs: Seq<FileNodeView>, j: int)
    requires
        0 <= j <= fs.len(),
    ensures
        spec_encode_file_items(fs) == spec_encode_file_items(fs.take(j))
            + spec_encode_file_items(fs.skip(j)),
    decreases j,
{
    if j == 0 {
        assert(fs.take(0) =~= Seq::<FileNodeView>::empty());
        assert(fs.skip(0) =~= fs);
        assert(spec_encode_file_items(fs) =~= spec_encode_file_items(fs.take(0))
            + spec_encode_file_items(fs));
    } else {
        lemma_file_items_split(fs.skip(1), j - 1);
        assert(fs.take(j)[0] == fs[0]);
        assert(fs.take(j).skip(1) =~= fs.skip(1).take(j - 1));
        assert(fs.skip(1).skip(j - 1) =~= fs.skip(j));
        assert(spec_encode_file_items(fs) =~= spec_encode_file_items(fs.take(j))
            + spec_encode_file_items(fs.skip(j)));
    }
}

/// The file-entry encoding peels off the entry at the front of a suffix.
proof fn lemma_file_items_head(fs: Seq<FileNodeView>, j: int)
    requires
        0 <= j < fs.len(),
    ensures
        spec_encode_file_items(fs.skip(j)) == spec_encode_file(fs[j]) + spec_encode_file_items(
            fs.skip(j + 1),
        ),
{
    assert(fs.skip(j)[0] == fs[j]);
    assert(fs.skip(j).skip(1) =~= fs.skip(j + 1));
}

/// The file-entry encoding grows by one encoded entry.
proof fn lemma_file_items_extend(fs: Seq<FileNodeView>, j: int)
    requires
        0 <= j < fs.len(),
    ensures
        spec_encode_file_items(fs.take(j + 1)) == spec_encode_file_items(fs.take(j))
            + spec_encode_file(fs[j]),
{
    lemma_file_items_split(fs.take(j + 1), j);
    assert(fs.take(j + 1).take(j) =~= fs.take(j));
    assert(fs.take(j + 1).skip(j) =~= fs.skip(j).take(1));
    assert(fs.skip(j).take(1)[0] == fs[j]);
    assert(fs.skip(j).take(1).skip(1) =~= Seq::<FileNodeView>::empty());
    assert(spec_encode_file_items(fs.skip(j).take(1).skip(1)) =~= Seq::<u8>::empty());
    assert(spec_encode_file_items(fs.skip(j).take(1)) =~= spec_encode_file(fs[j]));
}

/// The exact layout of one encoded file entry at `pos` of `bytes`.
#[verifier::rlimit(100)]
proof fn lemma_file_encoding_shape(bytes: Seq<u8>, pos: int, f: FileNodeView)
    requires
        0 <= pos,
        pos + spec_encode_file(f).len() <= bytes.len(),
        bytes.subrange(pos, pos + spec_encode_file(f).len() as int) == spec_encode_file(f),
    ensures
        ({
            let kl = spec_encode_bytes(spec_key_length());
            let li = spec_encode_int(f.length as int);
            let kp = spec_encode_bytes(spec_key_path());
            let pi = spec_encode_bytes_items(f.path);
            let o1 = pos + 1 + kl.len();
            let o2 = o1 + li.len();
            let o3 = o2 + kp.len() + 1;
            let o4 = o3 + pi.len() + 1;
            &&& spec_encode_file(f).len() == 1 + kl.len() + li.len() + kp.len() + 1 + pi.len()
                + 2
            &&& bytes.subrange(pos, o1 as int) == seq![100u8] + kl
            &&& bytes.subrange(o1 as int, o2 as int) == li
            &&& bytes.subrange(o2 as int, o3 as int) == kp + seq![108u8]
            &&& bytes.subrange(o3 as int, o4 as int) == pi + seq![101u8]
            &&& bytes[o4] == 101
        }),
{
    let e = spec_encode_file(f);
    let kl = spec_encode_bytes(spec_key_length());
    let li = spec_encode_int(f.length as int);
    let kp = spec_encode_bytes(spec_key_path());
    let pi = spec_encode_bytes_items(f.path);
    let o1 = pos + 1 + kl.len();
    let o2 = o1 + li.len();
    let o3 = o2 + kp.len() + 1;
    let o4 = o3 + pi.len() + 1;
    assert(e == seq![100u8] + kl + li + kp + seq![108u8] + pi + seq![101u8] + seq![101u8]);
    assert(bytes.subrange(pos, o1 as int) =~= seq![100u8] + kl) by {
        assert forall|t: int|
            0 <= t < 1 + kl.len() implies bytes.subrange(pos, o1 as int)[t] == (seq![100u8]
            + kl)[t] by {
            assert(bytes.subrange(pos, o1 as int)[t] == bytes[pos + t]);
            assert(bytes.subrange(pos, pos + e.len() as int)[t] == bytes[pos + t]);
            assert(e[t] == (seq![100u8] + kl)[t]);
        }
    }
    assert(bytes.subrange(o1 as int, o2 as int) =~= li) by {
        assert forall|t: int|
            0 <= t < li.len() implies bytes.subrange(o1 as int, o2 as int)[t] == li[t] by {
            assert(bytes.subrange(o1 as int, o2 as int)[t] == bytes[o1 + t]);
            assert(bytes.subrange(pos, pos + e.len() as int)[o1 - pos + t] == bytes[o1 + t]);
            assert(e[o1 - pos + t] == li[t]);
        }
    }
    assert(bytes.subrange(o2 as int, o3 as int) =~= kp + seq![108u8]) by {
        assert forall|t: int|
            0 <= t < kp.len() + 1 implies bytes.subrange(o2 as int, o3 as int)[t] == (kp
            + seq![108u8])[t] by {
            assert(bytes.subrange(o2 as int, o3 as int)[t] == bytes[o2 + t]);
            assert(bytes.subrange(pos, pos + e.len() as int)[o2 - pos + t] == bytes[o2 + t]);
            assert(e[o2 - pos + t] == (kp + seq![108u8])[t]);
        }
    }
    assert(bytes.subrange(o3 as int, o4 as int) =~= pi + seq![101u8]) by {
        assert forall|t: int|
            0 <= t < pi.len() + 1 implies bytes.subrange(o3 as int, o4 as int)[t] == (pi
            + seq![101u8])[t] by {
            assert(bytes.subrange(o3 as int, o4 as int)[t] == bytes[o3 + t]);
            assert(bytes.subrange(pos, pos + e.len() as int)[o3 - pos + t] == bytes[o3 + t]);
            assert(e[o3 - pos + t] == (pi + seq![101u8])[t]);
        }
    }
    assert(bytes[o4] == 101) by {
        assert(bytes.subrange(pos, pos + e.len() as int)[o4 - pos] == bytes[o4]);
        assert(e[o4 - pos] == 101);
    }
}

/// Strictly parses one canonical file entry:
/// `d 6:length i<len>e 4:path l <components> e e`.
#[verifier::rlimit(100)]
fn parse_canonical_file(bytes: &[u8], pos: usize) -> (r: Option<(FileNode, usize)>)
    requires
        pos <= bytes@.len(),
    ensures
        r matches Some(p) ==> pos < p.1 <= bytes@.len(),
        forall|f: FileNodeView|
            #![trigger spec_encode_file(f)]
            (pos + spec_encode_file(f).len() <= bytes@.len() && bytes@.subrange(
                pos as int,
                pos + spec_encode_file(f).len() as int,
            ) == spec_encode_file(f)) ==> (r matches Some(p) && p.0@ == f && p.1 == pos
            + spec_encode_file(f).len()),
{
    let n = bytes.len();
    let kl = key_length();
    let mut lit1: Vec<u8> = Vec::new();
    lit1.push(100);
    push_bytes_val(&mut lit1, kl.as_slice());
    proof {
        assert(lit1@ =~= seq![100u8] + spec_encode_bytes(spec_key_length()));
    }
    let p1 = match expect_bytes(bytes, pos, &lit1) {
        Some(x) => x,
        None => {
            proof {
                assert forall|f: FileNodeView|
                    pos + spec_encode_file(f).len() <= bytes@.len() && bytes@.subrange(
                        pos as int,
                        pos + spec_encode_file(f).len() as int,
                    ) == #[trigger] spec_encode_file(f) implies false by {
                    lemma_file_encoding_shape(bytes@, pos as int, f);
                }
            }
            return None;
        }
    };
    let (length, p2) = match parse_int_val(bytes, p1) {
        Ok(x) => x,
        Err(_) => {
            proof {
                assert forall|f: FileNodeView|
                    pos + spec_encode_file(f).len() <= bytes@.len() && bytes@.subrange(
                        pos as int,
                        pos + spec_encode_file(f).len() as int,
                    ) == #[trigger] spec_encode_file(f) implies false by {
                    lemma_file_encoding_shape(bytes@, pos as int, f);
                }
            }
            return None;
        }
    };
    let kp = key_path();
    let mut lit2: Vec<u8> = Vec::new();
    push_bytes_val(&mut lit2, kp.as_slice());
    lit2.push(108);
    proof {
        assert(lit2@ =~= spec_encode_bytes(spec_key_path()) + seq![108u8]);
    }
    let p3 = match expect_bytes(bytes, p2, &lit2) {
        Some(x) => x,
        None => {
            proof {
                assert forall|f: FileNodeView|
                    pos + spec_encode_file(f).len() <= bytes@.len() && bytes@.subrange(
                        pos as int,
                        pos + spec_encode_file(f).len() as int,
                    ) == #[trigger] spec_encode_file(f) implies false by {
                    lemma_file_encoding_shape(bytes@, pos as int, f);
                }
            }
            return None;
        }
    };
    let (path, p4) = match parse_string_items(bytes, p3) {
        Some(x) => x,
        None => {
            proof {
                assert forall|f: FileNodeView|
                    pos + spec_encode_file(f).len() <= bytes@.len() && bytes@.subrange(
                        pos as int,
                        pos + spec_encode_file(f).len() as int,
                    ) == #[trigger] spec_encode_file(f) implies false by {
                    lemma_file_encoding_shape(bytes@, pos as int, f);
                }
            }
            return None;
        }
    };
    if p4 >= n || bytes[p4] != 101 {
        proof {
            assert forall|f: FileNodeView|
                pos + spec_encode_file(f).len() <= bytes@.len() && bytes@.subrange(
                    pos as int,
                    pos + spec_encode_file(f).len() as int,
                ) == #[trigger] spec_encode_file(f) implies false by {
                lemma_file_encoding_shape(bytes@, pos as int, f);
            }
        }
        return None;
    }
    let node = FileNode { length, path };
    proof {
        assert forall|f: FileNodeView|
            pos + spec_encode_file(f).len() <= bytes@.len() && bytes@.subrange(
                pos as int,
                pos + spec_encode_file(f).len() as int,
            ) == #[trigger] spec_encode_file(f) implies (node@ == f && p4 + 1 == pos
            + spec_encode_file(f).len()) by {
            lemma_file_encoding_shape(bytes@, pos as int, f);
            assert(node@.path =~~= f.path);
            assert(node@ =~= f);
        }
    }
    Some((node, p4 + 1))
}

/// Strictly parses consecutive canonical file entries up to and including
/// a closing `e`.
#[verifier::rlimit(100)]
fn parse_canonical_files(bytes: &[u8], pos: usize) -> (r: Option<(Vec<FileNode>, usize)>)
    requires
        pos <= bytes@.len(),
    ensures
        r matches Some(p) ==> pos < p.1 <= bytes@.len(),
        forall|fs: Seq<FileNodeView>|
            #![trigger spec_encode_file_items(fs)]
            (pos + spec_encode_file_items(fs).len() + 1 <= bytes@.len() && bytes@.subrange(
                pos as int,
                pos + spec_encode_file_items(fs).len() + 1,
            ) == spec_encode_file_items(fs) + seq![101u8]) ==> (r matches Some(p)
            && p.0@.map_values(|x: FileNode| x@) == fs && p.1 == pos
            + spec_encode_file_items(fs).len() + 1),
{
    let n = bytes.len();
    let mut out: Vec<FileNode> = Vec::new();
    let mut p = pos;
    proof {
        assert forall|fs: Seq<FileNodeView>|
            pos + spec_encode_file_items(fs).len() + 1 <= bytes@.len() && bytes@.subrange(
                pos as int,
                pos + spec_encode_file_items(fs).len() + 1,
            ) == #[trigger] spec_encode_file_items(fs) + seq![101u8] implies exists|j: int|
            0 <= j <= fs.len() && p == pos + spec_encode_file_items(fs.take(j)).len()
                && out@.map_values(|x: FileNode| x@) == fs.take(j) by {
            assert(fs.take(0) =~= Seq::<FileNodeView>::empty());
            assert(out@.map_values(|x: FileNode| x@) =~= fs.take(0));
            assert(0 <= 0 <= fs.len() && p == pos + spec_encode_file_items(fs.take(0)).len()
                && out@.map_values(|x: FileNode| x@) == fs.take(0));
        }
    }
    while p < n
        invariant
            n == bytes@.len(),
            pos <= p <= n,
            forall|fs: Seq<FileNodeView>|
                #![trigger spec_encode_file_items(fs)]
                (pos + spec_encode_file_items(fs).len() + 1 <= bytes@.len() && bytes@.subrange(
                    pos as int,
                    pos + spec_encode_file_items(fs).len() + 1,
                ) == spec_encode_file_items(fs) + seq![101u8]) ==> exists|j: int|
                    0 <= j <= fs.len() && p == pos + spec_encode_file_items(fs.take(j)).len()
                        && out@.map_values(|x: FileNode| x@) == fs.take(j),
        decreases n - p,
    {
        if bytes[p] == 101 {
            proof {
                assert forall|fs: Seq<FileNodeView>|
                    pos + spec_encode_file_items(fs).len() + 1 <= bytes@.len()
                        && bytes@.subrange(
                        pos as int,
                        pos + spec_encode_file_items(fs).len() + 1,
                    ) == #[trigger] spec_encode_file_items(fs) + seq![101u8] implies (
                    out@.map_values(|x: FileNode| x@) == fs && p + 1 == pos
                        + spec_encode_file_items(fs).len() + 1) by {
                    let ll = spec_encode_file_items(fs).len() as int;
                    let j = choose|j: int|
                        0 <= j <= fs.len() && p == pos + spec_encode_file_items(
                            fs.take(j),
                        ).len() && out@.map_values(|x: FileNode| x@) == fs.take(j);
                    lemma_file_items_split(fs, j);
                    if j < fs.len() {
                        lemma_file_items_head(fs, j);
                        let eb = spec_encode_file(fs[j]);
                        assert(eb[0] == 100);
                        let off = p - pos;
                        assert(spec_encode_file_items(fs)[off] == eb[0]);
                        assert(bytes@.subrange(pos as int, pos + ll + 1)[off] == bytes@[p as int]);
                        assert(false);
                    }
                    assert(fs.take(j) =~= fs);
                }
            }
            return Some((out, p + 1));
        }
        let (node, p2) = match parse_canonical_file(bytes, p) {
            Some(x) => x,
            None => {
                proof {
                    assert forall|fs: Seq<FileNodeView>|
                        pos + spec_encode_file_items(fs).len() + 1 <= bytes@.len()
                            && bytes@.subrange(
                            pos as int,
                            pos + spec_encode_file_items(fs).len() + 1,
                        ) == #[trigger] spec_encode_file_items(fs) + seq![101u8] implies
                        false by {
                        let ll = spec_encode_file_items(fs).len() as int;
                        let j = choose|j: int|
                            0 <= j <= fs.len() && p == pos + spec_encode_file_items(
                                fs.take(j),
                            ).len() && out@.map_values(|x: FileNode| x@) == fs.take(j);
                        lemma_file_items_split(fs, j);
                        if j == fs.len() {
                            assert(fs.take(j) =~= fs);
                            assert(bytes@.subrange(pos as int, pos + ll + 1)[ll]
                                == bytes@[p as int]);
                            assert((spec_encode_file_items(fs) + seq![101u8])[ll] == 101u8);
                        } else {
                            lemma_file_items_head(fs, j);
                            let eb = spec_encode_file(fs[j]);
                            let off = p - pos;
                            assert(bytes@.subrange(p as int, p + eb.len() as int) =~= eb) by {
                                assert forall|t: int|
                                    0 <= t < eb.len() implies bytes@.subrange(
                                    p as int,
                                    p + eb.len() as int,
                                )[t] == eb[t] by {
                                    assert(spec_encode_file_items(fs)[off + t] == eb[t]);
                                    assert(bytes@.subrange(pos as int, pos + ll + 1)[off + t]
                                        == bytes@[p + t]);
                                    assert(bytes@.subrange(p as int, p + eb.len() as int)[t]
                                        == bytes@[p + t]);
                                }
                            }
                        }
                    }
                }
                return None;
            }
        };
        let ghost prev = out@;
        let ghost p_old = p as int;
        out.push(node);
        p = p2;
        proof {
            assert forall|fs: Seq<FileNodeView>|
                pos + spec_encode_file_items(fs).len() + 1 <= bytes@.len() && bytes@.subrange(
                    pos as int,
                    pos + spec_encode_file_items(fs).len() + 1,
                ) == #[trigger] spec_encode_file_items(fs) + seq![101u8] implies exists|j2: int|
                0 <= j2 <= fs.len() && p == pos + spec_encode_file_items(fs.take(j2)).len()
                    && out@.map_values(|x: FileNode| x@) == fs.take(j2) by {
                let ll = spec_encode_file_items(fs).len() as int;
                let j = choose|j: int|
                    0 <= j <= fs.len() && p_old == pos + spec_encode_file_items(
                        fs.take(j),
                    ).len() && prev.map_values(|x: FileNode| x@) == fs.take(j);
                lemma_file_items_split(fs, j);
                if j == fs.len() {
                    assert(fs.take(j) =~= fs);
                    assert(bytes@.subrange(pos as int, pos + ll + 1)[ll] == bytes@[p_old]);
                    assert((spec_encode_file_items(fs) + seq![101u8])[ll] == 101u8);
                    assert(false);
                }
                lemma_file_items_head(fs, j);
                let eb = spec_encode_file(fs[j]);
                let off = p_old - pos;
                assert(bytes@.subrange(p_old, p_old + eb.len() as int) =~= eb) by {
                    assert forall|t: int|
                        0 <= t < eb.len() implies bytes@.subrange(
                        p_old,
                        p_old + eb.len() as int,
                    )[t] == eb[t] by {
                        assert(spec_encode_file_items(fs)[off + t] == eb[t]);
                        assert(bytes@.subrange(pos as int, pos + ll + 1)[off + t]
                            == bytes@[p_old + t]);
                        assert(bytes@.subrange(p_old, p_old + eb.len() as int)[t]
                            == bytes@[p_old + t]);
                    }
                }
                assert(node@ == fs[j] && p2 == p_old + eb.len());
                lemma_file_items_extend(fs, j);
                assert(out@.map_values(|x: FileNode| x@) =~= fs.take(j + 1));
                assert(0 <= j + 1 <= fs.len() && p == pos + spec_encode_file_items(
                    fs.take(j + 1),
                ).len() && out@.map_values(|x: FileNode| x@) == fs.take(j + 1));
            }
        }
    }
    proof {
        assert forall|fs: Seq<FileNodeView>|
            pos + spec_encode_file_items(fs).len() + 1 <= bytes@.len() && bytes@.subrange(
                pos as int,
                pos + spec_encode_file_items(fs).len() + 1,
            ) == #[trigger] spec_encode_file_items(fs) + seq![101u8] implies false by {
            let j = choose|j: int|
                0 <= j <= fs.len() && p == pos + spec_encode_file_items(fs.take(j)).len()
                    && out@.map_values(|x: FileNode| x@) == fs.take(j);
            lemma_file_items_split(fs, j);
        }
    }
    None
}


/// The tier encoding splits at any index.
proof fn lemma_tier_items_split(tiers: Seq<Seq<Seq<u8>>>, j: int)
    requires
        0 <= j <= tiers.len(),
    ensures
        spec_encode_tier_items(tiers) == spec_encode_tier_items(tiers.take(j))
            + spec_encode_tier_items(tiers.skip(j)),
    decreases j,
{
    if j == 0 {
        assert(tiers.take(0) =~= Seq::<Seq<Seq<u8>>>::empty());
        assert(tiers.skip(0) =~= tiers);
        assert(spec_encode_tier_items(tiers) =~= spec_encode_tier_items(tiers.take(0))
            + spec_encode_tier_items(tiers));
    } else {
        lemma_tier_items_split(tiers.skip(1), j - 1);
        assert(tiers.take(j)[0] == tiers[0]);
        assert(tiers.take(j).skip(1) =~= tiers.skip(1).take(j - 1));
        assert(tiers.skip(1).skip(j - 1) =~= tiers.skip(j));
        assert(spec_encode_tier_items(tiers) =~= spec_encode_tier_items(tiers.take(j))
            + spec_encode_tier_items(tiers.skip(j)));
    }
}

/// The tier encoding peels off the tier at the front of a suffix.
proof fn lemma_tier_items_head(tiers: Seq<Seq<Seq<u8>>>, j: int)
    requires
        0 <= j < tiers.len(),
    ensures
        spec_encode_tier_items(tiers.skip(j)) == seq![108u8] + spec_encode_bytes_items(tiers[j])
            + seq![101u8] + spec_encode_tier_items(tiers.skip(j + 1)),
{
    assert(tiers.skip(j)[0] == tiers[j]);
    assert(tiers.skip(j).skip(1) =~= tiers.skip(j + 1));
}

/// The tier encoding grows by one encoded tier.
proof fn lemma_tier_items_extend(tiers: Seq<Seq<Seq<u8>>>, j: int)
    requires
        0 <= j < tiers.len(),
    ensures
        spec_encode_tier_items(tiers.take(j + 1)) == spec_encode_tier_items(tiers.take(j))
            + (seq![108u8] + spec_encode_bytes_items(tiers[j]) + seq![101u8]),
{
    lemma_tier_items_split(tiers.take(j + 1), j);
    assert(tiers.take(j + 1).take(j) =~= tiers.take(j));
    assert(tiers.take(j + 1).skip(j) =~= tiers.skip(j).take(1));
    assert(tiers.skip(j).take(1)[0] == tiers[j]);
    assert(tiers.skip(j).take(1).skip(1) =~= Seq::<Seq<Seq<u8>>>::empty());
    assert(spec_encode_tier_items(tiers.skip(j).take(1).skip(1)) =~= Seq::<u8>::empty());
    assert(spec_encode_tier_items(tiers.skip(j).take(1)) =~= seq![108u8]
        + spec_encode_bytes_items(tiers[j]) + seq![101u8]);
}

/// Strictly parses consecutive canonical tiers (each `l <urls> e`) up to
/// and including a closing `e`.
#[verifier::rlimit(100)]
fn parse_canonical_tiers(bytes: &[u8], pos: usize) -> (r: Option<(Vec<Vec<Vec<u8>>>, usize)>)
    requires
        pos <= bytes@.len(),
    ensures
        r matches Some(p) ==> pos < p.1 <= bytes@.len(),
        forall|tiers: Seq<Seq<Seq<u8>>>|
            #![trigger spec_encode_tier_items(tiers)]
            (pos + spec_encode_tier_items(tiers).len() + 1 <= bytes@.len() && bytes@.subrange(
                pos as int,
                pos + spec_encode_tier_items(tiers).len() + 1,
            ) == spec_encode_tier_items(tiers) + seq![101u8]) ==> (r matches Some(p) && p.1
            == pos + spec_encode_tier_items(tiers).len() + 1),
{
    let n = bytes.len();
    let mut out: Vec<Vec<Vec<u8>>> = Vec::new();
    let mut p = pos;
    proof {
        assert forall|tiers: Seq<Seq<Seq<u8>>>|
            pos + spec_encode_tier_items(tiers).len() + 1 <= bytes@.len() && bytes@.subrange(
                pos as int,
                pos + spec_encode_tier_items(tiers).len() + 1,
            ) == #[trigger] spec_encode_tier_items(tiers) + seq![101u8] implies exists|j: int|
            0 <= j <= tiers.len() && p == pos + spec_encode_tier_items(tiers.take(j)).len() by {
            assert(tiers.take(0) =~= Seq::<Seq<Seq<u8>>>::empty());
            assert(0 <= 0 <= tiers.len() && p == pos + spec_encode_tier_items(
                tiers.take(0),
            ).len());
        }
    }
    while p < n
        invariant
            n == bytes@.len(),
            pos <= p <= n,
            forall|tiers: Seq<Seq<Seq<u8>>>|
                #![trigger spec_encode_tier_items(tiers)]
                (pos + spec_encode_tier_items(tiers).len() + 1 <= bytes@.len()
                    && bytes@.subrange(
                    pos as int,
                    pos + spec_encode_tier_items(tiers).len() + 1,
                ) == spec_encode_tier_items(tiers) + seq![101u8]) ==> exists|j: int|
                    0 <= j <= tiers.len() && p == pos + spec_encode_tier_items(
                        tiers.take(j),
                    ).len(),
        decreases n - p,
    {
        if bytes[p] == 101 {
            proof {
                assert forall|tiers: Seq<Seq<Seq<u8>>>|
                    pos + spec_encode_tier_items(tiers).len() + 1 <= bytes@.len()
                        && bytes@.subrange(
                        pos as int,
                        pos + spec_encode_tier_items(tiers).len() + 1,
                    ) == #[trigger] spec_encode_tier_items(tiers) + seq![101u8] implies (p + 1
                    == pos + spec_encode_tier_items(tiers).len() + 1) by {
                    let ll = spec_encode_tier_items(tiers).len() as int;
                    let j = choose|j: int|
                        0 <= j <= tiers.len() && p == pos + spec_encode_tier_items(
                            tiers.take(j),
                        ).len();
                    lemma_tier_items_split(tiers, j);
                    if j < tiers.len() {
                        lemma_tier_items_head(tiers, j);
                        let off = p - pos;
                        assert(spec_encode_tier_items(tiers)[off] == 108u8);
                        assert(bytes@.subrange(pos as int, pos + ll + 1)[off] == bytes@[p as int]);
                        assert(false);
                    }
                    assert(tiers.take(j) =~= tiers);
                }
            }
            return Some((out, p + 1));
        }
        if bytes[p] != 108 {
            proof {
                assert forall|tiers: Seq<Seq<Seq<u8>>>|
                    pos + spec_encode_tier_items(tiers).len() + 1 <= bytes@.len()
                        && bytes@.subrange(
                        pos as int,
                        pos + spec_encode_tier_items(tiers).len() + 1,
                    ) == #[trigger] spec_encode_tier_items(tiers) + seq![101u8] implies false by {
                    let ll = spec_encode_tier_items(tiers).len() as int;
                    let j = choose|j: int|
                        0 <= j <= tiers.len() && p == pos + spec_encode_tier_items(
                            tiers.take(j),
                        ).len();
                    lemma_tier_items_split(tiers, j);
                    if j == tiers.len() {
                        assert(tiers.take(j) =~= tiers);
                        assert(bytes@.subrange(pos as int, pos + ll + 1)[ll] == bytes@[p as int]);
                        assert((spec_encode_tier_items(tiers) + seq![101u8])[ll] == 101u8);
                    } else {
                        lemma_tier_items_head(tiers, j);
                        let off = p - pos;
                        assert(spec_encode_tier_items(tiers)[off] == 108u8);
                        assert(bytes@.subrange(pos as int, pos + ll + 1)[off] == bytes@[p as int]);
                    }
                }
            }
            return None;
        }
        let (tier, p2) = match parse_string_items(bytes, p + 1) {
            Some(x) => x,
            None => {
                proof {
                    assert forall|tiers: Seq<Seq<Seq<u8>>>|
                        pos + spec_encode_tier_items(tiers).len() + 1 <= bytes@.len()
                            && bytes@.subrange(
                            pos as int,
                            pos + spec_encode_tier_items(tiers).len() + 1,
                        ) == #[trigger] spec_encode_tier_items(tiers) + seq![101u8] implies
                        false by {
                        let ll = spec_encode_tier_items(tiers).len() as int;
                        let j = choose|j: int|
                            0 <= j <= tiers.len() && p == pos + spec_encode_tier_items(
                                tiers.take(j),
                            ).len();
                        lemma_tier_items_split(tiers, j);
                        if j == tiers.len() {
                            assert(tiers.take(j) =~= tiers);
                            assert(bytes@.subrange(pos as int, pos + ll + 1)[ll]
                                == bytes@[p as int]);
                            assert((spec_encode_tier_items(tiers) + seq![101u8])[ll] == 101u8);
                        } else {
                            lemma_tier_items_head(tiers, j);
                            let ei = spec_encode_bytes_items(tiers[j]);
                            let off = p - pos;
                            assert(bytes@.subrange(p + 1, p + 1 + ei.len() + 1) =~= ei
                                + seq![101u8]) by {
                                assert forall|t: int|
                                    0 <= t < ei.len() + 1 implies bytes@.subrange(
                                    p + 1,
                                    p + 1 + ei.len() + 1,
                                )[t] == (ei + seq![101u8])[t] by {
                                    assert(spec_encode_tier_items(tiers)[off + 1 + t] == (ei
                                        + seq![101u8])[t]);
                                    assert(bytes@.subrange(pos as int, pos + ll + 1)[off + 1 + t]
                                        == bytes@[p + 1 + t]);
                                    assert(bytes@.subrange(p + 1, p + 1 + ei.len() + 1)[t]
                                        == bytes@[p + 1 + t]);
                                }
                            }
                        }
                    }
                }
                return None;
            }
        };
        let ghost p_old = p as int;
        out.push(tier);
        p = p2;
        proof {
            assert forall|tiers: Seq<Seq<Seq<u8>>>|
                pos + spec_encode_tier_items(tiers).len() + 1 <= bytes@.len() && bytes@.subrange(
                    pos as int,
                    pos + spec_encode_tier_items(tiers).len() + 1,
                ) == #[trigger] spec_encode_tier_items(tiers) + seq![101u8] implies exists|j2:
                int|
                0 <= j2 <= tiers.len() && p == pos + spec_encode_tier_items(
                    tiers.take(j2),
                ).len() by {
                let ll = spec_encode_tier_items(tiers).len() as int;
                let j = choose|j: int|
                    0 <= j <= tiers.len() && p_old == pos + spec_encode_tier_items(
                        tiers.take(j),
                    ).len();
                lemma_tier_items_split(tiers, j);
                if j == tiers.len() {
                    assert(tiers.take(j) =~= tiers);
                    assert(bytes@.subrange(pos as int, pos + ll + 1)[ll] == bytes@[p_old]);
                    assert((spec_encode_tier_items(tiers) + seq![101u8])[ll] == 101u8);
                    assert(false);
                }
                lemma_tier_items_head(tiers, j);
                let ei = spec_encode_bytes_items(tiers[j]);
                let off = p_old - pos;
                assert(bytes@.subrange(p_old + 1, p_old + 1 + ei.len() + 1) =~= ei
                    + seq![101u8]) by {
                    assert forall|t: int|
                        0 <= t < ei.len() + 1 implies bytes@.subrange(
                        p_old + 1,
                        p_old + 1 + ei.len() + 1,
                    )[t] == (ei + seq![101u8])[t] by {
                        assert(spec_encode_tier_items(tiers)[off + 1 + t] == (ei
                            + seq![101u8])[t]);
                        assert(bytes@.subrange(pos as int, pos + ll + 1)[off + 1 + t]
                            == bytes@[p_old + 1 + t]);
                        assert(bytes@.subrange(p_old + 1, p_old + 1 + ei.len() + 1)[t]
                            == bytes@[p_old + 1 + t]);
                    }
                }
                assert(p2 == p_old + 1 + ei.len() + 1);
                lemma_tier_items_extend(tiers, j);
                assert(0 <= j + 1 <= tiers.len() && p == pos + spec_encode_tier_items(
                    tiers.take(j + 1),
                ).len());
            }
        }
    }
    proof {
        assert forall|tiers: Seq<Seq<Seq<u8>>>|
            pos + spec_encode_tier_items(tiers).len() + 1 <= bytes@.len() && bytes@.subrange(
                pos as int,
                pos + spec_encode_tier_items(tiers).len() + 1,
            ) == #[trigger] spec_encode_tier_items(tiers) + seq![101u8] implies false by {
            let j = choose|j: int|
                0 <= j <= tiers.len() && p == pos + spec_encode_tier_items(tiers.take(j)).len();
            lemma_tier_items_split(tiers, j);
        }
    }
    None
}


/// The length of the optional leading segment of an encoded info
/// dictionary: its `files` list or its `length` entry.
pub open spec fn spec_info_front_len(iv: InfoView) -> int {
    (match iv.files {
        Some(fs) => spec_encode_bytes(spec_key_files()).len() + 1 + spec_encode_file_items(
            fs,
        ).len() + 1int,
        None => 0int,
    }) + (match iv.length {
        Some(l) => spec_encode_bytes(spec_key_length()).len() + spec_encode_int(l as int).len()
            as int,
        None => 0int,
    })
}

/// The exact layout of an encoded info dictionary at `pos` of `bytes`.
#[verifier::rlimit(100)]
proof fn lemma_info_encoding_shape(bytes: Seq<u8>, pos: int, iv: InfoView)
    requires
        0 <= pos,
        iv.files is Some <==> iv.length is None,
        pos + spec_encode_info(iv).len() <= bytes.len(),
        bytes.subrange(pos, pos + spec_encode_info(iv).len() as int) == spec_encode_info(iv),
    ensures
        ({
            let o1 = pos + 1;
            let o2 = o1 + spec_info_front_len(iv);
            let onm = o2 + spec_encode_bytes(spec_key_name()).len();
            let o3 = onm + spec_encode_bytes(iv.name).len();
            let opl = o3 + spec_encode_bytes(spec_key_piece_length()).len();
            let o4 = opl + spec_encode_int(iv.piece_length as int).len();
            let ops = o4 + spec_encode_bytes(spec_key_pieces()).len();
            let o5 = ops + spec_encode_bytes(iv.pieces).len();
            &&& spec_encode_info(iv).len() == o5 + 1 - pos
            &&& bytes[pos] == 100
            &&& (iv.files matches Some(fs) ==> ({
                let kf = spec_encode_bytes(spec_key_files());
                let fi = spec_encode_file_items(fs);
                &&& bytes.subrange(o1, o1 + kf.len() + 1) == kf + seq![108u8]
                &&& bytes.subrange(o1 + kf.len() + 1, o1 + kf.len() + 1 + fi.len() + 1) == fi
                    + seq![101u8]
                &&& bytes[o1] == 53
            }))
            &&& (iv.length matches Some(l) ==> ({
                let kl = spec_encode_bytes(spec_key_length());
                let li = spec_encode_int(l as int);
                &&& bytes.subrange(o1, o1 + kl.len()) == kl
                &&& bytes.subrange(o1 + kl.len(), o1 + kl.len() + li.len()) == li
                &&& bytes[o1] == 54
            }))
            &&& bytes.subrange(o2, onm) == spec_encode_bytes(spec_key_name())
            &&& bytes.subrange(onm, o3) == spec_encode_bytes(iv.name)
            &&& bytes.subrange(o3, opl) == spec_encode_bytes(spec_key_piece_length())
            &&& bytes.subrange(opl, o4) == spec_encode_int(iv.piece_length as int)
            &&& bytes.subrange(o4, ops) == spec_encode_bytes(spec_key_pieces())
            &&& bytes.subrange(ops, o5) == spec_encode_bytes(iv.pieces)
            &&& bytes[o5] == 101
            &&& iv.name.len() <= bytes.len()
            &&& iv.pieces.len() <= bytes.len()
        }),
{
    let e = spec_encode_info(iv);
    let fseg: Seq<u8> = match iv.files {
        Some(fs) => spec_encode_bytes(spec_key_files()) + seq![108u8] + spec_encode_file_items(fs)
            + seq![101u8],
        None => Seq::<u8>::empty(),
    };
    let lseg: Seq<u8> = match iv.length {
        Some(l) => spec_encode_bytes(spec_key_length()) + spec_encode_int(l as int),
        None => Seq::<u8>::empty(),
    };
    let o1 = pos + 1;
    let o2 = o1 + spec_info_front_len(iv);
    let onm = o2 + spec_encode_bytes(spec_key_name()).len();
    let o3 = onm + spec_encode_bytes(iv.name).len();
    let opl = o3 + spec_encode_bytes(spec_key_piece_length()).len();
    let o4 = opl + spec_encode_int(iv.piece_length as int).len();
    let ops = o4 + spec_encode_bytes(spec_key_pieces()).len();
    let o5 = ops + spec_encode_bytes(iv.pieces).len();
    assert(e == seq![100u8] + fseg + lseg + spec_encode_bytes(spec_key_name())
        + spec_encode_bytes(iv.name) + spec_encode_bytes(spec_key_piece_length())
        + spec_encode_int(iv.piece_length as int) + spec_encode_bytes(spec_key_pieces())
        + spec_encode_bytes(iv.pieces) + seq![101u8]);
    assert(fseg.len() + lseg.len() == spec_info_front_len(iv));
    assert(bytes[pos] == 100) by {
        assert(bytes.subrange(pos, pos + e.len() as int)[0] == bytes[pos]);
        assert(e[0] == 100);
    }
    assert(bytes.subrange(o1, o1 + fseg.len() + lseg.len() as int) =~= fseg + lseg) by {
        assert forall|t: int|
            0 <= t < fseg.len() + lseg.len() implies bytes.subrange(
            o1,
            o1 + fseg.len() + lseg.len() as int,
        )[t] == (fseg + lseg)[t] by {
            assert(bytes.subrange(o1, o1 + fseg.len() + lseg.len() as int)[t] == bytes[o1 + t]);
            assert(bytes.subrange(pos, pos + e.len() as int)[1 + t] == bytes[o1 + t]);
            assert(e[1 + t] == (fseg + lseg)[t]);
        }
    }
    let front = bytes.subrange(o1, o2);
    if iv.files is Some {
        let fs = iv.files->Some_0;
        let kf = spec_encode_bytes(spec_key_files());
        let fi = spec_encode_file_items(fs);
        assert(lseg.len() == 0);
        assert(front =~= fseg) by {
            assert(fseg + lseg =~= fseg);
        }
        assert(bytes.subrange(o1, o1 + kf.len() + 1) =~= kf + seq![108u8]) by {
            assert forall|t: int|
                0 <= t < kf.len() + 1 implies bytes.subrange(o1, o1 + kf.len() + 1)[t] == (kf
                + seq![108u8])[t] by {
                assert(bytes.subrange(o1, o1 + kf.len() + 1)[t] == bytes[o1 + t]);
                assert(front[t] == bytes[o1 + t]);
                assert(fseg[t] == (kf + seq![108u8])[t]);
            }
        }
        assert(bytes.subrange(o1 + kf.len() + 1, o1 + kf.len() + 1 + fi.len() + 1) =~= fi
            + seq![101u8]) by {
            assert forall|t: int|
                0 <= t < fi.len() + 1 implies bytes.subrange(
                o1 + kf.len() + 1,
                o1 + kf.len() + 1 + fi.len() + 1,
            )[t] == (fi + seq![101u8])[t] by {
                assert(bytes.subrange(o1 + kf.len() + 1, o1 + kf.len() + 1 + fi.len() + 1)[t]
                    == bytes[o1 + kf.len() + 1 + t]);
                assert(front[kf.len() + 1 + t] == bytes[o1 + kf.len() + 1 + t]);
                assert(fseg[kf.len() + 1 + t] == (fi + seq![101u8])[t]);
            }
        }
        assert(bytes[o1] == 53) by {
            lemma_dec_round_trip(5);
            assert(spec_dec(5) =~= seq![53u8]);
            assert(kf[0] == 53);
            assert(front[0] == bytes[o1]);
            assert(fseg[0] == kf[0]);
        }
    } else {
        let l = iv.length->Some_0;
        let kl = spec_encode_bytes(spec_key_length());
        let li = spec_encode_int(l as int);
        assert(fseg.len() == 0);
        assert(front =~= lseg) by {
            assert(fseg + lseg =~= lseg);
        }
        assert(bytes.subrange(o1, o1 + kl.len()) =~= kl) by {
            assert forall|t: int|
                0 <= t < kl.len() implies bytes.subrange(o1, o1 + kl.len() as int)[t]
                    == kl[t] by {
                assert(bytes.subrange(o1, o1 + kl.len() as int)[t] == bytes[o1 + t]);
                assert(front[t] == bytes[o1 + t]);
                assert(lseg[t] == kl[t]);
            }
        }
        assert(bytes.subrange(o1 + kl.len(), o1 + kl.len() + li.len()) =~= li) by {
            assert forall|t: int|
                0 <= t < li.len() implies bytes.subrange(
                o1 + kl.len(),
                o1 + kl.len() + li.len() as int,
            )[t] == li[t] by {
                assert(bytes.subrange(o1 + kl.len(), o1 + kl.len() + li.len() as int)[t]
                    == bytes[o1 + kl.len() + t]);
                assert(front[kl.len() + t] == bytes[o1 + kl.len() + t]);
                assert(lseg[kl.len() + t] == li[t]);
            }
        }
        assert(bytes[o1] == 54) by {
            lemma_dec_round_trip(6);
            assert(spec_dec(6) =~= seq![54u8]);
            assert(kl[0] == 54);
            assert(front[0] == bytes[o1]);
            assert(lseg[0] == kl[0]);
        }
    }
    assert(bytes.subrange(o2, onm) =~= spec_encode_bytes(spec_key_name())) by {
        assert forall|t: int|
            0 <= t < spec_encode_bytes(spec_key_name()).len() implies bytes.subrange(o2, onm)[t]
                == spec_encode_bytes(spec_key_name())[t] by {
            assert(bytes.subrange(o2, onm)[t] == bytes[o2 + t]);
            assert(bytes.subrange(pos, pos + e.len() as int)[o2 - pos + t] == bytes[o2 + t]);
            assert(e[o2 - pos + t] == spec_encode_bytes(spec_key_name())[t]);
        }
    }
    assert(bytes.subrange(onm, o3) =~= spec_encode_bytes(iv.name)) by {
        assert forall|t: int|
            0 <= t < spec_encode_bytes(iv.name).len() implies bytes.subrange(onm, o3)[t]
                == spec_encode_bytes(iv.name)[t] by {
            assert(bytes.subrange(onm, o3)[t] == bytes[onm + t]);
            assert(bytes.subrange(pos, pos + e.len() as int)[onm - pos + t] == bytes[onm + t]);
            assert(e[onm - pos + t] == spec_encode_bytes(iv.name)[t]);
        }
    }
    assert(bytes.subrange(o3, opl) =~= spec_encode_bytes(spec_key_piece_length())) by {
        assert forall|t: int|
            0 <= t < spec_encode_bytes(spec_key_piece_length()).len() implies bytes.subrange(
            o3,
            opl,
        )[t] == spec_encode_bytes(spec_key_piece_length())[t] by {
            assert(bytes.subrange(o3, opl)[t] == bytes[o3 + t]);
            assert(bytes.subrange(pos, pos + e.len() as int)[o3 - pos + t] == bytes[o3 + t]);
            assert(e[o3 - pos + t] == spec_encode_bytes(spec_key_piece_length())[t]);
        }
    }
    assert(bytes.subrange(opl, o4) =~= spec_encode_int(iv.piece_length as int)) by {
        assert forall|t: int|
            0 <= t < spec_encode_int(iv.piece_length as int).len() implies bytes.subrange(
            opl,
            o4,
        )[t] == spec_encode_int(iv.piece_length as int)[t] by {
            assert(bytes.subrange(opl, o4)[t] == bytes[opl + t]);
            assert(bytes.subrange(pos, pos + e.len() as int)[opl - pos + t] == bytes[opl + t]);
            assert(e[opl - pos + t] == spec_encode_int(iv.piece_length as int)[t]);
        }
    }
    assert(bytes.subrange(o4, ops) =~= spec_encode_bytes(spec_key_pieces())) by {
        assert forall|t: int|
            0 <= t < spec_encode_bytes(spec_key_pieces()).len() implies bytes.subrange(
            o4,
            ops,
        )[t] == spec_encode_bytes(spec_key_pieces())[t] by {
            assert(bytes.subrange(o4, ops)[t] == bytes[o4 + t]);
            assert(bytes.subrange(pos, pos + e.len() as int)[o4 - pos + t] == bytes[o4 + t]);
            assert(e[o4 - pos + t] == spec_encode_bytes(spec_key_pieces())[t]);
        }
    }
    assert(bytes.subrange(ops, o5) =~= spec_encode_bytes(iv.pieces)) by {
        assert forall|t: int|
            0 <= t < spec_encode_bytes(iv.pieces).len() implies bytes.subrange(ops, o5)[t]
                == spec_encode_bytes(iv.pieces)[t] by {
            assert(bytes.subrange(ops, o5)[t] == bytes[ops + t]);
            assert(bytes.subrange(pos, pos + e.len() as int)[ops - pos + t] == bytes[ops + t]);
            assert(e[ops - pos + t] == spec_encode_bytes(iv.pieces)[t]);
        }
    }
    assert(bytes[o5] == 101) by {
        assert(bytes.subrange(pos, pos + e.len() as int)[o5 - pos] == bytes[o5]);
        assert(e[o5 - pos] == 101);
    }
    assert(iv.name.len() <= spec_encode_bytes(iv.name).len());
    assert(iv.pieces.len() <= spec_encode_bytes(iv.pieces).len());
}


/// Strictly parses one canonical info dictionary.
#[verifier::rlimit(100)]
fn parse_canonical_info(bytes: &[u8], pos: usize) -> (r: Option<(Info, usize)>)
    requires
        pos <= bytes@.len(),
    ensures
        r matches Some(p) ==> pos < p.1 <= bytes@.len(),
        forall|iv: InfoView|
            #![trigger spec_encode_info(iv)]
            ((iv.files is Some <==> iv.length is None) && iv.piece_length <= u32::MAX && pos
                + spec_encode_info(iv).len() <= bytes@.len() && bytes@.subrange(
                pos as int,
                pos + spec_encode_info(iv).len() as int,
            ) == spec_encode_info(iv)) ==> (r matches Some(p) && p.0@ == iv && p.1 == pos
            + spec_encode_info(iv).len()),
{
    let n = bytes.len();
    if pos >= n || bytes[pos] != 100 {
        proof {
            assert forall|iv: InfoView|
                (iv.files is Some <==> iv.length is None) && iv.piece_length <= u32::MAX && pos
                    + spec_encode_info(iv).len() <= bytes@.len() && bytes@.subrange(
                    pos as int,
                    pos + spec_encode_info(iv).len() as int,
                ) == #[trigger] spec_encode_info(iv) implies false by {
                lemma_info_encoding_shape(bytes@, pos as int, iv);
            }
        }
        return None;
    }
    let mut files_val: Option<Vec<FileNode>> = None;
    let mut length_val: Option<i64> = None;
    let mut p = pos + 1;
    let kf = key_files();
    let mut lit_files: Vec<u8> = Vec::new();
    push_bytes_val(&mut lit_files, kf.as_slice());
    lit_files.push(108);
    proof {
        assert(lit_files@ =~= spec_encode_bytes(spec_key_files()) + seq![108u8]);
        lemma_dec_round_trip(5);
        assert(spec_dec(5) =~= seq![53u8]);
        assert(lit_files@[0] == 53);
    }
    match expect_bytes(bytes, p, &lit_files) {
        Some(pf) => {
            let (fs, p2) = match parse_canonical_files(bytes, pf) {
                Some(x) => x,
                None => {
                    proof {
                        assert forall|iv: InfoView|
                            (iv.files is Some <==> iv.length is None) && iv.piece_length
                                <= u32::MAX && pos + spec_encode_info(iv).len() <= bytes@.len()
                                && bytes@.subrange(
                                pos as int,
                                pos + spec_encode_info(iv).len() as int,
                            ) == #[trigger] spec_encode_info(iv) implies false by {
                            lemma_info_encoding_shape(bytes@, pos as int, iv);
                        }
                    }
                    return None;
                }
            };
            files_val = Some(fs);
            p = p2;
        }
        None => {
            let kl = key_length();
            let mut lit_len: Vec<u8> = Vec::new();
            push_bytes_val(&mut lit_len, kl.as_slice());
            proof {
                assert(lit_len@ =~= spec_encode_bytes(spec_key_length()));
            }
            let pl = match expect_bytes(bytes, p, &lit_len) {
                Some(x) => x,
                None => {
                    proof {
                        assert forall|iv: InfoView|
                            (iv.files is Some <==> iv.length is None) && iv.piece_length
                                <= u32::MAX && pos + spec_encode_info(iv).len() <= bytes@.len()
                                && bytes@.subrange(
                                pos as int,
                                pos + spec_encode_info(iv).len() as int,
                            ) == #[trigger] spec_encode_info(iv) implies false by {
                            lemma_info_encoding_shape(bytes@, pos as int, iv);
                        }
                    }
                    return None;
                }
            };
            let (l, p2) = match parse_int_val(bytes, pl) {
                Ok(x) => x,
                Err(_) => {
                    proof {
                        assert forall|iv: InfoView|
                            (iv.files is Some <==> iv.length is None) && iv.piece_length
                                <= u32::MAX && pos + spec_encode_info(iv).len() <= bytes@.len()
                                && bytes@.subrange(
                                pos as int,
                                pos + spec_encode_info(iv).len() as int,
                            ) == #[trigger] spec_encode_info(iv) implies false by {
                            lemma_info_encoding_shape(bytes@, pos as int, iv);
                        }
                    }
                    return None;
                }
            };
            length_val = Some(l);
            p = p2;
        }
    }
    let result = parse_canonical_info_tail(bytes, p, files_val, length_val, Ghost(pos as int));
    proof {
        assert forall|iv: InfoView|
            (iv.files is Some <==> iv.length is None) && iv.piece_length <= u32::MAX && pos
                + spec_encode_info(iv).len() <= bytes@.len() && bytes@.subrange(
                pos as int,
                pos + spec_encode_info(iv).len() as int,
            ) == #[trigger] spec_encode_info(iv) implies (result matches Some(x) && x.0@ == iv
            && x.1 == pos + spec_encode_info(iv).len()) by {
            lemma_info_encoding_shape(bytes@, pos as int, iv);
            assert(p == pos + 1 + spec_info_front_len(iv));
        }
    }
    result
}

/// The tail of a canonical info dictionary: `name`, `piece length`,
/// `pieces`, and the closing `e`, after the leading `files` or `length`
/// segment was consumed at position `p`.
#[verifier::rlimit(100)]
fn parse_canonical_info_tail(
    bytes: &[u8],
    p: usize,
    files_val: Option<Vec<FileNode>>,
    length_val: Option<i64>,
    pos0: Ghost<int>,
) -> (r: Option<(Info, usize)>)
    requires
        p <= bytes@.len(),
        0 <= pos0@,
    ensures
        r matches Some(x) ==> p < x.1 <= bytes@.len(),
        forall|iv: InfoView|
            #![trigger spec_encode_info(iv)]
            ((iv.files is Some <==> iv.length is None) && iv.piece_length <= u32::MAX && pos0@
                + spec_encode_info(iv).len() <= bytes@.len() && bytes@.subrange(
                pos0@,
                pos0@ + spec_encode_info(iv).len() as int,
            ) == spec_encode_info(iv) && p == pos0@ + 1 + spec_info_front_len(iv) && (match
            iv.files {
                Some(fsv) => files_val matches Some(fv) && fv@.map_values(|x: FileNode| x@)
                    == fsv,
                None => files_val is None,
            }) && length_val == iv.length) ==> (r matches Some(x) && x.0@ == iv && x.1 == pos0@
            + spec_encode_info(iv).len()),
{
    let n = bytes.len();
    let kn = key_name();
    let mut lit_name: Vec<u8> = Vec::new();
    push_bytes_val(&mut lit_name, kn.as_slice());
    proof {
        assert(lit_name@ =~= spec_encode_bytes(spec_key_name()));
    }
    let pn = match expect_bytes(bytes, p, &lit_name) {
        Some(x) => x,
        None => {
            proof {
                assert forall|iv: InfoView|
                    (iv.files is Some <==> iv.length is None) && iv.piece_length <= u32::MAX
                        && pos0@ + spec_encode_info(iv).len() <= bytes@.len() && bytes@.subrange(
                        pos0@,
                        pos0@ + spec_encode_info(iv).len() as int,
                    ) == #[trigger] spec_encode_info(iv) && p == pos0@ + 1 + spec_info_front_len(
                        iv,
                    ) implies false by {
                    lemma_info_encoding_shape(bytes@, pos0@, iv);
                }
            }
            return None;
        }
    };
    let (name, p_after_name) = match parse_string_val(bytes, pn) {
        Ok(x) => x,
        Err(_) => {
            proof {
                assert forall|iv: InfoView|
                    (iv.files is Some <==> iv.length is None) && iv.piece_length <= u32::MAX
                        && pos0@ + spec_encode_info(iv).len() <= bytes@.len() && bytes@.subrange(
                        pos0@,
                        pos0@ + spec_encode_info(iv).len() as int,
                    ) == #[trigger] spec_encode_info(iv) && p == pos0@ + 1 + spec_info_front_len(
                        iv,
                    ) implies false by {
                    lemma_info_encoding_shape(bytes@, pos0@, iv);
                }
            }
            return None;
        }
    };
    let kpl = key_piece_length();
    let mut lit_pl: Vec<u8> = Vec::new();
    push_bytes_val(&mut lit_pl, kpl.as_slice());
    proof {
        assert(lit_pl@ =~= spec_encode_bytes(spec_key_piece_length()));
    }
    let ppl = match expect_bytes(bytes, p_after_name, &lit_pl) {
        Some(x) => x,
        None => {
            proof {
                assert forall|iv: InfoView|
                    (iv.files is Some <==> iv.length is None) && iv.piece_length <= u32::MAX
                        && pos0@ + spec_encode_info(iv).len() <= bytes@.len() && bytes@.subrange(
                        pos0@,
                        pos0@ + spec_encode_info(iv).len() as int,
                    ) == #[trigger] spec_encode_info(iv) && p == pos0@ + 1 + spec_info_front_len(
                        iv,
                    ) implies false by {
                    lemma_info_encoding_shape(bytes@, pos0@, iv);
                }
            }
            return None;
        }
    };
    let (plv, p_after_pl) = match parse_int_val(bytes, ppl) {
        Ok(x) => x,
        Err(_) => {
            proof {
                assert forall|iv: InfoView|
                    (iv.files is Some <==> iv.length is None) && iv.piece_length <= u32::MAX
                        && pos0@ + spec_encode_info(iv).len() <= bytes@.len() && bytes@.subrange(
                        pos0@,
                        pos0@ + spec_encode_info(iv).len() as int,
                    ) == #[trigger] spec_encode_info(iv) && p == pos0@ + 1 + spec_info_front_len(
                        iv,
                    ) implies false by {
                    lemma_info_encoding_shape(bytes@, pos0@, iv);
                    let pli: i64 = iv.piece_length as i64;
                    assert(spec_encode_int(pli as int) == spec_encode_int(
                        iv.piece_length as int,
                    ));
                }
            }
            return None;
        }
    };
    if plv < 0 || plv > u32::MAX as i64 {
        proof {
            assert forall|iv: InfoView|
                (iv.files is Some <==> iv.length is None) && iv.piece_length <= u32::MAX
                    && pos0@ + spec_encode_info(iv).len() <= bytes@.len() && bytes@.subrange(
                    pos0@,
                    pos0@ + spec_encode_info(iv).len() as int,
                ) == #[trigger] spec_encode_info(iv) && p == pos0@ + 1 + spec_info_front_len(
                    iv,
                ) implies false by {
                lemma_info_encoding_shape(bytes@, pos0@, iv);
                let pli: i64 = iv.piece_length as i64;
                assert(spec_encode_int(pli as int) == spec_encode_int(iv.piece_length as int));
            }
        }
        return None;
    }
    let kps = key_pieces();
    let mut lit_ps: Vec<u8> = Vec::new();
    push_bytes_val(&mut lit_ps, kps.as_slice());
    proof {
        assert(lit_ps@ =~= spec_encode_bytes(spec_key_pieces()));
    }
    let pps = match expect_bytes(bytes, p_after_pl, &lit_ps) {
        Some(x) => x,
        None => {
            proof {
                assert forall|iv: InfoView|
                    (iv.files is Some <==> iv.length is None) && iv.piece_length <= u32::MAX
                        && pos0@ + spec_encode_info(iv).len() <= bytes@.len() && bytes@.subrange(
                        pos0@,
                        pos0@ + spec_encode_info(iv).len() as int,
                    ) == #[trigger] spec_encode_info(iv) && p == pos0@ + 1 + spec_info_front_len(
                        iv,
                    ) implies false by {
                    lemma_info_encoding_shape(bytes@, pos0@, iv);
                    let pli: i64 = iv.piece_length as i64;
                    assert(spec_encode_int(pli as int) == spec_encode_int(
                        iv.piece_length as int,
                    ));
                }
            }
            return None;
        }
    };
    let (pieces, p_after_ps) = match parse_string_val(bytes, pps) {
        Ok(x) => x,
        Err(_) => {
            proof {
                assert forall|iv: InfoView|
                    (iv.files is Some <==> iv.length is None) && iv.piece_length <= u32::MAX
                        && pos0@ + spec_encode_info(iv).len() <= bytes@.len() && bytes@.subrange(
                        pos0@,
                        pos0@ + spec_encode_info(iv).len() as int,
                    ) == #[trigger] spec_encode_info(iv) && p == pos0@ + 1 + spec_info_front_len(
                        iv,
                    ) implies false by {
                    lemma_info_encoding_shape(bytes@, pos0@, iv);
                    let pli: i64 = iv.piece_length as i64;
                    assert(spec_encode_int(pli as int) == spec_encode_int(
                        iv.piece_length as int,
                    ));
                }
            }
            return None;
        }
    };
    if p_after_ps >= n || bytes[p_after_ps] != 101 {
        proof {
            assert forall|iv: InfoView|
                (iv.files is Some <==> iv.length is None) && iv.piece_length <= u32::MAX
                    && pos0@ + spec_encode_info(iv).len() <= bytes@.len() && bytes@.subrange(
                    pos0@,
                    pos0@ + spec_encode_info(iv).len() as int,
                ) == #[trigger] spec_encode_info(iv) && p == pos0@ + 1 + spec_info_front_len(
                    iv,
                ) implies false by {
                lemma_info_encoding_shape(bytes@, pos0@, iv);
                let pli: i64 = iv.piece_length as i64;
                assert(spec_encode_int(pli as int) == spec_encode_int(iv.piece_length as int));
            }
        }
        return None;
    }
    let info = Info {
        name,
        piece_length: plv as usize,
        pieces,
        length: length_val,
        files: files_val,
    };
    proof {
        assert forall|iv: InfoView|
            (iv.files is Some <==> iv.length is None) && iv.piece_length <= u32::MAX && pos0@
                + spec_encode_info(iv).len() <= bytes@.len() && bytes@.subrange(
                pos0@,
                pos0@ + spec_encode_info(iv).len() as int,
            ) == #[trigger] spec_encode_info(iv) && p == pos0@ + 1 + spec_info_front_len(iv)
                && (match iv.files {
                Some(fsv) => files_val matches Some(fv) && fv@.map_values(|x: FileNode| x@)
                    == fsv,
                None => files_val is None,
            }) && length_val == iv.length implies (info@ == iv && p_after_ps + 1 == pos0@
            + spec_encode_info(iv).len()) by {
            lemma_info_encoding_shape(bytes@, pos0@, iv);
            let pli: i64 = iv.piece_length as i64;
            assert(spec_encode_int(pli as int) == spec_encode_int(iv.piece_length as int));
            assert(plv == pli);
            assert(info@.piece_length == iv.piece_length);
            if iv.files is Some {
                assert(info@.files == iv.files);
                assert(info@.length == iv.length);
            } else {
                assert(info@.files == iv.files);
            }
            assert(info@ =~= iv);
        }
    }
    Some((info, p_after_ps + 1))
}


/// The length of the optional `announce-list` segment of an encoded
/// torrent.
pub open spec fn spec_al_len(tv: TorrentView) -> int {
    match tv.announce_list {
        Some(tiers) => spec_encode_bytes(spec_key_announce_list()).len() + 1
            + spec_encode_tier_items(tiers).len() + 1int,
        None => 0int,
    }
}

/// The exact layout of an encoded torrent.
#[verifier::rlimit(100)]
proof fn lemma_torrent_encoding_shape(bytes: Seq<u8>, tv: TorrentView)
    requires
        bytes == spec_encode_torrent(tv),
    ensures
        ({
            let pa = 1 + spec_encode_bytes(spec_key_announce()).len() as int;
            let pb = pa + spec_encode_bytes(tv.announce).len() as int;
            let pc = pb + spec_al_len(tv);
            let pd = pc + spec_encode_bytes(spec_key_info()).len() as int;
            let pe = pd + spec_encode_info(tv.info).len() as int;
            &&& bytes.len() == pe + 1
            &&& bytes[0] == 100
            &&& bytes.subrange(1, pa as int) == spec_encode_bytes(spec_key_announce())
            &&& bytes.subrange(pa as int, pb as int) == spec_encode_bytes(tv.announce)
            &&& (tv.announce_list matches Some(tiers) ==> ({
                let kal = spec_encode_bytes(spec_key_announce_list());
                let ti = spec_encode_tier_items(tiers);
                &&& bytes.subrange(pb as int, pb + kal.len() + 1) == kal + seq![108u8]
                &&& bytes.subrange(pb + kal.len() + 1, pb + kal.len() + 1 + ti.len() + 1) == ti
                    + seq![101u8]
                &&& bytes[pb] == 49
            }))
            &&& bytes.subrange(pc as int, pd as int) == spec_encode_bytes(spec_key_info())
            &&& bytes[pc] == 52
            &&& bytes.subrange(pd as int, pe as int) == spec_encode_info(tv.info)
            &&& bytes[pe] == 101
            &&& tv.announce.len() <= bytes.len()
        }),
{
    let e = spec_encode_torrent(tv);
    let alseg: Seq<u8> = match tv.announce_list {
        Some(tiers) => spec_encode_bytes(spec_key_announce_list()) + seq![108u8]
            + spec_encode_tier_items(tiers) + seq![101u8],
        None => Seq::<u8>::empty(),
    };
    let pa = 1 + spec_encode_bytes(spec_key_announce()).len() as int;
    let pb = pa + spec_encode_bytes(tv.announce).len() as int;
    let pc = pb + spec_al_len(tv);
    let pd = pc + spec_encode_bytes(spec_key_info()).len() as int;
    let pe = pd + spec_encode_info(tv.info).len() as int;
    assert(e == seq![100u8] + spec_encode_bytes(spec_key_announce()) + spec_encode_bytes(
        tv.announce,
    ) + alseg + spec_encode_bytes(spec_key_info()) + spec_encode_info(tv.info) + seq![101u8]);
    assert(alseg.len() == spec_al_len(tv));
    assert(bytes.subrange(1, pa as int) =~= spec_encode_bytes(spec_key_announce())) by {
        assert forall|t: int|
            0 <= t < spec_encode_bytes(spec_key_announce()).len() implies bytes.subrange(
            1,
            pa as int,
        )[t] == spec_encode_bytes(spec_key_announce())[t] by {
            assert(bytes.subrange(1, pa as int)[t] == bytes[1 + t]);
            assert(e[1 + t] == spec_encode_bytes(spec_key_announce())[t]);
        }
    }
    assert(bytes.subrange(pa as int, pb as int) =~= spec_encode_bytes(tv.announce)) by {
        assert forall|t: int|
            0 <= t < spec_encode_bytes(tv.announce).len() implies bytes.subrange(
            pa as int,
            pb as int,
        )[t] == spec_encode_bytes(tv.announce)[t] by {
            assert(bytes.subrange(pa as int, pb as int)[t] == bytes[pa + t]);
            assert(e[pa + t] == spec_encode_bytes(tv.announce)[t]);
        }
    }
    if tv.announce_list is Some {
        let tiers = tv.announce_list->Some_0;
        let kal = spec_encode_bytes(spec_key_announce_list());
        let ti = spec_encode_tier_items(tiers);
        assert(bytes.subrange(pb as int, pb + kal.len() + 1) =~= kal + seq![108u8]) by {
            assert forall|t: int|
                0 <= t < kal.len() + 1 implies bytes.subrange(pb as int, pb + kal.len() + 1)[t]
                    == (kal + seq![108u8])[t] by {
                assert(bytes.subrange(pb as int, pb + kal.len() + 1)[t] == bytes[pb + t]);
                assert(e[pb + t] == alseg[t]);
                assert(alseg[t] == (kal + seq![108u8])[t]);
            }
        }
        assert(bytes.subrange(pb + kal.len() + 1, pb + kal.len() + 1 + ti.len() + 1) =~= ti
            + seq![101u8]) by {
            assert forall|t: int|
                0 <= t < ti.len() + 1 implies bytes.subrange(
                pb + kal.len() + 1,
                pb + kal.len() + 1 + ti.len() + 1,
            )[t] == (ti + seq![101u8])[t] by {
                assert(bytes.subrange(pb + kal.len() + 1, pb + kal.len() + 1 + ti.len() + 1)[t]
                    == bytes[pb + kal.len() + 1 + t]);
                assert(e[pb + kal.len() + 1 + t] == alseg[kal.len() + 1 + t]);
                assert(alseg[kal.len() + 1 + t] == (ti + seq![101u8])[t]);
            }
        }
        assert(bytes[pb] == 49) by {
            lemma_dec_round_trip(13);
            assert(spec_dec(1) =~= seq![49u8]);
            assert(spec_dec(13) =~= seq![49u8, 51u8]);
            assert(kal[0] == 49);
            assert(e[pb + 0] == alseg[0]);
        }
    }
    assert(bytes.subrange(pc as int, pd as int) =~= spec_encode_bytes(spec_key_info())) by {
        assert forall|t: int|
            0 <= t < spec_encode_bytes(spec_key_info()).len() implies bytes.subrange(
            pc as int,
            pd as int,
        )[t] == spec_encode_bytes(spec_key_info())[t] by {
            assert(bytes.subrange(pc as int, pd as int)[t] == bytes[pc + t]);
            assert(e[pc + t] == spec_encode_bytes(spec_key_info())[t]);
        }
    }
    assert(bytes[pc] == 52) by {
        lemma_dec_round_trip(4);
        assert(spec_dec(4) =~= seq![52u8]);
        assert(spec_encode_bytes(spec_key_info())[0] == 52);
        assert(bytes.subrange(pc as int, pd as int)[0] == bytes[pc]);
    }
    assert(bytes.subrange(pd as int, pe as int) =~= spec_encode_info(tv.info)) by {
        assert forall|t: int|
            0 <= t < spec_encode_info(tv.info).len() implies bytes.subrange(
            pd as int,
            pe as int,
        )[t] == spec_encode_info(tv.info)[t] by {
            assert(bytes.subrange(pd as int, pe as int)[t] == bytes[pd + t]);
            assert(e[pd + t] == spec_encode_info(tv.info)[t]);
        }
    }
    assert(bytes[pe] == 101) by {
        assert(e[pe] == 101);
    }
    assert(tv.announce.len() <= spec_encode_bytes(tv.announce).len());
}

/// Strictly parses a whole canonical torrent, returning it with the byte
/// bounds of its info dictionary. This parser accepts only the canonical
/// layout; anything else falls back to the lenient parser.
#[verifier::rlimit(100)]
fn parse_canonical(bytes: &[u8]) -> (r: Option<(Torrent, usize, usize)>)
    ensures
        r matches Some(t) ==> t.1 <= t.2 <= bytes@.len(),
        forall|tv: TorrentView|
            #![trigger spec_encode_torrent(tv)]
            (bytes@ == spec_encode_torrent(tv) && (tv.info.files is Some <==> tv.info.length
                is None) && tv.info.piece_length <= u32::MAX) ==> (r matches Some(t)
                && t.0.info@ == tv.info && bytes@.subrange(t.1 as int, t.2 as int)
                == spec_encode_info(tv.info)),
{
    let n = bytes.len();
    if n == 0 || bytes[0] != 100 {
        proof {
            assert forall|tv: TorrentView|
                bytes@ == #[trigger] spec_encode_torrent(tv) && (tv.info.files is Some
                    <==> tv.info.length is None) && tv.info.piece_length <= u32::MAX implies
                false by {
                lemma_torrent_encoding_shape(bytes@, tv);
            }
        }
        return None;
    }
    let ka = key_announce();
    let mut lit_ann: Vec<u8> = Vec::new();
    push_bytes_val(&mut lit_ann, ka.as_slice());
    proof {
        assert(lit_ann@ =~= spec_encode_bytes(spec_key_announce()));
    }
    let p1 = match expect_bytes(bytes, 1, &lit_ann) {
        Some(x) => x,
        None => {
            proof {
                assert forall|tv: TorrentView|
                    bytes@ == #[trigger] spec_encode_torrent(tv) && (tv.info.files is Some
                        <==> tv.info.length is None) && tv.info.piece_length <= u32::MAX implies
                    false by {
                    lemma_torrent_encoding_shape(bytes@, tv);
                }
            }
            return None;
        }
    };
    let (announce, p2) = match parse_string_val(bytes, p1) {
        Ok(x) => x,
        Err(_) => {
            proof {
                assert forall|tv: TorrentView|
                    bytes@ == #[trigger] spec_encode_torrent(tv) && (tv.info.files is Some
                        <==> tv.info.length is None) && tv.info.piece_length <= u32::MAX implies
                    false by {
                    lemma_torrent_encoding_shape(bytes@, tv);
                }
            }
            return None;
        }
    };
    let result = parse_canonical_rest(bytes, announce, p2);
    proof {
        assert forall|tv: TorrentView|
            bytes@ == #[trigger] spec_encode_torrent(tv) && (tv.info.files is Some
                <==> tv.info.length is None) && tv.info.piece_length <= u32::MAX implies (result
            matches Some(t) && t.0.info@ == tv.info && bytes@.subrange(t.1 as int, t.2 as int)
            == spec_encode_info(tv.info)) by {
            lemma_torrent_encoding_shape(bytes@, tv);
            assert(p2 == 1 + spec_encode_bytes(spec_key_announce()).len() + spec_encode_bytes(
                tv.announce,
            ).len());
        }
    }
    result
}

/// The rest of a canonical torrent after the `announce` entry: the
/// optional `announce-list`, the `info` dictionary, and the closing `e`.
#[verifier::rlimit(100)]
fn parse_canonical_rest(bytes: &[u8], announce: Vec<u8>, p2: usize) -> (r: Option<
    (Torrent, usize, usize),
>)
    requires
        p2 <= bytes@.len(),
    ensures
        r matches Some(t) ==> t.1 <= t.2 <= bytes@.len(),
        forall|tv: TorrentView|
            #![trigger spec_encode_torrent(tv)]
            (bytes@ == spec_encode_torrent(tv) && (tv.info.files is Some <==> tv.info.length
                is None) && tv.info.piece_length <= u32::MAX && p2 == 1 + spec_encode_bytes(
                spec_key_announce(),
            ).len() + spec_encode_bytes(tv.announce).len()) ==> (r matches Some(t) && t.0.info@
            == tv.info && bytes@.subrange(t.1 as int, t.2 as int) == spec_encode_info(tv.info)),
{
    let n = bytes.len();
    let kal = key_announce_list();
    let mut lit_al: Vec<u8> = Vec::new();
    push_bytes_val(&mut lit_al, kal.as_slice());
    lit_al.push(108);
    proof {
        assert(lit_al@ =~= spec_encode_bytes(spec_key_announce_list()) + seq![108u8]);
        lemma_dec_round_trip(13);
        assert(spec_dec(1) =~= seq![49u8]);
        assert(spec_dec(13) =~= seq![49u8, 51u8]);
        assert(lit_al@[0] == 49);
    }
    let mut announce_list: Option<Vec<Vec<Vec<u8>>>> = None;
    let mut p3 = p2;
    match expect_bytes(bytes, p2, &lit_al) {
        Some(pt) => {
            let (tiers, pt2) = match parse_canonical_tiers(bytes, pt) {
                Some(x) => x,
                None => {
                    proof {
                        assert forall|tv: TorrentView|
                            bytes@ == #[trigger] spec_encode_torrent(tv) && (tv.info.files
                                is Some <==> tv.info.length is None) && tv.info.piece_length
                                <= u32::MAX && p2 == 1 + spec_encode_bytes(
                                spec_key_announce(),
                            ).len() + spec_encode_bytes(tv.announce).len() implies false by {
                            lemma_torrent_encoding_shape(bytes@, tv);
                        }
                    }
                    return None;
                }
            };
            announce_list = Some(tiers);
            p3 = pt2;
        }
        None => {}
    }
    let ki = key_info();
    let mut lit_info: Vec<u8> = Vec::new();
    push_bytes_val(&mut lit_info, ki.as_slice());
    proof {
        assert(lit_info@ =~= spec_encode_bytes(spec_key_info()));
        lemma_dec_round_trip(4);
        assert(spec_dec(4) =~= seq![52u8]);
        assert(lit_info@[0] == 52);
    }
    let a = match expect_bytes(bytes, p3, &lit_info) {
        Some(x) => x,
        None => {
            proof {
                assert forall|tv: TorrentView|
                    bytes@ == #[trigger] spec_encode_torrent(tv) && (tv.info.files is Some
                        <==> tv.info.length is None) && tv.info.piece_length <= u32::MAX && p2
                        == 1 + spec_encode_bytes(spec_key_announce()).len() + spec_encode_bytes(
                        tv.announce,
                    ).len() implies false by {
                    lemma_torrent_encoding_shape(bytes@, tv);
                }
            }
            return None;
        }
    };
    let (info, b) = match parse_canonical_info(bytes, a) {
        Some(x) => x,
        None => {
            proof {
                assert forall|tv: TorrentView|
                    bytes@ == #[trigger] spec_encode_torrent(tv) && (tv.info.files is Some
                        <==> tv.info.length is None) && tv.info.piece_length <= u32::MAX && p2
                        == 1 + spec_encode_bytes(spec_key_announce()).len() + spec_encode_bytes(
                        tv.announce,
                    ).len() implies false by {
                    lemma_torrent_encoding_shape(bytes@, tv);
                }
            }
            return None;
        }
    };
    if b >= n || bytes[b] != 101 || b + 1 != n {
        proof {
            assert forall|tv: TorrentView|
                bytes@ == #[trigger] spec_encode_torrent(tv) && (tv.info.files is Some
                    <==> tv.info.length is None) && tv.info.piece_length <= u32::MAX && p2 == 1
                    + spec_encode_bytes(spec_key_announce()).len() + spec_encode_bytes(
                    tv.announce,
                ).len() implies false by {
                lemma_torrent_encoding_shape(bytes@, tv);
            }
        }
        return None;
    }
    let t = Torrent { announce, announce_list, info };
    proof {
        assert forall|tv: TorrentView|
            bytes@ == #[trigger] spec_encode_torrent(tv) && (tv.info.files is Some
                <==> tv.info.length is None) && tv.info.piece_length <= u32::MAX && p2 == 1
                + spec_encode_bytes(spec_key_announce()).len() + spec_encode_bytes(
                tv.announce,
            ).len() implies (t.info@ == tv.info && bytes@.subrange(a as int, b as int)
            == spec_encode_info(tv.info)) by {
            lemma_torrent_encoding_shape(bytes@, tv);
        }
    }
    Some((t, a, b))
}

/// The canonical re-encoding of the info dictionary occurs verbatim in the
/// parsed input.
pub open spec fn spec_canonical_info(bytes: Seq<u8>, info: InfoView) -> bool {
    exists|a: int, b: int|
        0 <= a <= b <= bytes.len() && spec_encode_info(info) == #[trigger] bytes.subrange(a, b)
}

impl Torrent {
    /// Parses a metainfo file. A torrent is returned only when the
    /// top-level dictionary holds `announce` and `info`, the metainfo
    /// invariants hold, and the info dictionary re-encodes byte for byte to
    /// the segment it was parsed from — so the info-hash computed from the
    /// parsed torrent is the hash of the original info segment. Success is
    /// owed on every canonical encoding of a well-formed torrent: a strict
    /// canonical reading is tried first, and anything else (reordered or
    /// unknown keys, non-canonical integers) goes through a lenient pass
    /// with the same final checks.
    pub fn load(bytes: &[u8]) -> (r: Result<Torrent, BencodeError>)
        ensures
            r matches Ok(t) ==> spec_info_wf(t.info@) && spec_canonical_info(bytes@, t.info@),
            forall|tv: TorrentView|
                #![trigger spec_encode_torrent(tv)]
                (bytes@ == spec_encode_torrent(tv) && spec_info_wf(tv.info)) ==> r is Ok,
    {
        match parse_canonical(bytes) {
            Some((t, a, b)) => {
                let ok_wf = check_info_wf(&t.info);
                let enc = encode_info(&t.info);
                let seg = vstd::slice::slice_subrange(bytes, a, b);
                let ok_seg = crate::bytes::eq_bytes(enc.as_slice(), seg);
                if ok_wf && ok_seg {
                    proof {
                        assert(spec_encode_info(t.info@) == bytes@.subrange(a as int, b as int));
                        assert(spec_canonical_info(bytes@, t.info@));
                    }
                    return Ok(t);
                }
                proof {
                    assert forall|tv: TorrentView|
                        bytes@ == #[trigger] spec_encode_torrent(tv) && spec_info_wf(tv.info)
                            implies false by {
                        assert(t.info@ == tv.info);
                        assert(ok_wf);
                        assert(enc@ == spec_encode_info(tv.info));
                        assert(seg@ == bytes@.subrange(a as int, b as int));
                        assert(ok_seg);
                    }
                }
                Self::load_lenient(bytes)
            }
            None => {
                proof {
                    assert forall|tv: TorrentView|
                        bytes@ == #[trigger] spec_encode_torrent(tv) && spec_info_wf(tv.info)
                            implies false by {}
                }
                Self::load_lenient(bytes)
            }
        }
    }

    /// The lenient pass: accepts any key order and skips unknown keys, then
    /// validates the metainfo invariants and the canonical re-encoding of
    /// the info dictionary.
    fn load_lenient(bytes: &[u8]) -> (r: Result<Torrent, BencodeError>)
        ensures
            r matches Ok(t) ==> spec_info_wf(t.info@) && spec_canonical_info(bytes@, t.info@),
    {
        let n = bytes.len();
        if n == 0 || bytes[0] != 100 {
            return Err(BencodeError::Syntax);
        }
        let k_announce = key_announce();
        let k_announce_list = key_announce_list();
        let k_info = key_info();
        let mut announce: Option<Vec<u8>> = None;
        let mut announce_list: Option<Vec<Vec<Vec<u8>>>> = None;
        let mut info: Option<Info> = None;
        let mut info_start: usize = 0;
        let mut info_end: usize = 0;
        let mut p: usize = 1;
        while p < n
            invariant
                n == bytes@.len(),
                0 < p <= n,
                info_start <= info_end <= n,
            decreases n - p,
        {
            if bytes[p] == 101 {
                return match (announce, info) {
                    (Some(a), Some(i)) => {
                        if !check_info_wf(&i) {
                            return Err(BencodeError::BadMetainfo);
                        }
                        let enc = encode_info(&i);
                        let seg = vstd::slice::slice_subrange(bytes, info_start, info_end);
                        if !eq_bytes(enc.as_slice(), seg) {
                            return Err(BencodeError::NonCanonical);
                        }
                        proof {
                            assert(spec_encode_info(i@) == bytes@.subrange(
                                info_start as int,
                                info_end as int,
                            ));
                            assert(spec_canonical_info(bytes@, i@));
                        }
                        Ok(Torrent { announce: a, announce_list, info: i })
                    },
                    _ => Err(BencodeError::BadMetainfo),
                };
            }
            let (key, pk) = match parse_string_val(bytes, p) {
                Ok(x) => x,
                Err(e) => {
                    return Err(e);
                }
            };
            if eq_bytes(key.as_slice(), k_announce.as_slice()) {
                let (v, p2) = match parse_string_val(bytes, pk) {
                    Ok(x) => x,
                    Err(e) => {
                        return Err(e);
                    }
                };
                announce = Some(v);
                p = p2;
            } else if eq_bytes(key.as_slice(), k_announce_list.as_slice()) {
                let (v, p2) = match parse_tiers(bytes, pk) {
                    Ok(x) => x,
                    Err(e) => {
                        return Err(e);
                    }
                };
                announce_list = Some(v);
                p = p2;
            } else if eq_bytes(key.as_slice(), k_info.as_slice()) {
                let (i, p2) = match parse_info(bytes, pk) {
                    Ok(x) => x,
                    Err(e) => {
                        return Err(e);
                    }
                };
                info_start = pk;
                info_end = p2;
                info = Some(i);
                p = p2;
            } else {
                let p2 = match skip_value(bytes, pk) {
                    Ok(x) => x,
                    Err(e) => {
                        return Err(e);
                    }
                };
                p = p2;
            }
        }
        Err(BencodeError::Syntax)
    }

    /// SHA-1 of the canonical bencoding of the info dictionary; for a
    /// torrent accepted by `load`, this equals the SHA-1 of the original
    /// info segment of the file.
    pub fn calculate_info_hash(&self) -> (r: [u8; 20])
        ensures
            r@ == sha1_of(spec_encode_info(self.info@)),
    {
        let encoded = encode_info(&self.info);
        sha1_digest(encoded.as_slice())
    }
}

} // verus!
