//! The metainfo model: the parsed contents of a .torrent file, the piece
//! arithmetic derived from it, and the tracker URL list.

use vstd::prelude::*;

verus! {

/// Why a piece-indexed lookup failed.
#[derive(Debug, PartialEq, Eq, Structural, Clone, Copy)]
pub enum TorrentError {
    /// The piece index is not below the number of pieces.
    OutOfRange,
}

/// One file of a multi-file torrent.
#[derive(Debug, Clone, PartialEq)]
pub struct FileNode {
    /// Length of the file in bytes; never negative in a well-formed torrent.
    pub length: i64,
    /// The path components below the torrent's root directory, as the raw
    /// bytes of the metainfo.
    pub path: Vec<Vec<u8>>,
}

/// The info dictionary: file structure and piece integrity data.
#[derive(Debug, Clone, PartialEq)]
pub struct Info {
    /// Suggested file name (single-file) or root directory (multi-file).
    pub name: Vec<u8>,
    /// Nominal bytes per piece.
    pub piece_length: usize,
    /// Concatenated 20-byte SHA-1 hashes, one per piece.
    pub pieces: Vec<u8>,
    /// Total length in bytes; present exactly in single-file mode.
    pub length: Option<i64>,
    /// The file list; present exactly in multi-file mode.
    pub files: Option<Vec<FileNode>>,
}

/// The top-level dictionary of a metainfo file.
#[derive(Debug, Clone, PartialEq)]
pub struct Torrent {
    /// URL of the primary tracker, as raw bytes.
    pub announce: Vec<u8>,
    /// Optional tiers of backup tracker URLs.
    pub announce_list: Option<Vec<Vec<Vec<u8>>>>,
    /// The info dictionary.
    pub info: Info,
}

/// Mathematical model of a file entry.
#[verifier::ext_equal]
pub struct FileNodeView {
    pub length: i64,
    pub path: Seq<Seq<u8>>,
}

/// Mathematical model of the info dictionary.
#[verifier::ext_equal]
pub struct InfoView {
    pub name: Seq<u8>,
    pub piece_length: usize,
    pub pieces: Seq<u8>,
    pub length: Option<i64>,
    pub files: Option<Seq<FileNodeView>>,
}

/// Mathematical model of a torrent.
#[verifier::ext_equal]
pub struct TorrentView {
    pub announce: Seq<u8>,
    pub announce_list: Option<Seq<Seq<Seq<u8>>>>,
    pub info: InfoView,
}

impl View for FileNode {
    type V = FileNodeView;

    open spec fn view(&self) -> FileNodeView {
        FileNodeView { length: self.length, path: self.path.deep_view() }
    }
}

impl View for Info {
    type V = InfoView;

    open spec fn view(&self) -> InfoView {
        InfoView {
            name: self.name@,
            piece_length: self.piece_length,
            pieces: self.pieces@,
            length: self.length,
            files: match self.files {
                Some(fs) => Some(fs@.map_values(|f: FileNode| f@)),
                None => None,
            },
        }
    }
}

impl View for Torrent {
    type V = TorrentView;

    open spec fn view(&self) -> TorrentView {
        TorrentView {
            announce: self.announce@,
            announce_list: match self.announce_list {
                Some(tiers) => Some(tiers.deep_view()),
                None => None,
            },
            info: self.info@,
        }
    }
}

/// Sum of the declared file lengths, front to back.
pub open spec fn spec_sum_lengths(fs: Seq<FileNodeView>) -> int
    decreases fs.len(),
{
    if fs.len() == 0 {
        0
    } else {
        fs[0].length + spec_sum_lengths(fs.skip(1))
    }
}

/// Total number of bytes of the torrent: the single declared length, or the
/// sum of the file lengths.
pub open spec fn spec_total_length(info: InfoView) -> int {
    match info.length {
        Some(l) => l as int,
        None => match info.files {
            Some(fs) => spec_sum_lengths(fs),
            None => 0,
        },
    }
}

/// Number of pieces: one 20-byte hash per piece.
pub open spec fn spec_num_pieces(info: InfoView) -> int {
    info.pieces.len() as int / 20
}

/// Every declared file length is non-negative.
pub open spec fn spec_files_wf(fs: Seq<FileNodeView>) -> bool {
    forall|i: int| 0 <= i < fs.len() ==> fs[i].length >= 0
}

/// The invariant of a well-formed info dictionary: a positive piece length
/// that fits 32 bits, hashes in whole 20-byte units, exactly one of
/// `length` / `files`, non-negative lengths whose total fits an `i64`, and
/// as many hashes as `ceil(total / piece_length)` pieces.
pub open spec fn spec_info_wf(info: InfoView) -> bool {
    &&& 0 < info.piece_length <= u32::MAX
    &&& info.pieces.len() % 20 == 0
    &&& (info.length is Some <==> info.files is None)
    &&& (match info.length {
        Some(l) => l >= 0,
        None => true,
    })
    &&& (match info.files {
        Some(fs) => spec_files_wf(fs),
        None => true,
    })
    &&& spec_total_length(info) <= i64::MAX
    &&& spec_num_pieces(info) == (spec_total_length(info) + info.piece_length - 1)
        / (info.piece_length as int)
}

/// Size of piece `i`: the nominal piece length, except the last piece, which
/// takes the remainder of the total (or a whole piece when it divides evenly).
pub open spec fn spec_piece_size(info: InfoView, i: int) -> int {
    if i == spec_num_pieces(info) - 1 {
        let r = spec_total_length(info) % (info.piece_length as int);
        if r == 0 {
            info.piece_length as int
        } else {
            r
        }
    } else {
        info.piece_length as int
    }
}

/// Byte offset of piece `i` in the global stream.
pub open spec fn spec_piece_start(info: InfoView, i: int) -> int {
    i * info.piece_length
}

/// The sum of `spec_sum_lengths` peels off the head of a suffix.
proof fn lemma_sum_skip_succ(fs: Seq<FileNodeView>, i: int)
    requires
        0 <= i < fs.len(),
    ensures
        spec_sum_lengths(fs.skip(i)) == fs[i].length + spec_sum_lengths(fs.skip(i + 1)),
{
    assert(fs.skip(i).skip(1) =~= fs.skip(i + 1));
    assert(fs.skip(i)[0] == fs[i]);
}

/// A sum of non-negative lengths is non-negative.
proof fn lemma_sum_nonneg(fs: Seq<FileNodeView>)
    requires
        spec_files_wf(fs),
    ensures
        spec_sum_lengths(fs) >= 0,
    decreases fs.len(),
{
    if fs.len() > 0 {
        assert(spec_files_wf(fs.skip(1)));
        lemma_sum_nonneg(fs.skip(1));
    }
}

impl Torrent {
    /// Total size of the torrent in bytes.
    pub fn total_length(&self) -> (r: i64)
        requires
            spec_info_wf(self.info@),
        ensures
            r == spec_total_length(self.info@),
            r >= 0,
    {
        if let Some(len) = self.length_field() {
            return len;
        }
        match &self.info.files {
            Some(files) => {
                let ghost fsv = self.info@.files->Some_0;
                proof {
                    lemma_sum_nonneg(fsv);
                }
                let mut sum: i64 = 0;
                let mut i: usize = 0;
                proof {
                    assert(fsv.skip(0) =~= fsv);
                }
                while i < files.len()
                    invariant
                        spec_info_wf(self.info@),
                        self.info@.files == Some(fsv),
                        fsv == files@.map_values(|f: FileNode| f@),
                        i <= fsv.len(),
                        sum >= 0,
                        sum + spec_sum_lengths(fsv.skip(i as int)) == spec_sum_lengths(fsv),
                    decreases fsv.len() - i,
                {
                    proof {
                        lemma_sum_skip_succ(fsv, i as int);
                        assert(spec_files_wf(fsv.skip(i + 1)));
                        lemma_sum_nonneg(fsv.skip(i + 1));
                        assert(fsv[i as int].length >= 0);
                        assert(spec_sum_lengths(fsv) <= i64::MAX);
                    }
                    sum = sum + files[i].length;
                    i = i + 1;
                }
                proof {
                    assert(fsv.skip(fsv.len() as int) =~= Seq::<FileNodeView>::empty());
                }
                sum
            }
            None => 0,
        }
    }

    /// Reads the optional single-file length field.
    fn length_field(&self) -> (r: Option<i64>)
        ensures
            r == self.info@.length,
    {
        match self.info.length {
            Some(l) => Some(l),
            None => None,
        }
    }

    /// Number of pieces of the torrent.
    pub fn num_pieces(&self) -> (r: usize)
        ensures
            r == spec_num_pieces(self.info@),
    {
        self.info.pieces.len() / 20
    }

    /// The exact byte size of piece `piece_index`; only the last piece may be
    /// smaller than the nominal piece length.
    pub fn calculate_piece_size(&self, piece_index: usize) -> (r: u32)
        requires
            spec_info_wf(self.info@),
            piece_index < spec_num_pieces(self.info@),
        ensures
            r == spec_piece_size(self.info@, piece_index as int),
            0 < r <= self.info@.piece_length,
    {
        let piece_len = self.info.piece_length;
        let total_len = self.total_length();
        let num_pieces = self.info.pieces.len() / 20;
        proof {
            lemma_piece_size_bounds(self.info@, piece_index as int);
        }
        if piece_index == num_pieces - 1 {
            let remainder = total_len % (piece_len as i64);
            if remainder == 0 {
                piece_len as u32
            } else {
                remainder as u32
            }
        } else {
            piece_len as u32
        }
    }

    /// The expected SHA-1 hash of piece `piece_index`: bytes
    /// `[20 i, 20 i + 20)` of the `pieces` string. Out of range exactly when
    /// those bytes do not exist.
    pub fn get_piece_hash(&self, piece_index: usize) -> (r: Result<[u8; 20], TorrentError>)
        ensures
            match r {
                Ok(h) => 20 * piece_index + 20 <= self.info@.pieces.len() && h@
                    == self.info@.pieces.subrange(
                    20 * piece_index as int,
                    20 * piece_index as int + 20,
                ),
                Err(e) => 20 * piece_index + 20 > self.info@.pieces.len() && e
                    == TorrentError::OutOfRange,
            },
    {
        if piece_index >= self.info.pieces.len() / 20 {
            proof {
                let len = self.info@.pieces.len() as int;
                assert(20 * piece_index + 20 > len) by (nonlinear_arith)
                    requires
                        piece_index >= len / 20,
                        len >= 0,
                ;
            }
            return Err(TorrentError::OutOfRange);
        }
        proof {
            let len = self.info@.pieces.len() as int;
            assert(20 * piece_index + 20 <= len) by (nonlinear_arith)
                requires
                    piece_index < len / 20,
                    len >= 0,
            ;
        }
        let start = piece_index * 20;
        let mut hash: [u8; 20] = [0; 20];
        let mut i: usize = 0;
        while i < 20
            invariant
                i <= 20,
                20 * piece_index + 20 <= self.info@.pieces.len(),
                self.info@.pieces.len() <= usize::MAX,
                start == 20 * piece_index,
                forall|k: int| 0 <= k < i ==> hash@[k] == self.info@.pieces[start + k],
            decreases 20 - i,
        {
            hash[i] = self.info.pieces[start + i];
            i = i + 1;
        }
        proof {
            assert(hash@ =~= self.info@.pieces.subrange(
                20 * piece_index as int,
                20 * piece_index as int + 20,
            ));
        }
        Ok(hash)
    }

    /// Every tracker URL, the primary `announce` first, then the tiers in
    /// order, with duplicates dropped (first occurrence kept).
    pub fn get_tracker_urls(&self) -> (r: Vec<Vec<u8>>)
        ensures
            views_of(r@) == spec_dedup(
                spec_all_tracker_urls(self@),
                Seq::<Seq<u8>>::empty(),
            ),
    {
        let ghost announce_v = self.announce@;
        let mut flat: Vec<Vec<u8>> = Vec::new();
        flat.push(crate::bytes::clone_bytes(&self.announce));
        proof {
            assert(views_of(flat@) =~= seq![announce_v]);
        }
        match &self.announce_list {
            Some(tiers) => {
                let ghost tiers_dv = tiers.deep_view();
                proof {
                    assert(tiers_dv.take(0) =~= Seq::<Seq<Seq<u8>>>::empty());
                    assert(views_of(flat@) =~= seq![announce_v] + tiers_dv.take(0).flatten());
                }
                let mut ti: usize = 0;
                while ti < tiers.len()
                    invariant
                        tiers_dv == tiers.deep_view(),
                        ti <= tiers@.len(),
                        views_of(flat@) == seq![announce_v] + tiers_dv.take(ti as int).flatten(),
                    decreases tiers@.len() - ti,
                {
                    let tier = &tiers[ti];
                    let ghost tier_v = tiers_dv[ti as int];
                    proof {
                        assert(tier_v.take(0) =~= Seq::<Seq<u8>>::empty());
                        assert(views_of(flat@) + tier_v.take(0) =~= views_of(flat@));
                    }
                    let ghost flat0 = views_of(flat@);
                    let mut ui: usize = 0;
                    while ui < tier.len()
                        invariant
                            tiers_dv == tiers.deep_view(),
                            ti < tiers@.len(),
                            tier == tiers@[ti as int],
                            tier_v == tiers_dv[ti as int],
                            ui <= tier@.len(),
                            tier_v.len() == tier@.len(),
                            views_of(flat@) == flat0 + tier_v.take(ui as int),
                        decreases tier@.len() - ui,
                    {
                        let ghost prev = views_of(flat@);
                        flat.push(crate::bytes::clone_bytes(&tier[ui]));
                        proof {
                            assert(tier_v[ui as int] =~= tier@[ui as int]@);
                            assert(views_of(flat@) =~= prev.push(tier_v[ui as int]));
                            assert(flat0 + tier_v.take(ui as int + 1)
                                =~= prev.push(tier_v[ui as int]));
                        }
                        ui = ui + 1;
                    }
                    proof {
                        assert(tier_v.take(tier_v.len() as int) =~= tier_v);
                        tiers_dv.take(ti as int).lemma_flatten_push(tier_v);
                        assert(tiers_dv.take(ti as int).push(tier_v)
                            =~= tiers_dv.take(ti as int + 1));
                        assert(views_of(flat@) =~= seq![announce_v]
                            + tiers_dv.take(ti as int + 1).flatten());
                    }
                    ti = ti + 1;
                }
                proof {
                    assert(tiers_dv.take(tiers_dv.len() as int) =~= tiers_dv);
                    assert(views_of(flat@) =~= spec_all_tracker_urls(self@));
                }
            }
            None => {
                proof {
                    assert(views_of(flat@) =~= spec_all_tracker_urls(self@));
                }
            }
        }
        let ghost full = spec_all_tracker_urls(self@);
        let mut out: Vec<Vec<u8>> = Vec::new();
        proof {
            assert(full.skip(0) =~= full);
            assert(views_of(out@) =~= Seq::<Seq<u8>>::empty());
        }
        let mut i: usize = 0;
        while i < flat.len()
            invariant
                full == views_of(flat@),
                i <= flat@.len(),
                spec_dedup(full.skip(i as int), views_of(out@)) == spec_dedup(
                    full,
                    Seq::<Seq<u8>>::empty(),
                ),
            decreases flat@.len() - i,
        {
            let dup = contains_url(&out, &flat[i]);
            proof {
                assert(full.skip(i as int)[0] == full[i as int]);
                assert(full.skip(i as int).skip(1) =~= full.skip(i as int + 1));
                assert(full[i as int] == flat@[i as int]@);
            }
            if !dup {
                let ghost prev = views_of(out@);
                out.push(crate::bytes::clone_bytes(&flat[i]));
                proof {
                    assert(views_of(out@) =~= prev.push(full[i as int]));
                }
            }
            i = i + 1;
        }
        proof {
            assert(full.skip(flat@.len() as int) =~= Seq::<Seq<u8>>::empty());
        }
        out
    }
}

/// Decides the well-formedness of an info dictionary at run time; parsing
/// accepts a torrent only when this holds.
pub fn check_info_wf(info: &Info) -> (r: bool)
    ensures
        r == spec_info_wf(info@),
{
    let iv: Ghost<InfoView> = Ghost(info@);
    if info.piece_length == 0 || info.piece_length as u64 > u32::MAX as u64 {
        return false;
    }
    if info.pieces.len() % 20 != 0 {
        return false;
    }
    let total: i64 = match (&info.length, &info.files) {
        (Some(l), None) => {
            if *l < 0 {
                return false;
            }
            *l
        }
        (None, Some(files)) => {
            let ghost fsv = iv@.files->Some_0;
            let mut i: usize = 0;
            while i < files.len()
                invariant
                    info@.files == Some(fsv),
                    info@.length is None,
                    fsv == files@.map_values(|f: FileNode| f@),
                    i <= fsv.len(),
                    forall|k: int| 0 <= k < i ==> fsv[k].length >= 0,
                decreases fsv.len() - i,
            {
                if files[i].length < 0 {
                    proof {
                        assert(fsv[i as int].length < 0);
                    }
                    return false;
                }
                i = i + 1;
            }
            proof {
                assert(spec_files_wf(fsv));
                lemma_sum_nonneg(fsv);
                assert(fsv.skip(0) =~= fsv);
            }
            let mut acc: i64 = 0;
            let mut j: usize = 0;
            while j < files.len()
                invariant
                    info@.files == Some(fsv),
                    info@.length is None,
                    fsv == files@.map_values(|f: FileNode| f@),
                    spec_files_wf(fsv),
                    j <= fsv.len(),
                    acc >= 0,
                    acc + spec_sum_lengths(fsv.skip(j as int)) == spec_sum_lengths(fsv),
                decreases fsv.len() - j,
            {
                proof {
                    lemma_sum_skip_succ(fsv, j as int);
                    assert(spec_files_wf(fsv.skip(j + 1)));
                    lemma_sum_nonneg(fsv.skip(j + 1));
                }
                let l = files[j].length;
                if l > i64::MAX - acc {
                    proof {
                        assert(spec_sum_lengths(fsv) > i64::MAX);
                    }
                    return false;
                }
                acc = acc + l;
                j = j + 1;
            }
            proof {
                assert(fsv.skip(fsv.len() as int) =~= Seq::<FileNodeView>::empty());
            }
            acc
        }
        _ => {
            return false;
        }
    };
    let num_pieces = (info.pieces.len() / 20) as u128;
    let pl = info.piece_length as u128;
    let ceil = ((total as u128) + pl - 1) / pl;
    num_pieces == ceil
}

/// True exactly when `x` already occurs (byte for byte) in `v`.
fn contains_url(v: &Vec<Vec<u8>>, x: &Vec<u8>) -> (r: bool)
    ensures
        r == views_of(v@).contains(x@),
{
    let mut i: usize = 0;
    while i < v.len()
        invariant
            i <= v@.len(),
            forall|k: int| 0 <= k < i ==> views_of(v@)[k] != x@,
        decreases v@.len() - i,
    {
        if crate::bytes::eq_bytes(v[i].as_slice(), x.as_slice()) {
            proof {
                assert(views_of(v@)[i as int] == x@);
            }
            return true;
        }
        i = i + 1;
    }
    proof {
        assert(!views_of(v@).contains(x@));
    }
    false
}

/// Sum of the sizes of the first `n` pieces.
pub open spec fn spec_size_sum(info: InfoView, n: int) -> int
    decreases n,
{
    if n <= 0 {
        0
    } else {
        spec_size_sum(info, n - 1) + spec_piece_size(info, n - 1)
    }
}

/// Every piece before the last has the nominal size, so their sizes sum to
/// `m * piece_length`.
proof fn lemma_size_sum_uniform(info: InfoView, m: int)
    requires
        spec_info_wf(info),
        0 <= m <= spec_num_pieces(info) - 1,
    ensures
        spec_size_sum(info, m) == m * (info.piece_length as int),
    decreases m,
{
    let l = info.piece_length as int;
    if m > 0 {
        lemma_size_sum_uniform(info, m - 1);
        assert(spec_piece_size(info, m - 1) == l);
        assert(m * l == (m - 1) * l + l) by (nonlinear_arith);
    } else {
        assert(0 * l == 0) by (nonlinear_arith);
    }
}

/// The last piece ends exactly at the total length.
pub proof fn lemma_last_piece_end(info: InfoView)
    requires
        spec_info_wf(info),
        spec_num_pieces(info) >= 1,
    ensures
        (spec_num_pieces(info) - 1) * (info.piece_length as int) + spec_piece_size(
            info,
            spec_num_pieces(info) - 1,
        ) == spec_total_length(info),
{
    let t = spec_total_length(info);
    let l = info.piece_length as int;
    let n = spec_num_pieces(info);
    if info.length is None && info.files is Some {
        lemma_sum_nonneg(info.files->Some_0);
    }
    assert(t >= 0);
    assert(t >= 1) by (nonlinear_arith)
        requires
            n == (t + l - 1) / l,
            n >= 1,
            l >= 1,
            t >= 0,
    ;
    let r = t % l;
    if r == 0 {
        assert(n * l == t) by (nonlinear_arith)
            requires
                n == (t + l - 1) / l,
                t % l == 0,
                t >= 1,
                l >= 1,
        ;
        assert((n - 1) * l + l == n * l) by (nonlinear_arith);
    } else {
        assert((n - 1) * l + r == t) by (nonlinear_arith)
            requires
                n == (t + l - 1) / l,
                t % l == r,
                0 < r < l,
                l >= 1,
                t >= 0,
        ;
    }
}

/// Law: the piece sizes of a well-formed torrent sum exactly to its total
/// length.
pub proof fn lemma_piece_sizes_sum_to_total(info: InfoView)
    requires
        spec_info_wf(info),
    ensures
        spec_size_sum(info, spec_num_pieces(info)) == spec_total_length(info),
{
    let t = spec_total_length(info);
    let l = info.piece_length as int;
    let n = spec_num_pieces(info);
    if info.length is None && info.files is Some {
        lemma_sum_nonneg(info.files->Some_0);
    }
    assert(t >= 0);
    if n == 0 {
        assert(t == 0) by (nonlinear_arith)
            requires
                (t + l - 1) / l == 0,
                l >= 1,
                t >= 0,
        ;
    } else {
        lemma_size_sum_uniform(info, n - 1);
        lemma_last_piece_end(info);
    }
}

/// Every piece's byte range `[start, start + size)` lies within the global
/// stream `[0, total)`.
pub proof fn lemma_piece_range(info: InfoView, i: int)
    requires
        spec_info_wf(info),
        0 <= i < spec_num_pieces(info),
    ensures
        0 <= spec_piece_start(info, i),
        spec_piece_start(info, i) + spec_piece_size(info, i) <= spec_total_length(info),
{
    let l = info.piece_length as int;
    let n = spec_num_pieces(info);
    lemma_last_piece_end(info);
    lemma_piece_size_bounds(info, i);
    lemma_piece_size_bounds(info, n - 1);
    assert(0 <= i * l) by (nonlinear_arith)
        requires
            i >= 0,
            l >= 1,
    ;
    if i < n - 1 {
        assert(i * l + l == (i + 1) * l) by (nonlinear_arith);
        assert((i + 1) * l <= (n - 1) * l) by (nonlinear_arith)
            requires
                i + 1 <= n - 1,
                l >= 1,
        ;
    }
}

/// The view of each byte string in a list.
pub open spec fn views_of(s: Seq<Vec<u8>>) -> Seq<Seq<u8>> {
    s.map_values(|v: Vec<u8>| v@)
}

/// All tracker URLs in announcement order: the primary URL first, then every
/// tier's URLs in order.
pub open spec fn spec_all_tracker_urls(t: TorrentView) -> Seq<Seq<u8>> {
    seq![t.announce] + (match t.announce_list {
        Some(tiers) => tiers.flatten(),
        None => Seq::<Seq<u8>>::empty(),
    })
}

/// First-occurrence deduplication: walks `s` keeping each URL not already in
/// the accumulator.
pub open spec fn spec_dedup(s: Seq<Seq<u8>>, acc: Seq<Seq<u8>>) -> Seq<Seq<u8>>
    decreases s.len(),
{
    if s.len() == 0 {
        acc
    } else if acc.contains(s[0]) {
        spec_dedup(s.skip(1), acc)
    } else {
        spec_dedup(s.skip(1), acc.push(s[0]))
    }
}

/// No two entries of the list are equal.
pub open spec fn spec_unique(s: Seq<Seq<u8>>) -> bool {
    forall|i: int, j: int| 0 <= i < j < s.len() ==> s[i] != s[j]
}

/// Membership in a list splits into its head and its tail.
proof fn lemma_contains_head_tail(s: Seq<Seq<u8>>, x: Seq<u8>)
    requires
        s.len() > 0,
    ensures
        s.contains(x) <==> (x == s[0] || s.skip(1).contains(x)),
{
    assert(forall|k: int| 0 <= k < s.skip(1).len() ==> s.skip(1)[k] == s[k + 1]);
    if s.contains(x) {
        let k = choose|k: int| 0 <= k < s.len() && s[k] == x;
        if k > 0 {
            assert(s.skip(1)[k - 1] == x);
        }
    }
    if s.skip(1).contains(x) {
        let k = choose|k: int| 0 <= k < s.skip(1).len() && s.skip(1)[k] == x;
        assert(s[k + 1] == x);
    }
}

/// Law (tracker list): deduplication returns a list without repeated URLs
/// that holds exactly the URLs of the input and of the accumulator.
pub proof fn lemma_dedup_unique(s: Seq<Seq<u8>>, acc: Seq<Seq<u8>>)
    requires
        spec_unique(acc),
    ensures
        spec_unique(spec_dedup(s, acc)),
        forall|x: Seq<u8>|
            #[trigger] spec_dedup(s, acc).contains(x) <==> (s.contains(x) || acc.contains(x)),
    decreases s.len(),
{
    if s.len() == 0 {
        assert(forall|x: Seq<u8>| !s.contains(x));
    } else {
        assert forall|x: Seq<u8>| true implies (#[trigger] s.contains(x) <==> (x == s[0]
            || s.skip(1).contains(x))) by {
            lemma_contains_head_tail(s, x);
        }
        if acc.contains(s[0]) {
            lemma_dedup_unique(s.skip(1), acc);
        } else {
            assert(spec_unique(acc.push(s[0]))) by {
                assert(forall|i: int|
                    0 <= i < acc.len() ==> acc.push(s[0])[i] == acc[i]);
                assert(acc.push(s[0])[acc.len() as int] == s[0]);
                assert forall|i: int, j: int|
                    0 <= i < j < acc.push(s[0]).len() implies acc.push(s[0])[i] != acc.push(
                    s[0],
                )[j] by {
                    if j < acc.len() {
                    } else {
                        assert(acc.push(s[0])[i] == acc[i]);
                        if acc[i] == s[0] {
                            assert(acc.contains(s[0]));
                        }
                    }
                }
            }
            lemma_dedup_unique(s.skip(1), acc.push(s[0]));
            assert(forall|x: Seq<u8>|
                #[trigger] acc.push(s[0]).contains(x) <==> (acc.contains(x) || x == s[0])) by {
                assert(forall|i: int| 0 <= i < acc.len() ==> acc.push(s[0])[i] == acc[i]);
                assert(acc.push(s[0])[acc.len() as int] == s[0]);
                assert forall|x: Seq<u8>|
                    #[trigger] acc.push(s[0]).contains(x) implies (acc.contains(x) || x
                    == s[0]) by {
                    let k = choose|k: int|
                        0 <= k < acc.push(s[0]).len() && acc.push(s[0])[k] == x;
                    if k < acc.len() {
                        assert(acc[k] == x);
                    }
                }
            }
        }
    }
}

/// Bounds on a piece size: positive, at most the nominal piece length.
pub proof fn lemma_piece_size_bounds(info: InfoView, i: int)
    requires
        spec_info_wf(info),
        0 <= i < spec_num_pieces(info),
    ensures
        0 < spec_piece_size(info, i) <= info.piece_length,
        spec_total_length(info) > 0,
{
    let t = spec_total_length(info);
    let l = info.piece_length as int;
    let n = spec_num_pieces(info);
    if info.length is None && info.files is Some {
        lemma_sum_nonneg(info.files->Some_0);
    }
    assert(t >= 0);
    assert(n == (t + l - 1) / l);
    assert(t > 0) by (nonlinear_arith)
        requires
            n == (t + l - 1) / l,
            n >= 1,
            l >= 1,
            t >= 0,
    ;
    assert(0 < t % l < l || t % l == 0) by (nonlinear_arith)
        requires
            l >= 1,
            t >= 0,
    ;
}

} // verus!
