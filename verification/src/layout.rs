//! The piece/file layout: how the contiguous piece-indexed byte stream maps
//! onto the torrent's file list. A piece may span several files; each
//! overlap becomes a span telling the caller which bytes of the piece live
//! at which offset of which file.

use vstd::prelude::*;

use crate::torrent::{
    spec_info_wf, spec_num_pieces, spec_piece_size, spec_piece_start, spec_sum_lengths,
    spec_total_length, FileNode, FileNodeView, InfoView, Torrent,
};

verus! {

/// One file of the on-disk layout: its path components below the output
/// directory, and its declared length.
#[derive(Debug)]
pub struct FileEntry {
    /// Path components: the torrent name, then (for multi-file torrents)
    /// the file's own components.
    pub path: Vec<Vec<u8>>,
    /// Declared length of the file in bytes.
    pub length: i64,
}

/// Mathematical model of a layout entry.
pub struct FileEntryView {
    pub path: Seq<Seq<u8>>,
    pub length: i64,
}

impl View for FileEntry {
    type V = FileEntryView;

    open spec fn view(&self) -> FileEntryView {
        FileEntryView { path: self.path.deep_view(), length: self.length }
    }
}

/// One overlap of a piece with one file: `length` bytes of the piece,
/// starting at `piece_offset` in the piece buffer, live at `file_offset` in
/// file `file_index` of the layout.
#[derive(Debug, PartialEq, Eq, Structural, Clone, Copy)]
pub struct PieceSpan {
    pub file_index: usize,
    pub file_offset: u64,
    pub piece_offset: usize,
    pub length: usize,
}

/// Mathematical model of a span, over unbounded integers.
pub struct PieceSpanView {
    pub file_index: int,
    pub file_offset: int,
    pub piece_offset: int,
    pub length: int,
}

impl View for PieceSpan {
    type V = PieceSpanView;

    open spec fn view(&self) -> PieceSpanView {
        PieceSpanView {
            file_index: self.file_index as int,
            file_offset: self.file_offset as int,
            piece_offset: self.piece_offset as int,
            length: self.length as int,
        }
    }
}

/// The sum of the declared lengths of layout entries.
pub open spec fn spec_layout_total(entries: Seq<FileEntryView>) -> int
    decreases entries.len(),
{
    if entries.len() == 0 {
        0
    } else {
        entries[0].length + spec_layout_total(entries.skip(1))
    }
}

/// Every layout length is non-negative.
pub open spec fn spec_layout_wf(entries: Seq<FileEntryView>) -> bool {
    forall|i: int| 0 <= i < entries.len() ==> entries[i].length >= 0
}

/// The on-disk layout of a torrent: one entry `[name]` for a single-file
/// torrent, or `[name, p1, ..., pk]` per file for a multi-file torrent,
/// preserving metainfo order.
pub open spec fn spec_layout(info: InfoView) -> Seq<FileEntryView> {
    match info.files {
        Some(fs) => fs.map_values(
            |f: FileNodeView| FileEntryView { path: seq![info.name] + f.path, length: f.length },
        ),
        None => seq![
            FileEntryView {
                path: seq![info.name],
                length: spec_total_length(info) as i64,
            },
        ],
    }
}

/// The spans of the piece range `[p0, p1)` against the files from index `j`
/// on, where file `j` starts at global offset `fstart`.
pub open spec fn spec_spans_from(
    entries: Seq<FileEntryView>,
    p0: int,
    p1: int,
    j: int,
    fstart: int,
) -> Seq<PieceSpanView>
    decreases entries.len() - j,
{
    if j < 0 || j >= entries.len() {
        Seq::<PieceSpanView>::empty()
    } else {
        let fend = fstart + entries[j].length;
        let rest = spec_spans_from(entries, p0, p1, j + 1, fend);
        if fend > p0 && fstart < p1 {
            seq![
                PieceSpanView {
                    file_index: j,
                    file_offset: if p0 > fstart {
                        p0 - fstart
                    } else {
                        0
                    },
                    piece_offset: (if fstart > p0 {
                        fstart
                    } else {
                        p0
                    }) - p0,
                    length: (if fend < p1 {
                        fend
                    } else {
                        p1
                    }) - (if fstart > p0 {
                        fstart
                    } else {
                        p0
                    }),
                },
            ] + rest
        } else {
            rest
        }
    }
}

/// The spans of piece range `[p0, p1)` against a whole layout.
pub open spec fn spec_piece_spans(entries: Seq<FileEntryView>, p0: int, p1: int) -> Seq<
    PieceSpanView,
> {
    spec_spans_from(entries, p0, p1, 0, 0)
}

/// The spans, in order, tile the piece-buffer range `[lo, hi)` without gap
/// or overlap.
pub open spec fn spec_spans_cover(spans: Seq<PieceSpanView>, lo: int, hi: int) -> bool
    decreases spans.len(),
{
    if spans.len() == 0 {
        lo == hi
    } else {
        &&& spans[0].piece_offset == lo
        &&& spans[0].length >= 0
        &&& lo + spans[0].length <= hi
        &&& spec_spans_cover(spans.skip(1), lo + spans[0].length, hi)
    }
}

/// `spec_layout_total` peels off the head of a suffix.
proof fn lemma_layout_total_skip(entries: Seq<FileEntryView>, j: int)
    requires
        0 <= j < entries.len(),
    ensures
        spec_layout_total(entries.skip(j)) == entries[j].length + spec_layout_total(
            entries.skip(j + 1),
        ),
{
    assert(entries.skip(j).skip(1) =~= entries.skip(j + 1));
    assert(entries.skip(j)[0] == entries[j]);
}

/// The coverage law of the span algorithm: for a piece range that lies
/// within the files from `j` on, the spans tile the corresponding part of
/// the piece buffer.
pub proof fn lemma_spans_cover(
    entries: Seq<FileEntryView>,
    p0: int,
    p1: int,
    j: int,
    fstart: int,
)
    requires
        spec_layout_wf(entries),
        0 <= j <= entries.len(),
        0 <= p0 < p1,
        fstart >= 0,
        p1 <= fstart + spec_layout_total(entries.skip(j)),
    ensures
        spec_spans_cover(
            spec_spans_from(entries, p0, p1, j, fstart),
            if fstart <= p0 {
                0
            } else if fstart >= p1 {
                p1 - p0
            } else {
                fstart - p0
            },
            p1 - p0,
        ),
    decreases entries.len() - j,
{
    let lo: int = if fstart <= p0 {
        0
    } else if fstart >= p1 {
        p1 - p0
    } else {
        fstart - p0
    };
    if j == entries.len() {
        assert(entries.skip(j).len() == 0);
        assert(spec_layout_total(entries.skip(j)) == 0);
        assert(fstart >= p1);
    } else {
        lemma_layout_total_skip(entries, j);
        let fend = fstart + entries[j].length;
        assert(entries[j].length >= 0);
        lemma_spans_cover(entries, p0, p1, j + 1, fend);
        let rest = spec_spans_from(entries, p0, p1, j + 1, fend);
        if fend > p0 && fstart < p1 {
            let sp = PieceSpanView {
                file_index: j,
                file_offset: if p0 > fstart {
                    p0 - fstart
                } else {
                    0
                },
                piece_offset: (if fstart > p0 {
                    fstart
                } else {
                    p0
                }) - p0,
                length: (if fend < p1 {
                    fend
                } else {
                    p1
                }) - (if fstart > p0 {
                    fstart
                } else {
                    p0
                }),
            };
            let spans = seq![sp] + rest;
            assert(spec_spans_from(entries, p0, p1, j, fstart) == spans);
            assert(spans[0] == sp);
            assert(spans.skip(1) =~= rest);
            assert(spec_spans_cover(spans, lo, p1 - p0));
        }
    }
}

/// A sum of non-negative layout lengths is non-negative.
proof fn lemma_layout_total_nonneg(entries: Seq<FileEntryView>)
    requires
        spec_layout_wf(entries),
    ensures
        spec_layout_total(entries) >= 0,
    decreases entries.len(),
{
    if entries.len() > 0 {
        assert(spec_layout_wf(entries.skip(1)));
        lemma_layout_total_nonneg(entries.skip(1));
    }
}

/// Two lists with the same lengths entry by entry have the same total.
proof fn lemma_layout_total_same_lengths(a: Seq<FileEntryView>, fs: Seq<FileNodeView>)
    requires
        a.len() == fs.len(),
        forall|i: int| 0 <= i < a.len() ==> a[i].length == fs[i].length,
    ensures
        spec_layout_total(a) == spec_sum_lengths(fs),
    decreases a.len(),
{
    if a.len() > 0 {
        assert(forall|i: int|
            0 <= i < a.skip(1).len() ==> a.skip(1)[i] == a[i + 1] && fs.skip(1)[i] == fs[i + 1]);
        lemma_layout_total_same_lengths(a.skip(1), fs.skip(1));
    }
}

/// The layout's lengths are non-negative and sum to the torrent's total
/// length.
pub proof fn lemma_layout_total_is_total(info: InfoView)
    requires
        spec_info_wf(info),
    ensures
        spec_layout_wf(spec_layout(info)),
        spec_layout_total(spec_layout(info)) == spec_total_length(info),
{
    match info.files {
        Some(fs) => {
            let m = spec_layout(info);
            assert(info.length is None);
            assert(spec_total_length(info) == spec_sum_lengths(fs));
            assert(m.len() == fs.len());
            assert(forall|i: int|
                0 <= i < m.len() ==> m[i].length == fs[i].length && m[i].length >= 0);
            lemma_layout_total_same_lengths(m, fs);
            assert(spec_layout_total(m) == spec_sum_lengths(fs));
        }
        None => {
            let m = spec_layout(info);
            assert(m.skip(1) =~= Seq::<FileEntryView>::empty());
            assert(m.len() == 1);
            assert(m[0].length == spec_total_length(info) as i64);
            assert(spec_total_length(info) >= 0);
            assert(spec_layout_total(m) == m[0].length + spec_layout_total(m.skip(1)));
            assert(spec_layout_total(m) == spec_total_length(info));
        }
    }
}

/// Every span of a tiling lies within `[lo, hi)`.
pub proof fn lemma_cover_offsets(spans: Seq<PieceSpanView>, lo: int, hi: int)
    requires
        spec_spans_cover(spans, lo, hi),
    ensures
        forall|k: int|
            0 <= k < spans.len() ==> lo <= #[trigger] spans[k].piece_offset
                && spans[k].piece_offset + spans[k].length <= hi && spans[k].length >= 0,
    decreases spans.len(),
{
    if spans.len() > 0 {
        lemma_cover_offsets(spans.skip(1), lo + spans[0].length, hi);
        assert forall|k: int|
            0 <= k < spans.len() implies lo <= #[trigger] spans[k].piece_offset
                && spans[k].piece_offset + spans[k].length <= hi && spans[k].length >= 0 by {
            if k > 0 {
                assert(spans.skip(1)[k - 1] == spans[k]);
            }
        }
    }
}

/// Concatenating, in order, the bytes `data` holds on each span of a tiling
/// of `[lo, hi)` yields exactly `data[lo..hi]`.
proof fn lemma_chunks_flatten_to(
    spans: Seq<PieceSpanView>,
    data: Seq<u8>,
    chunks: Seq<Seq<u8>>,
    lo: int,
    hi: int,
)
    requires
        spec_spans_cover(spans, lo, hi),
        0 <= lo,
        hi <= data.len(),
        chunks.len() == spans.len(),
        forall|k: int|
            0 <= k < spans.len() ==> chunks[k] == data.subrange(
                #[trigger] spans[k].piece_offset,
                spans[k].piece_offset + spans[k].length,
            ),
    ensures
        chunks.flatten() == data.subrange(lo, hi),
    decreases spans.len(),
{
    if spans.len() == 0 {
        assert(chunks.flatten() =~= data.subrange(lo, hi));
    } else {
        let s0 = spans[0];
        assert(forall|k: int| 0 <= k < spans.skip(1).len() ==> spans.skip(1)[k] == spans[k + 1]);
        assert(forall|k: int| 0 <= k < chunks.skip(1).len() ==> chunks.skip(1)[k] == chunks[k + 1]);
        lemma_chunks_flatten_to(spans.skip(1), data, chunks.skip(1), lo + s0.length, hi);
        assert(chunks.flatten() == chunks[0] + chunks.skip(1).flatten());
        assert(chunks[0] + data.subrange(lo + s0.length, hi) =~= data.subrange(lo, hi));
    }
}

/// Law (piece round trip): splitting a piece buffer along a tiling of
/// spans and concatenating the resulting chunks in order gives the buffer
/// back unchanged.
pub proof fn lemma_split_concat_round_trip(
    spans: Seq<PieceSpanView>,
    data: Seq<u8>,
    chunks: Seq<Seq<u8>>,
)
    requires
        spec_spans_cover(spans, 0, data.len() as int),
        chunks.len() == spans.len(),
        forall|k: int|
            0 <= k < spans.len() ==> chunks[k] == data.subrange(
                #[trigger] spans[k].piece_offset,
                spans[k].piece_offset + spans[k].length,
            ),
    ensures
        chunks.flatten() == data,
{
    lemma_chunks_flatten_to(spans, data, chunks, 0, data.len() as int);
    assert(data.subrange(0, data.len() as int) =~= data);
}

/// If a buffer agrees with `data` on every span of a tiling of `[lo, hi)`,
/// it agrees with `data` on all of `[lo, hi)`.
proof fn lemma_tiled_agreement(
    spans: Seq<PieceSpanView>,
    data: Seq<u8>,
    buf: Seq<u8>,
    lo: int,
    hi: int,
)
    requires
        spec_spans_cover(spans, lo, hi),
        0 <= lo,
        hi <= data.len(),
        buf.len() == data.len(),
        forall|k: int|
            0 <= k < spans.len() ==> buf.subrange(
                #[trigger] spans[k].piece_offset,
                spans[k].piece_offset + spans[k].length,
            ) == data.subrange(spans[k].piece_offset, spans[k].piece_offset + spans[k].length),
    ensures
        forall|t: int| lo <= t < hi ==> buf[t] == data[t],
    decreases spans.len(),
{
    if spans.len() > 0 {
        let s0 = spans[0];
        assert(buf.subrange(s0.piece_offset, s0.piece_offset + s0.length) == data.subrange(
            s0.piece_offset,
            s0.piece_offset + s0.length,
        ));
        assert(forall|t: int|
            lo <= t < lo + s0.length ==> buf[t] == buf.subrange(
                s0.piece_offset,
                s0.piece_offset + s0.length,
            )[t - lo] && data[t] == data.subrange(
                s0.piece_offset,
                s0.piece_offset + s0.length,
            )[t - lo]);
        assert(forall|k: int|
            0 <= k < spans.skip(1).len() ==> spans.skip(1)[k] == spans[k + 1]);
        lemma_tiled_agreement(spans.skip(1), data, buf, lo + s0.length, hi);
    }
}

/// Law (layout round trip): a buffer of the piece's size that receives, for
/// every span of a tiling of the whole piece, the bytes `data` holds there,
/// ends up equal to `data`.
pub proof fn lemma_write_read_round_trip(spans: Seq<PieceSpanView>, data: Seq<u8>, buf: Seq<u8>)
    requires
        spec_spans_cover(spans, 0, data.len() as int),
        buf.len() == data.len(),
        forall|k: int|
            0 <= k < spans.len() ==> buf.subrange(
                #[trigger] spans[k].piece_offset,
                spans[k].piece_offset + spans[k].length,
            ) == data.subrange(spans[k].piece_offset, spans[k].piece_offset + spans[k].length),
    ensures
        buf == data,
{
    lemma_tiled_agreement(spans, data, buf, 0, data.len() as int);
    assert(buf =~= data);
}

/// The view of each span in a list.
pub open spec fn span_views(s: Seq<PieceSpan>) -> Seq<PieceSpanView> {
    s.map_values(|x: PieceSpan| x@)
}

/// The view of each layout entry in a list.
pub open spec fn entry_views(s: Seq<FileEntry>) -> Seq<FileEntryView> {
    s.map_values(|x: FileEntry| x@)
}

/// The view of each chunk in a list.
pub open spec fn chunk_views(s: Seq<Vec<u8>>) -> Seq<Seq<u8>> {
    s.map_values(|x: Vec<u8>| x@)
}

/// Builds the on-disk layout of a torrent: `[name]` for a single file, or
/// `[name, p1, ..., pk]` per file, in metainfo order.
pub fn build_file_layout(torrent: &Torrent) -> (r: Vec<FileEntry>)
    requires
        spec_info_wf(torrent.info@),
    ensures
        entry_views(r@) == spec_layout(torrent.info@),
{
    let ghost target = spec_layout(torrent.info@);
    let mut out: Vec<FileEntry> = Vec::new();
    match &torrent.info.files {
        Some(files) => {
            let ghost fsv = torrent.info@.files->Some_0;
            let mut i: usize = 0;
            proof {
                assert(entry_views(out@) =~= target.take(0));
            }
            while i < files.len()
                invariant
                    spec_info_wf(torrent.info@),
                    torrent.info@.files == Some(fsv),
                    fsv == files@.map_values(|f: FileNode| f@),
                    target == spec_layout(torrent.info@),
                    i <= files@.len(),
                    target.len() == files@.len(),
                    entry_views(out@) == target.take(i as int),
                decreases files@.len() - i,
            {
                let f = &files[i];
                let mut path: Vec<Vec<u8>> = Vec::new();
                path.push(crate::bytes::clone_bytes(&torrent.info.name));
                proof {
                    assert(path.deep_view() =~~= seq![torrent.info@.name]
                        + f.path.deep_view().take(0));
                }
                let mut k: usize = 0;
                while k < f.path.len()
                    invariant
                        f == files@[i as int],
                        i < files@.len(),
                        torrent.info@.name == torrent.info.name@,
                        k <= f.path@.len(),
                        path.deep_view() == seq![torrent.info@.name] + f.path.deep_view().take(
                            k as int,
                        ),
                    decreases f.path@.len() - k,
                {
                    let ghost prev = path.deep_view();
                    path.push(crate::bytes::clone_bytes(&f.path[k]));
                    proof {
                        assert(f.path.deep_view()[k as int] =~= f.path@[k as int]@);
                        assert(path.deep_view() =~= prev.push(f.path.deep_view()[k as int]));
                        assert(seq![torrent.info@.name] + f.path.deep_view().take(k as int + 1)
                            =~= prev.push(f.path.deep_view()[k as int]));
                    }
                    k = k + 1;
                }
                let ghost prev_out = entry_views(out@);
                let entry = FileEntry { path, length: f.length };
                proof {
                    assert(f.path.deep_view().take(f.path@.len() as int) =~= f.path.deep_view());
                    assert(fsv[i as int] == f@);
                    assert(entry@.path == seq![torrent.info@.name] + fsv[i as int].path);
                    assert(target[i as int] == FileEntryView {
                        path: seq![torrent.info@.name] + fsv[i as int].path,
                        length: fsv[i as int].length,
                    });
                }
                out.push(entry);
                proof {
                    assert(entry_views(out@) =~= prev_out.push(entry@));
                    assert(target.take(i as int + 1) =~= prev_out.push(target[i as int]));
                }
                i = i + 1;
            }
            proof {
                assert(target.take(target.len() as int) =~= target);
            }
        }
        None => {
            let mut path: Vec<Vec<u8>> = Vec::new();
            path.push(crate::bytes::clone_bytes(&torrent.info.name));
            let length = torrent.total_length();
            let entry = FileEntry { path, length };
            proof {
                assert(entry@.path =~~= seq![torrent.info@.name]);
            }
            out.push(entry);
            proof {
                assert(entry_views(out@) =~= target);
            }
        }
    }
    out
}

/// The global byte range `[start, end)` of a piece.
pub fn piece_range(torrent: &Torrent, piece_index: usize) -> (r: (u64, u64))
    requires
        spec_info_wf(torrent.info@),
        piece_index < spec_num_pieces(torrent.info@),
    ensures
        r.0 == spec_piece_start(torrent.info@, piece_index as int),
        r.1 == r.0 + spec_piece_size(torrent.info@, piece_index as int),
        r.0 < r.1 <= spec_total_length(torrent.info@),
{
    proof {
        crate::torrent::lemma_piece_range(torrent.info@, piece_index as int);
        crate::torrent::lemma_piece_size_bounds(torrent.info@, piece_index as int);
    }
    let size = torrent.calculate_piece_size(piece_index);
    let p0 = (piece_index as u64) * (torrent.info.piece_length as u64);
    (p0, p0 + size as u64)
}

/// The spans of the piece range `[p0, p1)` over the layout, in file order;
/// they tile the piece buffer `[0, p1 - p0)` exactly.
pub fn compute_piece_spans(entries: &Vec<FileEntry>, p0: u64, p1: u64) -> (r: Vec<PieceSpan>)
    requires
        spec_layout_wf(entry_views(entries@)),
        spec_layout_total(entry_views(entries@)) <= i64::MAX,
        p0 < p1,
        p1 <= spec_layout_total(entry_views(entries@)),
        p1 - p0 <= usize::MAX,
    ensures
        span_views(r@) == spec_piece_spans(entry_views(entries@), p0 as int, p1 as int),
        spec_spans_cover(span_views(r@), 0, p1 - p0),
{
    let ghost ev = entry_views(entries@);
    proof {
        assert(ev.skip(0) =~= ev);
        lemma_spans_cover(ev, p0 as int, p1 as int, 0, 0);
    }
    let mut out: Vec<PieceSpan> = Vec::new();
    let mut fstart: u64 = 0;
    let mut j: usize = 0;
    proof {
        assert(span_views(out@) =~= Seq::<PieceSpanView>::empty());
    }
    while j < entries.len()
        invariant
            ev == entry_views(entries@),
            spec_layout_wf(ev),
            spec_layout_total(ev) <= i64::MAX,
            p0 < p1,
            p1 <= spec_layout_total(ev),
            p1 - p0 <= usize::MAX,
            j <= ev.len(),
            fstart + spec_layout_total(ev.skip(j as int)) == spec_layout_total(ev),
            spec_piece_spans(ev, p0 as int, p1 as int) == span_views(out@) + spec_spans_from(
                ev,
                p0 as int,
                p1 as int,
                j as int,
                fstart as int,
            ),
        decreases ev.len() - j,
    {
        proof {
            lemma_layout_total_skip(ev, j as int);
            assert(spec_layout_wf(ev.skip(j as int + 1)));
            lemma_layout_total_nonneg(ev.skip(j as int + 1));
            assert(ev[j as int].length >= 0);
        }
        let flen = entries[j].length;
        let fend = fstart + (flen as u64);
        if fend > p0 && fstart < p1 {
            let file_offset: u64 = if p0 > fstart {
                p0 - fstart
            } else {
                0
            };
            let start_g: u64 = if fstart > p0 {
                fstart
            } else {
                p0
            };
            let end_g: u64 = if fend < p1 {
                fend
            } else {
                p1
            };
            let sp = PieceSpan {
                file_index: j,
                file_offset,
                piece_offset: (start_g - p0) as usize,
                length: (end_g - start_g) as usize,
            };
            let ghost prev = span_views(out@);
            out.push(sp);
            proof {
                assert(span_views(out@) =~= prev.push(sp@));
                assert(spec_spans_from(ev, p0 as int, p1 as int, j as int, fstart as int)
                    == seq![sp@] + spec_spans_from(
                    ev,
                    p0 as int,
                    p1 as int,
                    j as int + 1,
                    fend as int,
                ));
                assert(span_views(out@) + spec_spans_from(
                    ev,
                    p0 as int,
                    p1 as int,
                    j as int + 1,
                    fend as int,
                ) =~= prev + spec_spans_from(ev, p0 as int, p1 as int, j as int, fstart as int));
            }
        }
        fstart = fend;
        j = j + 1;
    }
    proof {
        assert(spec_spans_from(ev, p0 as int, p1 as int, ev.len() as int, fstart as int)
            =~= Seq::<PieceSpanView>::empty());
        assert(span_views(out@) + Seq::<PieceSpanView>::empty() =~= span_views(out@));
    }
    out
}

/// The spans of one piece of a torrent over its layout; they tile the
/// piece's buffer exactly.
pub fn piece_spans(torrent: &Torrent, entries: &Vec<FileEntry>, piece_index: usize) -> (r: Vec<
    PieceSpan,
>)
    requires
        spec_info_wf(torrent.info@),
        piece_index < spec_num_pieces(torrent.info@),
        entry_views(entries@) == spec_layout(torrent.info@),
    ensures
        span_views(r@) == spec_piece_spans(
            entry_views(entries@),
            spec_piece_start(torrent.info@, piece_index as int),
            spec_piece_start(torrent.info@, piece_index as int) + spec_piece_size(
                torrent.info@,
                piece_index as int,
            ),
        ),
        spec_spans_cover(
            span_views(r@),
            0,
            spec_piece_size(torrent.info@, piece_index as int),
        ),
{
    proof {
        lemma_layout_total_is_total(torrent.info@);
        crate::torrent::lemma_piece_size_bounds(torrent.info@, piece_index as int);
    }
    let (p0, p1) = piece_range(torrent, piece_index);
    compute_piece_spans(entries, p0, p1)
}

/// Slices a piece buffer into per-span chunks: chunk `k` holds the bytes of
/// span `k`, ready to be written at the span's file offset.
pub fn piece_write_chunks(data: &Vec<u8>, spans: &Vec<PieceSpan>) -> (r: Vec<Vec<u8>>)
    requires
        spec_spans_cover(span_views(spans@), 0, data@.len() as int),
    ensures
        r@.len() == spans@.len(),
        forall|k: int|
            0 <= k < spans@.len() ==> (#[trigger] r@[k])@ == data@.subrange(
                spans@[k]@.piece_offset,
                spans@[k]@.piece_offset + spans@[k]@.length,
            ),
        chunk_views(r@).flatten() == data@,
{
    proof {
        lemma_cover_offsets(span_views(spans@), 0, data@.len() as int);
    }
    let n = data.len();
    let mut out: Vec<Vec<u8>> = Vec::new();
    let mut k: usize = 0;
    while k < spans.len()
        invariant
            n == data@.len(),
            spec_spans_cover(span_views(spans@), 0, data@.len() as int),
            forall|t: int|
                0 <= t < spans@.len() ==> 0 <= (#[trigger] span_views(spans@)[t]).piece_offset
                    && span_views(spans@)[t].piece_offset + span_views(spans@)[t].length
                    <= data@.len(),
            k <= spans@.len(),
            out@.len() == k,
            forall|t: int|
                0 <= t < k ==> (#[trigger] out@[t])@ == data@.subrange(
                    spans@[t]@.piece_offset,
                    spans@[t]@.piece_offset + spans@[t]@.length,
                ),
        decreases spans@.len() - k,
    {
        let sp = spans[k];
        proof {
            assert(span_views(spans@)[k as int] == sp@);
            assert(sp.piece_offset + sp.length <= n);
        }
        let chunk = crate::bytes::bytes_range(
            data.as_slice(),
            sp.piece_offset,
            sp.piece_offset + sp.length,
        );
        out.push(chunk);
        k = k + 1;
    }
    proof {
        lemma_split_concat_round_trip(span_views(spans@), data@, chunk_views(out@));
    }
    out
}

/// Rebuilds a piece buffer from per-span chunks read back from the files:
/// the chunks, in span order, are concatenated into the piece.
pub fn assemble_piece(piece_size: usize, spans: &Vec<PieceSpan>, chunks: &Vec<Vec<u8>>) -> (r:
    Vec<u8>)
    requires
        spec_spans_cover(span_views(spans@), 0, piece_size as int),
        chunks@.len() == spans@.len(),
        forall|k: int|
            0 <= k < chunks@.len() ==> (#[trigger] chunks@[k])@.len() == spans@[k]@.length,
    ensures
        r@.len() == piece_size,
        r@ == chunk_views(chunks@).flatten(),
        forall|k: int|
            0 <= k < spans@.len() ==> r@.subrange(
                #[trigger] spans@[k]@.piece_offset,
                spans@[k]@.piece_offset + spans@[k]@.length,
            ) == chunks@[k]@,
{
    let ghost sv = span_views(spans@);
    let ghost cv = chunk_views(chunks@);
    let mut buf: Vec<u8> = Vec::new();
    let mut k: usize = 0;
    proof {
        assert(sv.skip(0) =~= sv);
        assert(cv.take(0).flatten() =~= Seq::<u8>::empty());
    }
    while k < chunks.len()
        invariant
            sv == span_views(spans@),
            cv == chunk_views(chunks@),
            cv.len() == sv.len(),
            forall|t: int| 0 <= t < cv.len() ==> (#[trigger] cv[t]).len() == sv[t].length,
            k <= cv.len(),
            spec_spans_cover(sv.skip(k as int), buf@.len() as int, piece_size as int),
            buf@ == cv.take(k as int).flatten(),
            forall|t: int|
                0 <= t < k ==> 0 <= (#[trigger] sv[t]).piece_offset && sv[t].piece_offset
                    + sv[t].length <= buf@.len(),
            forall|t: int|
                0 <= t < k ==> buf@.subrange(
                    #[trigger] sv[t].piece_offset,
                    sv[t].piece_offset + sv[t].length,
                ) == cv[t],
        decreases cv.len() - k,
    {
        let ghost buf0 = buf@;
        proof {
            assert(sv.skip(k as int)[0] == sv[k as int]);
            assert(sv.skip(k as int).skip(1) =~= sv.skip(k as int + 1));
            assert(cv[k as int] == chunks@[k as int]@);
        }
        crate::bytes::push_bytes(&mut buf, chunks[k].as_slice());
        proof {
            cv.take(k as int).lemma_flatten_push(cv[k as int]);
            assert(cv.take(k as int).push(cv[k as int]) =~= cv.take(k as int + 1));
            assert(buf@.subrange(sv[k as int].piece_offset, sv[k as int].piece_offset
                + sv[k as int].length) =~= cv[k as int]);
            assert forall|t: int|
                0 <= t < k implies buf@.subrange(
                    #[trigger] sv[t].piece_offset,
                    sv[t].piece_offset + sv[t].length,
                ) == cv[t] by {
                assert(buf@.subrange(sv[t].piece_offset, sv[t].piece_offset + sv[t].length)
                    =~= buf0.subrange(sv[t].piece_offset, sv[t].piece_offset + sv[t].length));
            }
        }
        k = k + 1;
    }
    proof {
        assert(cv.take(cv.len() as int) =~= cv);
        assert forall|t: int|
            0 <= t < spans@.len() implies buf@.subrange(
                #[trigger] spans@[t]@.piece_offset,
                spans@[t]@.piece_offset + spans@[t]@.length,
            ) == chunks@[t]@ by {
            assert(sv[t] == spans@[t]@);
            assert(cv[t] == chunks@[t]@);
            assert(buf@.subrange(sv[t].piece_offset, sv[t].piece_offset + sv[t].length)
                == cv[t]);
        }
    }
    buf
}

} // verus!
