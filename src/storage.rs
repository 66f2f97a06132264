use vstd::prelude::*;
use crate::block::PieceIndex;

verus! {

/// The largest download that a torrent may describe, in bytes.
pub const MAX_DOWNLOAD_LEN: u64 = 0x4000_0000_0000_0000;

/// A file of the torrent: where it starts in the torrent's concatenated byte
/// space, and its length.
#[derive(Clone, Copy, Debug, PartialEq, Eq, Structural)]
pub struct FileInfo {
    pub torrent_offset: u64,
    pub len: u64,
}

/// The part of one file that a piece covers.
#[derive(Clone, Copy, Debug, PartialEq, Eq, Structural)]
pub struct FileSpan {
    /// Index of the file in the torrent.
    pub file_index: usize,
    /// Where the span starts within the file.
    pub file_offset: u64,
    /// Where the span starts within the piece.
    pub piece_offset: u32,
    /// Length of the span.
    pub len: u32,
}

/// Whether a file overlaps the torrent byte range `[start, start + len)`.
pub open spec fn intersects(f: FileInfo, start: int, len: int) -> bool {
    f.torrent_offset < start + len && f.torrent_offset + f.len > start
}

/// The span of file `k` covered by the torrent byte range `[start, start + len)`.
pub open spec fn span_of(f: FileInfo, k: int, start: int, len: int) -> FileSpan {
    let lo = if f.torrent_offset > start { f.torrent_offset as int } else { start };
    let hi = if f.torrent_offset + f.len < start + len {
        f.torrent_offset + f.len
    } else {
        start + len
    };
    FileSpan {
        file_index: k as usize,
        file_offset: (lo - f.torrent_offset) as u64,
        piece_offset: (lo - start) as u32,
        len: (hi - lo) as u32,
    }
}

/// How the torrent's bytes are laid out in pieces and in files.
#[derive(Debug)]
pub struct StorageInfo {
    /// The number of pieces.
    pub piece_count: u64,
    /// The nominal length of a piece.
    pub piece_len: u32,
    /// The length of the last piece, which may be shorter.
    pub last_piece_len: u32,
    /// The length of the whole download.
    pub download_len: u64,
    /// The files, in torrent order.
    pub files: Vec<FileInfo>,
}

/// Files that follow one another do not overlap and keep the torrent's order.
pub proof fn lemma_files_ordered(files: Seq<FileInfo>, a: int, b: int)
    requires
        0 <= a < b < files.len(),
        forall|i: int| 0 <= i < files.len() - 1 ==> #[trigger] files[i + 1].torrent_offset
            == files[i].torrent_offset + files[i].len,
    ensures
        files[a].torrent_offset + files[a].len <= files[b].torrent_offset,
    decreases b - a,
{
    if b > a + 1 {
        lemma_files_ordered(files, a, b - 1);
        assert(files[b - 1 + 1].torrent_offset == files[b - 1].torrent_offset + files[b - 1].len);
    } else {
        assert(files[a + 1].torrent_offset == files[a].torrent_offset + files[a].len);
    }
}

/// The sum of a sequence of lengths.
pub open spec fn seq_sum(s: Seq<u64>) -> int
    decreases s.len(),
{
    if s.len() == 0 {
        0
    } else {
        seq_sum(s.drop_last()) + s.last()
    }
}

/// A prefix sums to no more than the whole.
pub proof fn lemma_seq_sum_prefix_le(s: Seq<u64>, i: int)
    requires
        0 <= i <= s.len(),
    ensures
        seq_sum(s.take(i)) <= seq_sum(s),
    decreases s.len() - i,
{
    if i < s.len() {
        lemma_seq_sum_prefix_le(s, i + 1);
        assert(s.take(i + 1).drop_last() =~= s.take(i));
    } else {
        assert(s.take(i) =~= s);
    }
}

/// A witness of a zero length.
proof fn lemma_seq_sum_positive_exists(s: Seq<u64>, i: int)
    requires
        0 <= i < s.len(),
        s[i] == 0,
    ensures
        exists|j: int| 0 <= j < s.len() && #[trigger] s[j] == 0,
{
}

impl StorageInfo {

    /// Builds the layout of a torrent whose files, in order, have the lengths
    /// `file_lens`, cut into pieces of `piece_len` bytes. Returns `None` where
    /// no consistent layout exists: a zero piece length, no files, an empty
    /// file, or a download longer than `MAX_DOWNLOAD_LEN`.
    pub fn new(piece_len: u32, file_lens: &Vec<u64>) -> (r: Option<StorageInfo>)
        ensures
            r matches Some(info) ==> {
                &&& info.wf()
                &&& info.piece_len == piece_len
                &&& info.files@.len() == file_lens@.len()
                &&& forall|i: int| 0 <= i < file_lens@.len() ==> #[trigger] info.files@[i].len
                    == file_lens@[i]
            },
            r.is_none() <==> (piece_len == 0 || file_lens@.len() == 0 || exists|i: int|
                0 <= i < file_lens@.len() && #[trigger] file_lens@[i] == 0)
                || seq_sum(file_lens@) > MAX_DOWNLOAD_LEN,
    {
        let mut files: Vec<FileInfo> = Vec::new();
        let mut off: u64 = 0;
        let mut i: usize = 0;
        while i < file_lens.len()
            invariant
                i <= file_lens@.len(),
                files@.len() == i,
                off == seq_sum(file_lens@.take(i as int)),
                off <= MAX_DOWNLOAD_LEN,
                i > 0 ==> files@[0].torrent_offset == 0,
                i > 0 ==> off == files@[i - 1].torrent_offset + files@[i - 1].len,
                forall|j: int| 0 <= j < i - 1 ==> #[trigger] files@[j + 1].torrent_offset
                    == files@[j].torrent_offset + files@[j].len,
                forall|j: int| 0 <= j < i ==> #[trigger] files@[j].len == file_lens@[j],
                forall|j: int| 0 <= j < i ==> #[trigger] file_lens@[j] > 0,
            decreases file_lens@.len() - i,
        {
            let len = file_lens[i];
            proof {
                assert(file_lens@.take(i + 1).drop_last() =~= file_lens@.take(i as int));
                lemma_seq_sum_prefix_le(file_lens@, i + 1);
            }
            if len == 0 {
                proof {
                    lemma_seq_sum_positive_exists(file_lens@, i as int);
                }
                return None;
            }
            if len > MAX_DOWNLOAD_LEN - off {
                return None;
            }
            files.push(FileInfo { torrent_offset: off, len });
            off = off + len;
            i = i + 1;
        }
        proof {
            assert(file_lens@.take(i as int) =~= file_lens@);
        }
        if piece_len == 0 || files.len() == 0 {
            return None;
        }
        let pl = piece_len as u64;
        let q = off / pl;
        let rem = off % pl;
        let count: u64 = if rem == 0 { q } else { q + 1 };
        proof {
            vstd::arithmetic::div_mod::lemma_fundamental_div_mod(off as int, pl as int);
            assert(files@[0].len > 0);
            assert(off > 0) by {
                if files@.len() > 1 {
                    lemma_files_ordered(files@, 0, files@.len() - 1);
                }
            }
            assert(count >= 1 && (count - 1) * pl < off && off <= count * pl) by (nonlinear_arith)
                requires
                    off == pl * q + rem,
                    0 <= rem < pl,
                    off > 0,
                    count == (if rem == 0 { q as int } else { q + 1 }),
            ;
            assert(count <= off) by (nonlinear_arith)
                requires
                    (count - 1) * pl < off,
                    pl >= 1,
                    count >= 1,
            ;
            assert(off - (count - 1) * pl <= pl) by (nonlinear_arith)
                requires
                    off <= count * pl,
                    count >= 1,
            ;
        }
        let last = off - (count - 1) * pl;
        let info = StorageInfo {
            piece_count: count,
            piece_len,
            last_piece_len: last as u32,
            download_len: off,
            files,
        };
        Some(info)
    }
    /// The layout's consistency: contiguous non-empty files from offset zero,
    /// and pieces that cover the download with only the last one short.
    pub open spec fn wf(&self) -> bool {
        let n = self.files@.len();
        &&& self.piece_len > 0
        &&& n > 0
        &&& self.files@[0].torrent_offset == 0
        &&& forall|i: int| 0 <= i < n - 1 ==> #[trigger] self.files@[i + 1].torrent_offset
            == self.files@[i].torrent_offset + self.files@[i].len
        &&& forall|i: int| 0 <= i < n ==> #[trigger] self.files@[i].len > 0
        &&& self.download_len == self.files@[n - 1].torrent_offset + self.files@[n - 1].len
        &&& self.download_len <= MAX_DOWNLOAD_LEN
        &&& self.piece_count > 0
        &&& (self.piece_count - 1) * self.piece_len < self.download_len
        &&& self.download_len <= self.piece_count * self.piece_len
        &&& self.last_piece_len == self.download_len - (self.piece_count - 1) * self.piece_len
    }

    /// The length of piece `index`.
    pub open spec fn piece_len_spec(&self, index: int) -> int {
        if index == self.piece_count - 1 {
            self.last_piece_len as int
        } else {
            self.piece_len as int
        }
    }

    /// Where piece `index` starts in the torrent's byte space.
    pub open spec fn piece_offset_spec(&self, index: int) -> int {
        index * self.piece_len
    }

    /// The spans of the files `range` that piece `index` covers, in file order.
    pub open spec fn spans_spec(&self, index: int, range: (usize, usize)) -> Seq<FileSpan> {
        Seq::new(
            (range.1 - range.0) as nat,
            |j: int|
                span_of(
                    self.files@[range.0 + j],
                    range.0 + j,
                    self.piece_offset_spec(index),
                    self.piece_len_spec(index),
                ),
        )
    }

    /// Whether `range` is exactly the range of files that piece `index` overlaps.
    pub open spec fn is_file_range(&self, index: int, range: (usize, usize)) -> bool {
        &&& range.0 <= range.1 <= self.files@.len()
        &&& forall|k: int|
            0 <= k < self.files@.len() ==> (range.0 <= k < range.1 <==> intersects(
                #[trigger] self.files@[k],
                self.piece_offset_spec(index),
                self.piece_len_spec(index),
            ))
    }

    /// Returns, for each file that piece `index` overlaps, the part of the file
    /// and the part of the piece that coincide.
    pub fn file_spans(&self, index: PieceIndex, range: (usize, usize)) -> (r: Vec<FileSpan>)
        requires
            self.wf(),
            index < self.piece_count,
            self.is_file_range(index as int, range),
        ensures
            r@ == self.spans_spec(index as int, range),
            forall|j: int| 0 <= j < r@.len() ==> #[trigger] r@[j].piece_offset + r@[j].len
                <= self.piece_len_spec(index as int),
    {
        proof {
            self.lemma_piece_in_download(index as int);
            self.lemma_files_in_download();
        }
        let t = self.torrent_piece_offset(index);
        let l = match self.piece_len(index) {
            Some(l) => l,
            None => 0,
        };
        let e = t + l as u64;
        let mut out: Vec<FileSpan> = Vec::new();
        let mut k: usize = range.0;
        while k < range.1
            invariant
                range.0 <= k <= range.1,
                self.wf(),
                forall|i: int| 0 <= i < self.files@.len() ==> #[trigger] self.files@[i].torrent_offset
                    + self.files@[i].len <= self.download_len,
                self.is_file_range(index as int, range),
                t == self.piece_offset_spec(index as int),
                l == self.piece_len_spec(index as int),
                e == t + l,
                out@ =~= self.spans_spec(index as int, range).take(k - range.0),
                forall|j: int| 0 <= j < out@.len() ==> #[trigger] out@[j].piece_offset + out@[j].len
                    <= l,
            decreases range.1 - k,
        {
            let f = self.files[k];
            assert(intersects(self.files@[k as int], t as int, l as int));
            let lo = if f.torrent_offset > t { f.torrent_offset } else { t };
            let f_end = f.torrent_offset + f.len;
            let hi = if f_end < e { f_end } else { e };
            let span = FileSpan {
                file_index: k,
                file_offset: lo - f.torrent_offset,
                piece_offset: (lo - t) as u32,
                len: (hi - lo) as u32,
            };
            out.push(span);
            k = k + 1;
        }
        out
    }

    /// Every file ends within the download.
    pub proof fn lemma_files_in_download(&self)
        requires
            self.wf(),
        ensures
            forall|k: int| 0 <= k < self.files@.len() ==> #[trigger] self.files@[k].torrent_offset
                + self.files@[k].len <= self.download_len,
    {
        let n = self.files@.len() as int;
        assert forall|k: int| 0 <= k < n implies #[trigger] self.files@[k].torrent_offset
            + self.files@[k].len <= self.download_len by {
            if k < n - 1 {
                lemma_files_ordered(self.files@, k, n - 1);
            }
        }
    }

    /// A piece lies within the download.
    pub proof fn lemma_piece_in_download(&self, index: int)
        requires
            self.wf(),
            0 <= index < self.piece_count,
        ensures
            0 < self.piece_len_spec(index),
            self.piece_offset_spec(index) + self.piece_len_spec(index) <= self.download_len,
    {
        let pl = self.piece_len as int;
        let c = self.piece_count as int;
        if index < c - 1 {
            assert((index + 1) * pl <= (c - 1) * pl) by (nonlinear_arith)
                requires
                    index + 1 <= c - 1,
                    pl > 0,
            ;
            assert(index * pl + pl == (index + 1) * pl) by (nonlinear_arith);
        }
    }

    /// Returns the length of piece `index`, or `None` where the torrent has no
    /// such piece.
    pub fn piece_len(&self, index: PieceIndex) -> (r: Option<u32>)
        requires
            self.wf(),
        ensures
            r == (if index < self.piece_count {
                Some(self.piece_len_spec(index as int) as u32)
            } else {
                None
            }),
    {
        if index as u64 >= self.piece_count {
            None
        } else if index as u64 == self.piece_count - 1 {
            Some(self.last_piece_len)
        } else {
            Some(self.piece_len)
        }
    }

    /// Returns where piece `index` starts in the torrent's byte space.
    pub fn torrent_piece_offset(&self, index: PieceIndex) -> (r: u64)
        requires
            self.wf(),
            index < self.piece_count,
        ensures
            r == self.piece_offset_spec(index as int),
    {
        proof {
            self.lemma_piece_in_download(index as int);
        }
        (index as u64) * (self.piece_len as u64)
    }

    /// Returns the half-open range of the files that piece `index` overlaps,
    /// or `None` where the torrent has no such piece.
    pub fn files_intersecting_piece(&self, index: PieceIndex) -> (r: Option<(usize, usize)>)
        requires
            self.wf(),
        ensures
            r.is_none() <==> index >= self.piece_count,
            r matches Some((start, end)) ==> {
                &&& start <= end <= self.files@.len()
                &&& forall|k: int|
                    0 <= k < self.files@.len() ==> (start <= k < end <==> intersects(
                        #[trigger] self.files@[k],
                        self.piece_offset_spec(index as int),
                        self.piece_len_spec(index as int),
                    ))
            },
    {
        if index as u64 >= self.piece_count {
            return None;
        }
        let ghost files = self.files@;
        let ghost n = files.len() as int;
        proof {
            self.lemma_piece_in_download(index as int);
            assert forall|k: int| 0 <= k < n implies #[trigger] files[k].torrent_offset
                + files[k].len <= self.download_len by {
                if k < n - 1 {
                    lemma_files_ordered(files, k, n - 1);
                }
            }
        }
        let start_off = self.torrent_piece_offset(index);
        let len = match self.piece_len(index) {
            Some(l) => l,
            None => 0,
        };
        let end_off = start_off + len as u64;
        let mut start: usize = 0;
        while start < self.files.len() && self.files[start].torrent_offset
            + self.files[start].len <= start_off
            invariant
                start <= n,
                n == self.files@.len(),
                files == self.files@,
                forall|k: int| 0 <= k < n ==> #[trigger] files[k].torrent_offset + files[k].len
                    <= self.download_len,
                forall|j: int| 0 <= j < start ==> #[trigger] files[j].torrent_offset + files[j].len
                    <= start_off,
            decreases n - start,
        {
            start = start + 1;
        }
        let mut end: usize = start;
        while end < self.files.len() && self.files[end].torrent_offset < end_off
            invariant
                start <= end <= n,
                n == self.files@.len(),
                files == self.files@,
                forall|j: int| start <= j < end ==> #[trigger] files[j].torrent_offset < end_off,
            decreases n - end,
        {
            end = end + 1;
        }
        proof {
            let t = start_off as int;
            let l = len as int;
            assert forall|k: int| 0 <= k < n implies (start <= k < end <==> intersects(
                #[trigger] files[k],
                t,
                l,
            )) by {
                if k < start {
                    assert(files[k].torrent_offset + files[k].len <= t);
                } else if k < end {
                    if k > start {
                        lemma_files_ordered(files, start as int, k);
                    }
                } else {
                    if k > end {
                        lemma_files_ordered(files, end as int, k);
                    }
                }
            }
        }
        Some((start, end))
    }
}

/// Returns the bytes of `piece` that `span` covers.
pub fn span_bytes(piece: &Vec<u8>, span: &FileSpan) -> (r: Vec<u8>)
    requires
        span.piece_offset + span.len <= piece@.len(),
    ensures
        r@ == piece@.subrange(span.piece_offset as int, span.piece_offset + span.len),
{
    let n = piece.len();
    let start = span.piece_offset as usize;
    let end = start + span.len as usize;
    let mut out: Vec<u8> = Vec::new();
    let mut i: usize = start;
    while i < end
        invariant
            start <= i <= end,
            end <= piece@.len(),
            out@ =~= piece@.subrange(start as int, i as int),
        decreases end - i,
    {
        out.push(piece[i]);
        i = i + 1;
    }
    out
}

} // verus!
