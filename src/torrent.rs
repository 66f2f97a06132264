use vstd::prelude::*;
use std::collections::HashMap;
use std::sync::Arc;
use crate::block::{block_count, block_len, block_count_spec, block_len_spec, BlockInfo, PieceIndex, BLOCK_LEN};
use crate::cache::{CachedBlock, ReadCache};
use crate::piece::{held_len, lemma_concat_len, Piece};
use crate::storage::{span_bytes, FileSpan, StorageInfo};

verus! {

broadcast use vstd::std_specs::hash::group_hash_axioms;

/// The length of a piece's SHA-1 digest in the concatenated hash table.
pub const HASH_LEN: usize = 20;

/// Why a piece could not be completed.
#[derive(Clone, Copy, Debug, PartialEq, Eq, Structural)]
pub enum WriteError {
    /// The piece index is outside the torrent.
    InvalidPieceIndex,
    /// The block's offset or length does not fit the piece.
    InvalidBlockOffset,
    /// Writing to a file failed.
    Io,
}

/// Why a block could not be read.
#[derive(Clone, Copy, Debug, PartialEq, Eq, Structural)]
pub enum ReadError {
    /// The piece index is outside the torrent.
    InvalidPieceIndex,
    /// The block offset is outside the piece.
    InvalidBlockOffset,
    /// The files do not hold the piece's bytes yet.
    MissingData,
    /// Reading from a file failed.
    Io,
}

/// Bytes to be written at one span of one file.
pub struct FileWrite {
    pub span: FileSpan,
    pub data: Vec<u8>,
}

/// A complete piece taken out of the write buffer, with the file spans that
/// its bytes go to.
pub struct PieceFlush {
    pub index: PieceIndex,
    pub piece: Piece,
    pub spans: Vec<FileSpan>,
}

impl PieceFlush {
    /// A complete well-formed piece whose spans lie within it.
    pub open spec fn wf(&self) -> bool {
        &&& self.piece.wf()
        &&& held_len(self.piece.slots()) == self.piece.len
        &&& forall|j: int| 0 <= j < self.spans@.len() ==> #[trigger] self.spans@[j].piece_offset
            + self.spans@[j].len <= self.piece.len
    }

    /// Whether the piece's bytes have its expected SHA-1 digest.
    pub fn is_valid(&self) -> (r: bool)
        requires
            self.wf(),
        ensures
            r == (crate::piece::sha1_of(self.piece.bytes()) == self.piece.expected_hash@),
    {
        self.piece.matches_hash()
    }

    /// Hashes the piece and returns whether it is valid, with the writes to
    /// make: every span's bytes for a valid piece, nothing for an invalid one,
    /// which never reaches the disk.
    pub fn plan(&self) -> (r: (bool, Vec<FileWrite>))
        requires
            self.wf(),
        ensures
            r.0 == (crate::piece::sha1_of(self.piece.bytes()) == self.piece.expected_hash@),
            !r.0 ==> r.1@.len() == 0,
            r.0 ==> r.1@.len() == self.spans@.len(),
            r.0 ==> forall|j: int|
                0 <= j < r.1@.len() ==> {
                    let s = #[trigger] self.spans@[j];
                    &&& r.1@[j].span == s
                    &&& r.1@[j].data@ == self.piece.bytes().subrange(
                        s.piece_offset as int,
                        s.piece_offset + s.len,
                    )
                },
    {
        if self.is_valid() {
            (true, self.file_writes())
        } else {
            (false, Vec::new())
        }
    }

    /// Returns, for each span, the piece's bytes that go there.
    pub fn file_writes(&self) -> (r: Vec<FileWrite>)
        requires
            self.wf(),
        ensures
            r@.len() == self.spans@.len(),
            forall|j: int|
                0 <= j < r@.len() ==> {
                    let s = #[trigger] self.spans@[j];
                    &&& r@[j].span == s
                    &&& r@[j].data@ == self.piece.bytes().subrange(
                        s.piece_offset as int,
                        s.piece_offset + s.len,
                    )
                },
    {
        let bytes = self.piece.assemble();
        proof {
            lemma_concat_len(self.piece.slots());
        }
        let mut out: Vec<FileWrite> = Vec::new();
        let mut j: usize = 0;
        while j < self.spans.len()
            invariant
                self.wf(),
                bytes@ == self.piece.bytes(),
                bytes@.len() == self.piece.len,
                j <= self.spans@.len(),
                out@.len() == j,
                forall|i: int|
                    0 <= i < j ==> {
                        let s = #[trigger] self.spans@[i];
                        &&& out@[i].span == s
                        &&& out@[i].data@ == self.piece.bytes().subrange(
                            s.piece_offset as int,
                            s.piece_offset + s.len,
                        )
                    },
            decreases self.spans@.len() - j,
        {
            let span = self.spans[j];
            assert(span.piece_offset + span.len <= self.piece.len);
            let data = span_bytes(&bytes, &span);
            out.push(FileWrite { span, data });
            j = j + 1;
        }
        out
    }
}

/// The outcome of hashing and writing a complete piece.
#[derive(Clone, Copy, Debug, PartialEq, Eq, Structural)]
pub struct PieceCompletion {
    pub index: PieceIndex,
    pub is_valid: bool,
}

/// The next step of flushing a piece.
#[derive(Clone, Copy, Debug)]
pub enum FlushStep {
    /// Perform the write at this position of the plan.
    Write(usize),
    /// All is done: report this outcome to the torrent.
    Report(Result<PieceCompletion, WriteError>),
}

/// Decides the next step of flushing piece `index`, whose plan holds
/// `n_writes` writes of which the first `done` succeeded; `failed` says that
/// the write after those failed. A failed write ends the flush with an error
/// and no later write is made; otherwise the writes are made in order and the
/// piece's validity is reported at the end.
pub fn flush_step(index: PieceIndex, is_valid: bool, n_writes: usize, done: usize, failed: bool) -> (r:
    FlushStep)
    requires
        done <= n_writes,
    ensures
        failed ==> r == FlushStep::Report(Err(WriteError::Io)),
        !failed && done < n_writes ==> r == FlushStep::Write(done),
        !failed && done == n_writes ==> r == FlushStep::Report(
            Ok(PieceCompletion { index, is_valid }),
        ),
{
    if failed {
        FlushStep::Report(Err(WriteError::Io))
    } else if done < n_writes {
        FlushStep::Write(done)
    } else {
        FlushStep::Report(Ok(PieceCompletion { index, is_valid }))
    }
}

/// What the caller does after a block was handed to the write buffer.
pub enum WriteAction {
    /// The block names no piece of the torrent: report the error upstream.
    Rejected(WriteError),
    /// The block does not fit the piece's block layout and was dropped.
    BlockRefused,
    /// The block was stored and the piece still lacks bytes.
    Buffered,
    /// The piece is complete and left the write buffer: hash it and, if it is
    /// valid, write it.
    Flush(PieceFlush),
}

/// The disk state of one torrent: its layout, the pieces being assembled, the
/// expected piece hashes and the read cache.
pub struct Torrent {
    pub info: StorageInfo,
    pub write_buf: HashMap<PieceIndex, Piece>,
    pub piece_hashes: Vec<u8>,
    pub read_cache: Arc<ReadCache>,
}

impl Torrent {
    /// Whether the hash table has an entry for piece `index` and the torrent
    /// has such a piece.
    pub open spec fn is_valid_index(&self, index: int) -> bool {
        &&& index * HASH_LEN + HASH_LEN <= self.piece_hashes@.len()
        &&& index < self.info.piece_count
    }

    /// The expected digest of piece `index`.
    pub open spec fn expected_hash_spec(&self, index: int) -> Seq<u8> {
        self.piece_hashes@.subrange(index * HASH_LEN, index * HASH_LEN + HASH_LEN)
    }

    /// Whether `p` is a buffer for piece `index` of this torrent.
    pub open spec fn piece_fits(&self, index: int, p: Piece) -> bool {
        &&& p.wf()
        &&& self.is_valid_index(index)
        &&& p.len == self.info.piece_len_spec(index)
        &&& p.expected_hash@ == self.expected_hash_spec(index)
        &&& self.info.is_file_range(index, p.file_range)
    }

    /// A consistent layout, and every buffered piece fitting its index.
    pub open spec fn wf(&self) -> bool {
        &&& self.info.wf()
        &&& forall|k: PieceIndex| #[trigger]
            self.write_buf@.contains_key(k) ==> self.piece_fits(k as int, self.write_buf@[k])
    }

    /// The block slots of piece `index` before a block arrives: those of its
    /// buffer, or empty ones where it has none yet.
    pub open spec fn slots_before(&self, index: PieceIndex) -> Seq<Option<Seq<u8>>> {
        if self.write_buf@.contains_key(index) {
            self.write_buf@[index].slots()
        } else {
            Seq::new(
                block_count_spec(self.info.piece_len_spec(index as int) as nat),
                |i: int| None,
            )
        }
    }

    /// Whether a block at `offset` of `len` bytes fits the block layout of
    /// piece `index`.
    pub open spec fn accepts_block(&self, index: PieceIndex, offset: u32, len: nat) -> bool {
        let l = self.info.piece_len_spec(index as int) as nat;
        &&& offset % BLOCK_LEN == 0
        &&& offset / BLOCK_LEN < block_count_spec(l)
        &&& len == block_len_spec(l, (offset / BLOCK_LEN) as nat)
    }

    /// Creates the disk state of a torrent with layout `info` and the
    /// concatenated piece digests `piece_hashes`.
    pub fn new(info: StorageInfo, piece_hashes: Vec<u8>) -> (r: Torrent)
        requires
            info.wf(),
        ensures
            r.wf(),
            r.info == info,
            r.piece_hashes == piece_hashes,
            r.write_buf@ == Map::<PieceIndex, Piece>::empty(),
    {
        Torrent { info, write_buf: HashMap::new(), piece_hashes, read_cache: Arc::new(ReadCache::new()) }
    }

    /// Starts the buffer of piece `index`, which has none yet: its expected digest, its length and
    /// the files it overlaps. Fails, creating nothing, where the hash table or
    /// the torrent has no such piece.
    pub fn start_new_piece(&mut self, index: PieceIndex) -> (r: Result<(), WriteError>)
        requires
            old(self).wf(),
            !old(self).write_buf@.contains_key(index),
        ensures
            final(self).wf(),
            final(self).info == old(self).info,
            final(self).piece_hashes == old(self).piece_hashes,
            final(self).read_cache == old(self).read_cache,
            r.is_err() <==> !old(self).is_valid_index(index as int),
            r.is_err() ==> r == Err::<(), WriteError>(WriteError::InvalidPieceIndex)
                && final(self).write_buf@ == old(self).write_buf@,
            r.is_ok() ==> {
                &&& final(self).write_buf@ == old(self).write_buf@.insert(
                    index,
                    final(self).write_buf@[index],
                )
                &&& final(self).write_buf@[index].slots() == Seq::new(
                    block_count_spec(old(self).info.piece_len_spec(index as int) as nat),
                    |i: int| None::<Seq<u8>>,
                )
            },
    {
        let n = self.piece_hashes.len();
        let pos = match index.checked_mul(HASH_LEN) {
            Some(p) => p,
            None => return Err(WriteError::InvalidPieceIndex),
        };
        if n < HASH_LEN || pos > n - HASH_LEN {
            return Err(WriteError::InvalidPieceIndex);
        }
        let len = match self.info.piece_len(index) {
            Some(l) => l,
            None => return Err(WriteError::InvalidPieceIndex),
        };
        let range = match self.info.files_intersecting_piece(index) {
            Some(r) => r,
            None => return Err(WriteError::InvalidPieceIndex),
        };
        let mut hash: [u8; 20] = [0u8; 20];
        let mut i: usize = 0;
        while i < HASH_LEN
            invariant
                i <= HASH_LEN,
                pos == index * HASH_LEN,
                pos + HASH_LEN <= n,
                n == self.piece_hashes@.len(),
                hash@.len() == HASH_LEN,
                forall|j: int| 0 <= j < i ==> hash@[j] == self.piece_hashes@[pos + j],
            decreases HASH_LEN - i,
        {
            hash[i] = self.piece_hashes[pos + i];
            i = i + 1;
        }
        proof {
            self.info.lemma_piece_in_download(index as int);
            assert(hash@ =~= self.expected_hash_spec(index as int));
        }
        let piece = Piece::new(hash, len, range);
        proof {
            assert(piece.slots() =~= Seq::new(block_count_spec(len as nat), |i: int| None));
        }
        self.write_buf.insert(index, piece);
        Ok(())
    }

    /// Hands a block to the write buffer. Where the piece has no buffer yet,
    /// one is started; where that fails, the error is returned for the caller
    /// to report and nothing is buffered. A block that fits the piece's layout
    /// replaces whatever was at its offset. When the bytes held reach the
    /// piece's length, the piece leaves the buffer and is returned to be hashed
    /// and written, so no further block can reach it.
    pub fn write_block(&mut self, info: BlockInfo, data: Vec<u8>) -> (r: WriteAction)
        requires
            old(self).wf(),
        ensures
            final(self).wf(),
            final(self).info == old(self).info,
            final(self).piece_hashes == old(self).piece_hashes,
            final(self).read_cache == old(self).read_cache,
            ({
                let idx = info.piece_index;
                let known = old(self).write_buf@.contains_key(idx);
                let l = old(self).info.piece_len_spec(idx as int);
                let slots = old(self).slots_before(idx).update(
                    (info.offset / BLOCK_LEN) as int,
                    Some(data@),
                );
                if !known && !old(self).is_valid_index(idx as int) {
                    &&& r == WriteAction::Rejected(WriteError::InvalidPieceIndex)
                    &&& final(self).write_buf@ == old(self).write_buf@
                } else if !old(self).accepts_block(idx, info.offset, data@.len()) {
                    &&& r == WriteAction::BlockRefused
                    &&& final(self).write_buf@.contains_key(idx)
                    &&& final(self).write_buf@[idx].slots() == old(self).slots_before(idx)
                    &&& final(self).write_buf@.remove(idx) == old(self).write_buf@.remove(idx)
                } else if held_len(slots) == l {
                    &&& r matches WriteAction::Flush(f) && {
                        &&& f.wf()
                        &&& f.index == idx
                        &&& f.piece.slots() == slots
                        &&& f.piece.len == l
                        &&& f.piece.expected_hash@ == old(self).expected_hash_spec(idx as int)
                        &&& old(self).info.is_file_range(idx as int, f.piece.file_range)
                        &&& f.spans@ == old(self).info.spans_spec(idx as int, f.piece.file_range)
                    }
                    &&& final(self).write_buf@ == old(self).write_buf@.remove(idx)
                } else {
                    &&& r == WriteAction::Buffered
                    &&& final(self).write_buf@.contains_key(idx)
                    &&& final(self).write_buf@[idx].slots() == slots
                    &&& final(self).write_buf@.remove(idx) == old(self).write_buf@.remove(idx)
                }
            }),
    {
        let idx = info.piece_index;
        if !self.write_buf.contains_key(&idx) {
            if let Err(e) = self.start_new_piece(idx) {
                return WriteAction::Rejected(e);
            }
        }
        let ghost mid = self.write_buf@;
        let mut piece = match self.write_buf.remove(&idx) {
            Some(p) => p,
            None => {
                // unreachable: the piece's buffer was found or started above
                proof {
                    assert(mid.contains_key(idx));
                }
                return WriteAction::BlockRefused;
            },
        };
        assert(self.piece_fits(idx as int, piece));
        assert(piece.slots() == old(self).slots_before(idx));
        let accepted = piece.enqueue_block(info.offset, data);
        if !accepted {
            self.write_buf.insert(idx, piece);
            proof {
                assert(self.write_buf@.remove(idx) =~= old(self).write_buf@.remove(idx));
            }
            return WriteAction::BlockRefused;
        }
        if piece.is_complete() {
            let spans = self.info.file_spans(idx, piece.file_range);
            proof {
                assert(self.write_buf@ =~= old(self).write_buf@.remove(idx));
            }
            return WriteAction::Flush(PieceFlush { index: idx, piece, spans });
        }
        self.write_buf.insert(idx, piece);
        proof {
            assert(self.write_buf@.remove(idx) =~= old(self).write_buf@.remove(idx));
        }
        WriteAction::Buffered
    }
}

/// The bytes of the block at `index` in a piece whose bytes are `bytes`.
pub open spec fn block_of(bytes: Seq<u8>, index: int) -> Seq<u8> {
    bytes.subrange(
        index * BLOCK_LEN,
        index * BLOCK_LEN + block_len_spec(bytes.len(), index as nat),
    )
}

/// Byte sequences concatenated in order.
pub open spec fn concat_all(parts: Seq<Seq<u8>>) -> Seq<u8>
    decreases parts.len(),
{
    if parts.len() == 0 {
        Seq::empty()
    } else {
        concat_all(parts.drop_last()) + parts.last()
    }
}

/// Splits a piece's bytes into its blocks, in offset order.
pub fn split_blocks(bytes: &Vec<u8>) -> (r: Vec<CachedBlock>)
    requires
        0 < bytes@.len() <= u32::MAX,
    ensures
        r@.len() == block_count_spec(bytes@.len()),
        forall|i: int| 0 <= i < r@.len() ==> (#[trigger] r@[i])@ == block_of(bytes@, i),
{
    let len = bytes.len() as u32;
    let n = block_count(len);
    let mut out: Vec<CachedBlock> = Vec::new();
    let mut i: usize = 0;
    while i < n
        invariant
            i <= n,
            n == block_count_spec(len as nat),
            len == bytes@.len(),
            out@.len() == i,
            forall|k: int| 0 <= k < i ==> (#[trigger] out@[k])@ == block_of(bytes@, k),
        decreases n - i,
    {
        let bl = block_len(len, i);
        assert(i * BLOCK_LEN + bl <= len) by (nonlinear_arith)
            requires
                bl == block_len_spec(len as nat, i as nat),
                bl > 0,
        ;
        let span = FileSpan {
            file_index: 0,
            file_offset: 0,
            piece_offset: (i as u32) * BLOCK_LEN,
            len: bl,
        };
        let block = span_bytes(bytes, &span);
        out.push(Arc::new(block));
        i = i + 1;
    }
    out
}

/// Returns the block at `block_index` of a cached piece, or the error where the
/// piece has no such block.
pub fn serve_cached(block_index: usize, blocks: Vec<CachedBlock>) -> (r: ReadAction)
    ensures
        block_index >= blocks@.len() ==> r == ReadAction::Rejected(ReadError::InvalidBlockOffset),
        block_index < blocks@.len() ==> (r matches ReadAction::Serve(b) && b@
            == blocks@[block_index as int]@),
{
    if block_index >= blocks.len() {
        return ReadAction::Rejected(ReadError::InvalidBlockOffset);
    }
    let mut blocks = blocks;
    let block = blocks.swap_remove(block_index);
    ReadAction::Serve(block)
}

/// A read that missed the cache: the whole piece is to be read from the
/// files at `spans`, then handed to `Torrent::finish_read`.
pub struct PieceLoad {
    pub piece_index: PieceIndex,
    pub block_index: usize,
    pub piece_len: u32,
    pub file_range: (usize, usize),
    pub spans: Vec<FileSpan>,
}

/// What the caller does with a block request.
pub enum ReadAction {
    /// The request is malformed: report the error upstream.
    Rejected(ReadError),
    /// The block was in the cache: send it to the peer.
    Serve(CachedBlock),
    /// The piece is not cached: read it from disk.
    Load(PieceLoad),
}

impl Torrent {
    /// Answers a block request given what the read cache holds for its piece.
    /// A piece index outside the torrent is an error. A cached piece serves
    /// the block, or refuses it where the block offset lies outside the piece;
    /// a piece that is not cached is to be read from disk whole, which the
    /// result describes.
    pub fn answer_read(&self, block_info: BlockInfo, cached: Option<Vec<CachedBlock>>) -> (r:
        ReadAction)
        requires
            self.wf(),
        ensures
            block_info.piece_index >= self.info.piece_count ==> r == ReadAction::Rejected(
                ReadError::InvalidPieceIndex,
            ),
            block_info.piece_index < self.info.piece_count && cached.is_none() ==> (r matches ReadAction::Load(l) && {
                &&& l.piece_index == block_info.piece_index
                &&& l.block_index == block_info.index_in_piece_spec()
                &&& l.piece_len == self.info.piece_len_spec(block_info.piece_index as int)
                &&& self.info.is_file_range(block_info.piece_index as int, l.file_range)
                &&& l.spans@ == self.info.spans_spec(block_info.piece_index as int, l.file_range)
            }),
            block_info.piece_index < self.info.piece_count ==> (cached matches Some(bs) ==> {
                &&& block_info.index_in_piece_spec() >= bs@.len() ==> r == ReadAction::Rejected(
                    ReadError::InvalidBlockOffset,
                )
                &&& block_info.index_in_piece_spec() < bs@.len() ==> (r matches ReadAction::Serve(
                    b,
                ) && b@ == bs@[block_info.index_in_piece_spec() as int]@)
            }),
    {
        let idx = block_info.piece_index;
        let range = match self.info.files_intersecting_piece(idx) {
            Some(r) => r,
            None => return ReadAction::Rejected(ReadError::InvalidPieceIndex),
        };
        let block_index = block_info.index_in_piece();
        if let Some(blocks) = cached {
            return serve_cached(block_index, blocks);
        }
        let piece_len = match self.info.piece_len(idx) {
            Some(l) => l,
            None => return ReadAction::Rejected(ReadError::InvalidPieceIndex),
        };
        let spans = self.info.file_spans(idx, range);
        ReadAction::Load(
            PieceLoad { piece_index: idx, block_index, piece_len, file_range: range, spans },
        )
    }

    /// Answers a block request: looks the piece up in the read cache, which
    /// other threads fill concurrently, and answers with what it found (see
    /// `answer_read`).
    pub fn read_block(&self, block_info: BlockInfo) -> (r: ReadAction)
        requires
            self.wf(),
        ensures
            block_info.piece_index >= self.info.piece_count ==> r == ReadAction::Rejected(
                ReadError::InvalidPieceIndex,
            ),
            block_info.piece_index < self.info.piece_count ==> match r {
                ReadAction::Load(l) => {
                    &&& l.piece_index == block_info.piece_index
                    &&& l.block_index == block_info.index_in_piece_spec()
                    &&& l.piece_len == self.info.piece_len_spec(block_info.piece_index as int)
                    &&& self.info.is_file_range(block_info.piece_index as int, l.file_range)
                    &&& l.spans@ == self.info.spans_spec(
                        block_info.piece_index as int,
                        l.file_range,
                    )
                },
                ReadAction::Rejected(e) => e == ReadError::InvalidBlockOffset,
                ReadAction::Serve(_) => true,
            },
    {
        let cached = self.read_cache.get(block_info.piece_index);
        self.answer_read(block_info, cached)
    }
}

impl ReadCache {
    /// Completes a read that missed the cache, given the bytes read from each
    /// span of the piece, in span order. Where a span came back short or long
    /// the data is missing. Otherwise the piece's blocks are cached and the
    /// requested block is returned, or the error where the piece has no such
    /// block.
    pub fn finish_read(&self, load: &PieceLoad, span_data: &Vec<Vec<u8>>) -> (r: Result<
        CachedBlock,
        ReadError,
    >)
        requires
            0 < load.piece_len,
        ensures
            ({
                let parts = span_data@.map_values(|v: Vec<u8>| v@);
                let complete = span_data@.len() == load.spans@.len() && (forall|j: int|
                    0 <= j < span_data@.len() ==> (#[trigger] span_data@[j])@.len()
                        == load.spans@[j].len) && concat_all(parts).len() == load.piece_len;
                if !complete {
                    r == Err::<CachedBlock, ReadError>(ReadError::MissingData)
                } else if load.block_index >= block_count_spec(load.piece_len as nat) {
                    r == Err::<CachedBlock, ReadError>(ReadError::InvalidBlockOffset)
                } else {
                    (r matches Ok(b) && b@ == block_of(concat_all(parts), load.block_index as int))
                }
            }),
    {
        let ghost parts = span_data@.map_values(|v: Vec<u8>| v@);
        if span_data.len() != load.spans.len() {
            return Err(ReadError::MissingData);
        }
        let mut bytes: Vec<u8> = Vec::new();
        let mut j: usize = 0;
        while j < span_data.len()
            invariant
                j <= span_data@.len(),
                span_data@.len() == load.spans@.len(),
                parts == span_data@.map_values(|v: Vec<u8>| v@),
                forall|k: int| 0 <= k < j ==> (#[trigger] span_data@[k])@.len()
                    == load.spans@[k].len,
                bytes@ == concat_all(parts.take(j as int)),
                bytes@.len() <= load.piece_len,
            decreases span_data@.len() - j,
        {
            let part = &span_data[j];
            if part.len() as u64 != load.spans[j].len as u64 {
                return Err(ReadError::MissingData);
            }
            proof {
                assert(parts.take(j + 1).drop_last() =~= parts.take(j as int));
                assert(parts.take(j + 1).last() == part@);
            }
            if part.len() > load.piece_len as usize - bytes.len() {
                proof {
                    lemma_concat_all_prefix_le(parts, j + 1);
                }
                return Err(ReadError::MissingData);
            }
            let mut k: usize = 0;
            let ghost before = bytes@;
            while k < part.len()
                invariant
                    k <= part@.len(),
                    bytes@ == before + part@.take(k as int),
                decreases part@.len() - k,
            {
                bytes.push(part[k]);
                k = k + 1;
                proof {
                    assert(part@.take(k as int) =~= part@.take(k - 1) + seq![part@[k - 1]]);
                }
            }
            proof {
                assert(part@.take(part@.len() as int) =~= part@);
            }
            j = j + 1;
        }
        proof {
            assert(parts.take(j as int) =~= parts);
        }
        if bytes.len() != load.piece_len as usize {
            return Err(ReadError::MissingData);
        }
        let blocks = split_blocks(&bytes);
        if load.block_index >= blocks.len() {
            self.insert(load.piece_index, blocks);
            return Err(ReadError::InvalidBlockOffset);
        }
        let bl = block_len(load.piece_len, load.block_index);
        assert(load.block_index * BLOCK_LEN + bl <= load.piece_len) by (nonlinear_arith)
            requires
                bl == block_len_spec(load.piece_len as nat, load.block_index as nat),
                bl > 0,
        ;
        let span = FileSpan {
            file_index: 0,
            file_offset: 0,
            piece_offset: (load.block_index as u32) * BLOCK_LEN,
            len: bl,
        };
        let block = Arc::new(span_bytes(&bytes, &span));
        self.insert(load.piece_index, blocks);
        Ok(block)
    }
}

/// A prefix of the parts concatenates to no more than all of them.
pub proof fn lemma_concat_all_prefix_le(parts: Seq<Seq<u8>>, i: int)
    requires
        0 <= i <= parts.len(),
    ensures
        concat_all(parts.take(i)).len() <= concat_all(parts).len(),
    decreases parts.len() - i,
{
    if i < parts.len() {
        lemma_concat_all_prefix_le(parts, i + 1);
        assert(parts.take(i + 1).drop_last() =~= parts.take(i));
    } else {
        assert(parts.take(i) =~= parts);
    }
}

} // verus!
