use vstd::prelude::*;
use crate::block::{block_count_spec, block_len_spec, BLOCK_LEN};
use crate::piece::{concat_slots, held_len, lemma_concat_len, slot_len, Piece};
use crate::storage::{intersects, lemma_files_ordered, span_of, FileInfo, StorageInfo};
use crate::torrent::{block_of, concat_all, PieceFlush};

verus! {

/// The slots of a piece after a block at `offset` was stored.
pub open spec fn after_enqueue(slots: Seq<Option<Seq<u8>>>, offset: u32, data: Seq<u8>) -> Seq<
    Option<Seq<u8>>,
> {
    slots.update((offset / BLOCK_LEN) as int, Some(data))
}

/// Blocks at different offsets may arrive in either order: the piece ends up
/// holding the same blocks, hence the same byte count and the same
/// completeness.
pub proof fn lemma_enqueue_order_irrelevant(
    slots: Seq<Option<Seq<u8>>>,
    o1: u32,
    d1: Seq<u8>,
    o2: u32,
    d2: Seq<u8>,
)
    requires
        o1 / BLOCK_LEN != o2 / BLOCK_LEN,
        o1 / BLOCK_LEN < slots.len(),
        o2 / BLOCK_LEN < slots.len(),
    ensures
        after_enqueue(after_enqueue(slots, o1, d1), o2, d2) == after_enqueue(
            after_enqueue(slots, o2, d2),
            o1,
            d1,
        ),
        held_len(after_enqueue(after_enqueue(slots, o1, d1), o2, d2)) == held_len(
            after_enqueue(after_enqueue(slots, o2, d2), o1, d1),
        ),
{
    assert(after_enqueue(after_enqueue(slots, o1, d1), o2, d2) =~= after_enqueue(
        after_enqueue(slots, o2, d2),
        o1,
        d1,
    ));
}

/// A block sent again at the same offset replaces the first copy: the piece
/// keeps one slot per offset and holds only the later payload there.
pub proof fn lemma_resubmit_overwrites(
    slots: Seq<Option<Seq<u8>>>,
    offset: u32,
    first: Seq<u8>,
    again: Seq<u8>,
)
    requires
        offset / BLOCK_LEN < slots.len(),
    ensures
        after_enqueue(after_enqueue(slots, offset, first), offset, again) == after_enqueue(
            slots,
            offset,
            again,
        ),
        after_enqueue(after_enqueue(slots, offset, first), offset, again).len() == slots.len(),
{
    assert(after_enqueue(after_enqueue(slots, offset, first), offset, again) =~= after_enqueue(
        slots,
        offset,
        again,
    ));
}

/// The bytes held by the first `k` slots of a well-formed piece are at most
/// those of its first `k` blocks, and equal them only where every one of
/// those slots is filled.
proof fn lemma_prefix_held(p: Piece, k: int)
    requires
        p.wf(),
        0 <= k <= p.slots().len(),
    ensures
        held_len(p.slots().take(k)) <= (if k * BLOCK_LEN <= p.len { k * BLOCK_LEN } else { p.len as int }),
        held_len(p.slots().take(k)) == (if k * BLOCK_LEN <= p.len { k * BLOCK_LEN } else { p.len as int })
            ==> forall|i: int| 0 <= i < k ==> (#[trigger] p.slots()[i]).is_some(),
        (forall|i: int| 0 <= i < k ==> (#[trigger] p.slots()[i]).is_some()) ==> held_len(
            p.slots().take(k),
        ) == (if k * BLOCK_LEN <= p.len { k * BLOCK_LEN } else { p.len as int }),
    decreases k,
{
    let s = p.slots();
    let l = p.len as int;
    if k > 0 {
        lemma_prefix_held(p, k - 1);
        assert(s.take(k).drop_last() =~= s.take(k - 1));
        assert(s.take(k).last() == s[k - 1]);
        let b = BLOCK_LEN as int;
        let bl = block_len_spec(p.len as nat, (k - 1) as nat) as int;
        assert(s[k - 1] == crate::piece::slot_view(p.blocks@[k - 1]));
        assert(slot_len(s[k - 1]) <= bl);
        assert((k - 1) * b < l) by (nonlinear_arith)
            requires
                k - 1 < (l + b - 1) / b,
                b == 16384,
        ;
        assert(k * b == (k - 1) * b + b) by (nonlinear_arith);
        assert(bl > 0);
    }
}

/// Once a well-formed piece holds its full length, every slot is filled, and
/// each block of its assembled bytes is the payload stored for that block.
pub proof fn lemma_assembled_blocks(p: Piece)
    requires
        p.wf(),
        held_len(p.slots()) == p.len,
    ensures
        p.bytes().len() == p.len,
        forall|i: int| 0 <= i < p.slots().len() ==> (#[trigger] p.slots()[i]).is_some(),
        forall|i: int|
            0 <= i < p.slots().len() ==> block_of(p.bytes(), i) == (#[trigger] p.slots()[i])->Some_0,
{
    let s = p.slots();
    let n = s.len() as int;
    let l = p.len as int;
    let b = BLOCK_LEN as int;
    assert(l <= n * b) by (nonlinear_arith)
        requires
            n == (l + b - 1) / b,
            b == 16384,
            l > 0,
    ;
    assert(s.take(n) =~= s);
    lemma_prefix_held(p, n);
    lemma_concat_len(s);
    assert forall|i: int| 0 <= i < n implies block_of(p.bytes(), i) == (#[trigger] s[i])->Some_0 by {
        lemma_prefix_held(p, i);
        lemma_prefix_held(p, i + 1);
        assert(i * b < l) by (nonlinear_arith)
            requires
                i < (l + b - 1) / b,
                b == 16384,
        ;
        assert((i + 1) * b == i * b + b) by (nonlinear_arith);
        lemma_concat_len(s.take(i));
        lemma_concat_prefix(s, i + 1);
        assert(s.take(i + 1).drop_last() =~= s.take(i));
        assert(s.take(i + 1).last() == s[i]);
        assert(s[i] == crate::piece::slot_view(p.blocks@[i]));
        let pre = concat_slots(s.take(i));
        let d = s[i]->Some_0;
        assert(concat_slots(s.take(i + 1)) == pre + d);
        assert(pre.len() == i * b);
        assert(d.len() == block_len_spec(p.len as nat, i as nat));
        assert(p.bytes().subrange(0, (pre + d).len() as int) == pre + d);
        assert(p.bytes().subrange(i * b, i * b + d.len()) =~= (pre + d).subrange(i * b, i * b + d.len()));
        assert((pre + d).subrange(i * b, i * b + d.len()) =~= d);
    }
}

/// Concatenating the first `k` slots gives a prefix of the concatenation of
/// all of them.
proof fn lemma_concat_prefix(s: Seq<Option<Seq<u8>>>, k: int)
    requires
        0 <= k <= s.len(),
    ensures
        concat_slots(s.take(k)).len() <= concat_slots(s).len(),
        concat_slots(s).subrange(0, concat_slots(s.take(k)).len() as int) == concat_slots(s.take(k)),
    decreases s.len(),
{
    if k == s.len() {
        assert(s.take(k) =~= s);
        assert(concat_slots(s).subrange(0, concat_slots(s).len() as int) =~= concat_slots(s));
    } else {
        let d = s.drop_last();
        lemma_concat_prefix(d, k);
        assert(d.take(k) =~= s.take(k));
        let c = concat_slots(d);
        let t = concat_slots(s.take(k));
        assert(concat_slots(s).subrange(0, t.len() as int) =~= c.subrange(0, t.len() as int));
    }
}

/// Some file holds each byte of the download.
proof fn lemma_file_holding(files: Seq<FileInfo>, pos: int)
    requires
        files.len() > 0,
        files[0].torrent_offset == 0,
        forall|i: int| 0 <= i < files.len() - 1 ==> #[trigger] files[i + 1].torrent_offset
            == files[i].torrent_offset + files[i].len,
        0 <= pos < files[files.len() - 1].torrent_offset + files[files.len() - 1].len,
    ensures
        exists|k: int|
            0 <= k < files.len() && #[trigger] files[k].torrent_offset <= pos < files[k].torrent_offset
                + files[k].len,
    decreases files.len(),
{
    let n = files.len() as int;
    if pos < files[n - 1].torrent_offset {
        let d = files.drop_last();
        assert(files[n - 2 + 1].torrent_offset == files[n - 2].torrent_offset + files[n - 2].len);
        assert forall|i: int| 0 <= i < d.len() - 1 implies #[trigger] d[i + 1].torrent_offset
            == d[i].torrent_offset + d[i].len by {
            assert(files[i + 1].torrent_offset == files[i].torrent_offset + files[i].len);
        }
        lemma_file_holding(d, pos);
        let k = choose|k: int|
            0 <= k < d.len() && #[trigger] d[k].torrent_offset <= pos < d[k].torrent_offset
                + d[k].len;
        assert(files[k] == d[k]);
    } else {
        assert(files[n - 1].torrent_offset <= pos);
    }
}

/// The file spans of a piece tile it: the first starts at the piece's first
/// byte, each starts where the one before ends, and the last ends at the
/// piece's end.
pub proof fn lemma_spans_tile(info: StorageInfo, index: int, range: (usize, usize))
    requires
        info.wf(),
        0 <= index < info.piece_count,
        info.is_file_range(index, range),
    ensures
        ({
            let sp = info.spans_spec(index, range);
            &&& sp.len() > 0
            &&& sp[0].piece_offset == 0
            &&& forall|j: int| 0 <= j < sp.len() - 1 ==> sp[j].piece_offset + #[trigger] sp[j].len
                == sp[j + 1].piece_offset
            &&& sp[sp.len() - 1].piece_offset + sp[sp.len() - 1].len == info.piece_len_spec(index)
        }),
{
    let files = info.files@;
    let n = files.len() as int;
    let t = info.piece_offset_spec(index);
    let l = info.piece_len_spec(index);
    let sp = info.spans_spec(index, range);
    info.lemma_piece_in_download(index);
    info.lemma_files_in_download();
    assert(0 <= t) by (nonlinear_arith)
        requires
            t == index * info.piece_len,
            index >= 0,
    ;
    lemma_file_holding(files, t);
    let k = choose|k: int|
        0 <= k < files.len() && #[trigger] files[k].torrent_offset <= t < files[k].torrent_offset
            + files[k].len;
    assert(intersects(files[k], t, l));
    let r0 = range.0 as int;
    let r1 = range.1 as int;
    assert(r0 <= k < r1);
    assert(intersects(files[r0], t, l));
    if r0 > 0 {
        assert(!intersects(files[r0 - 1], t, l));
        assert(files[r0 - 1 + 1].torrent_offset == files[r0 - 1].torrent_offset + files[r0 - 1].len);
        assert(files[r0 - 1].len > 0);
    }
    assert(files[r0].torrent_offset <= t);
    assert forall|j: int| 0 <= j < sp.len() - 1 implies sp[j].piece_offset + #[trigger] sp[j].len
        == sp[j + 1].piece_offset by {
        let a = r0 + j;
        assert(intersects(files[a], t, l));
        assert(intersects(files[a + 1], t, l));
        assert(files[a + 1].torrent_offset == files[a].torrent_offset + files[a].len);
    }
    let last = r1 - 1;
    assert(intersects(files[last], t, l));
    if r1 < n {
        assert(!intersects(files[r1], t, l));
        assert(files[last + 1].torrent_offset == files[last].torrent_offset + files[last].len);
        assert(files[r1].len > 0);
    } else {
        assert(files[last].torrent_offset + files[last].len == info.download_len);
    }
}

/// Parts cut from `bytes` at tiling spans concatenate back to `bytes`.
proof fn lemma_tiled_parts(bytes: Seq<u8>, sp: Seq<crate::storage::FileSpan>, parts: Seq<Seq<u8>>, j: int)
    requires
        sp.len() > 0,
        sp[0].piece_offset == 0,
        forall|i: int| 0 <= i < sp.len() - 1 ==> sp[i].piece_offset + #[trigger] sp[i].len
            == sp[i + 1].piece_offset,
        sp[sp.len() - 1].piece_offset + sp[sp.len() - 1].len == bytes.len(),
        forall|i: int| 0 <= i < sp.len() ==> #[trigger] sp[i].piece_offset + sp[i].len
            <= bytes.len(),
        parts.len() == sp.len(),
        forall|i: int| 0 <= i < sp.len() ==> #[trigger] parts[i] == bytes.subrange(
            sp[i].piece_offset as int,
            sp[i].piece_offset + sp[i].len,
        ),
        0 <= j < sp.len(),
    ensures
        concat_all(parts.take(j + 1)) == bytes.subrange(0, sp[j].piece_offset + sp[j].len),
    decreases j,
{
    let pj = parts[j];
    assert(pj == bytes.subrange(sp[j].piece_offset as int, sp[j].piece_offset + sp[j].len));
    let pre = parts.take(j);
    assert(parts.take(j + 1).drop_last() =~= pre);
    assert(parts.take(j + 1).last() == pj);
    assert(concat_all(parts.take(j + 1)) == concat_all(pre) + pj);
    if j == 0 {
        assert(pre =~= Seq::<Seq<u8>>::empty());
        assert(concat_all(pre) =~= Seq::<u8>::empty());
        assert(concat_all(pre) + pj =~= pj);
    } else {
        lemma_tiled_parts(bytes, sp, parts, j - 1);
        assert(parts.take(j - 1 + 1) =~= pre);
        assert(sp[j - 1].piece_offset + sp[j - 1].len == sp[j].piece_offset);
        assert(concat_all(pre) == bytes.subrange(0, sp[j].piece_offset as int));
        assert(bytes.subrange(0, sp[j].piece_offset + sp[j].len) =~= bytes.subrange(
            0,
            sp[j].piece_offset as int,
        ) + pj);
    }
}

/// What a flush writes can be read back: where the bytes read from the
/// piece's file spans are those that `PieceFlush::file_writes` put there, they
/// reassemble the piece, and each block of them, as `Torrent::finish_read`
/// returns it, is the payload that was stored for that block.
pub proof fn lemma_written_blocks_read_back(info: StorageInfo, f: PieceFlush, parts: Seq<Seq<u8>>)
    requires
        info.wf(),
        f.wf(),
        f.index < info.piece_count,
        f.piece.len == info.piece_len_spec(f.index as int),
        info.is_file_range(f.index as int, f.piece.file_range),
        f.spans@ == info.spans_spec(f.index as int, f.piece.file_range),
        parts.len() == f.spans@.len(),
        forall|j: int| 0 <= j < parts.len() ==> #[trigger] parts[j] == f.piece.bytes().subrange(
            f.spans@[j].piece_offset as int,
            f.spans@[j].piece_offset + f.spans@[j].len,
        ),
    ensures
        concat_all(parts) == f.piece.bytes(),
        forall|i: int|
            0 <= i < f.piece.slots().len() ==> block_of(concat_all(parts), i) == (
            #[trigger] f.piece.slots()[i])->Some_0,
{
    lemma_spans_tile(info, f.index as int, f.piece.file_range);
    lemma_assembled_blocks(f.piece);
    let sp = f.spans@;
    lemma_tiled_parts(f.piece.bytes(), sp, parts, sp.len() - 1);
    assert(parts.take(sp.len() as int) =~= parts);
    assert(f.piece.bytes().subrange(0, f.piece.bytes().len() as int) =~= f.piece.bytes());
}

/// The slots after the blocks `ops`, each an offset and a payload, were stored
/// in order.
pub open spec fn apply_blocks(slots: Seq<Option<Seq<u8>>>, ops: Seq<(u32, Seq<u8>)>) -> Seq<
    Option<Seq<u8>>,
>
    decreases ops.len(),
{
    if ops.len() == 0 {
        slots
    } else {
        after_enqueue(apply_blocks(slots, ops.drop_last()), ops.last().0, ops.last().1)
    }
}

/// The indices of the filled slots.
pub open spec fn filled_slots(slots: Seq<Option<Seq<u8>>>) -> Set<int> {
    Set::new(|i: int| 0 <= i < slots.len() && slots[i].is_some())
}

/// The distinct block indices that the offsets of `ops` name.
pub open spec fn block_indices(ops: Seq<(u32, Seq<u8>)>) -> Set<int> {
    Set::new(|i: int| exists|k: int| 0 <= k < ops.len() && (#[trigger] ops[k]).0 / BLOCK_LEN == i)
}

/// Starting from empty slots, storing the blocks `ops` in any order and with
/// any repetition fills exactly one slot per distinct offset: a block sent
/// again takes no second slot.
pub proof fn lemma_filled_slots_are_distinct_offsets(
    slots: Seq<Option<Seq<u8>>>,
    ops: Seq<(u32, Seq<u8>)>,
)
    requires
        forall|i: int| 0 <= i < slots.len() ==> (#[trigger] slots[i]).is_none(),
        forall|k: int| 0 <= k < ops.len() ==> (#[trigger] ops[k]).0 / BLOCK_LEN < slots.len(),
    ensures
        apply_blocks(slots, ops).len() == slots.len(),
        filled_slots(apply_blocks(slots, ops)) == block_indices(ops),
    decreases ops.len(),
{
    if ops.len() == 0 {
        assert(filled_slots(slots) =~= Set::<int>::empty());
        assert(block_indices(ops) =~= Set::<int>::empty());
    } else {
        let d = ops.drop_last();
        assert forall|k: int| 0 <= k < d.len() implies (#[trigger] d[k]).0 / BLOCK_LEN
            < slots.len() by {
            assert(d[k] == ops[k]);
        }
        lemma_filled_slots_are_distinct_offsets(slots, d);
        let last = ops[ops.len() - 1];
        let i = (last.0 / BLOCK_LEN) as int;
        assert(block_indices(ops) =~= block_indices(d).insert(i)) by {
            assert forall|x: int| block_indices(ops).contains(x) implies block_indices(d).insert(
                i,
            ).contains(x) by {
                let k = choose|k: int| 0 <= k < ops.len() && (#[trigger] ops[k]).0 / BLOCK_LEN == x;
                if k < ops.len() - 1 {
                    assert(d[k] == ops[k]);
                }
            }
            assert forall|x: int| block_indices(d).insert(i).contains(x) implies block_indices(
                ops,
            ).contains(x) by {
                if x == i {
                    assert(ops[ops.len() - 1].0 / BLOCK_LEN == x);
                } else {
                    let k = choose|k: int| 0 <= k < d.len() && (#[trigger] d[k]).0 / BLOCK_LEN == x;
                    assert(ops[k] == d[k]);
                }
            }
        }
        assert(filled_slots(apply_blocks(slots, ops)) =~= filled_slots(apply_blocks(slots, d)).insert(i));
    }
}

/// A well-formed piece never holds more bytes than its length, however often
/// a block was sent.
pub proof fn lemma_held_within_len(p: Piece)
    requires
        p.wf(),
    ensures
        held_len(p.slots()) <= p.len,
{
    let s = p.slots();
    let n = s.len() as int;
    let l = p.len as int;
    let b = BLOCK_LEN as int;
    assert(l <= n * b) by (nonlinear_arith)
        requires
            n == (l + b - 1) / b,
            b == 16384,
            l > 0,
    ;
    assert(s.take(n) =~= s);
    lemma_prefix_held(p, n);
}

/// The blocks that `split_blocks` cuts from the bytes read back after a
/// flush, which `ReadCache::finish_read` caches, are the payloads that were
/// stored for those blocks: serving block `i` of them serves what was written.
pub proof fn lemma_cached_blocks_are_written(
    info: StorageInfo,
    f: PieceFlush,
    parts: Seq<Seq<u8>>,
    blocks: Seq<Seq<u8>>,
)
    requires
        info.wf(),
        f.wf(),
        f.index < info.piece_count,
        f.piece.len == info.piece_len_spec(f.index as int),
        info.is_file_range(f.index as int, f.piece.file_range),
        f.spans@ == info.spans_spec(f.index as int, f.piece.file_range),
        parts.len() == f.spans@.len(),
        forall|j: int| 0 <= j < parts.len() ==> #[trigger] parts[j] == f.piece.bytes().subrange(
            f.spans@[j].piece_offset as int,
            f.spans@[j].piece_offset + f.spans@[j].len,
        ),
        blocks.len() == block_count_spec(concat_all(parts).len()),
        forall|i: int| 0 <= i < blocks.len() ==> #[trigger] blocks[i] == block_of(
            concat_all(parts),
            i,
        ),
    ensures
        blocks.len() == f.piece.slots().len(),
        forall|i: int| 0 <= i < blocks.len() ==> #[trigger] blocks[i] == f.piece.slots()[i]->Some_0,
{
    lemma_written_blocks_read_back(info, f, parts);
    lemma_assembled_blocks(f.piece);
    assert forall|i: int| 0 <= i < blocks.len() implies #[trigger] blocks[i]
        == f.piece.slots()[i]->Some_0 by {
        assert(blocks[i] == block_of(concat_all(parts), i));
        assert(block_of(concat_all(parts), i) == f.piece.slots()[i]->Some_0);
    }
}

} // verus!
