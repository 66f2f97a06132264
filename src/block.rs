use vstd::prelude::*;

verus! {

/// Index of a piece within a torrent.
pub type PieceIndex = usize;

/// The length of a block, the unit that peers request and exchange.
pub const BLOCK_LEN: u32 = 16384;

/// The number of blocks in a piece of `piece_len` bytes: the last one may be short.
pub open spec fn block_count_spec(piece_len: nat) -> nat {
    ((piece_len + BLOCK_LEN - 1) / (BLOCK_LEN as int)) as nat
}

/// The length of the block at `index` in a piece of `piece_len` bytes.
pub open spec fn block_len_spec(piece_len: nat, index: nat) -> nat {
    if piece_len >= (index + 1) * BLOCK_LEN {
        BLOCK_LEN as nat
    } else if piece_len > index * BLOCK_LEN {
        (piece_len - index * BLOCK_LEN) as nat
    } else {
        0
    }
}

/// Returns the number of blocks in a piece of `piece_len` bytes.
pub fn block_count(piece_len: u32) -> (r: usize)
    ensures
        r == block_count_spec(piece_len as nat),
{
    let full = piece_len / BLOCK_LEN;
    let rest = piece_len % BLOCK_LEN;
    let r: u32 = if rest == 0 { full } else { full + 1 };
    r as usize
}

/// Returns the length of the block at `index` in a piece of `piece_len` bytes.
pub fn block_len(piece_len: u32, index: usize) -> (r: u32)
    requires
        index < block_count_spec(piece_len as nat),
    ensures
        r == block_len_spec(piece_len as nat, index as nat),
        0 < r <= BLOCK_LEN,
{
    assert(index * BLOCK_LEN < piece_len) by (nonlinear_arith)
        requires
            index < (piece_len + BLOCK_LEN - 1) / (BLOCK_LEN as int),
    ;
    let start = (index as u32) * BLOCK_LEN;
    let remaining = piece_len - start;
    if remaining >= BLOCK_LEN {
        BLOCK_LEN
    } else {
        remaining
    }
}

/// Where a block lies in the torrent: its piece, its offset in that piece and
/// its length.
#[derive(Clone, Copy, Debug, PartialEq, Eq, Structural)]
pub struct BlockInfo {
    pub piece_index: PieceIndex,
    pub offset: u32,
    pub len: u32,
}

impl BlockInfo {
    /// The index of the block within its piece.
    pub open spec fn index_in_piece_spec(&self) -> nat {
        (self.offset / BLOCK_LEN) as nat
    }

    /// Returns the index of the block within its piece.
    pub fn index_in_piece(&self) -> (r: usize)
        ensures
            r == self.index_in_piece_spec(),
    {
        (self.offset / BLOCK_LEN) as usize
    }
}

} // verus!
