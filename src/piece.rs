use vstd::prelude::*;
use sha1::Digest;
use crate::block::{block_count, block_len, block_count_spec, block_len_spec, BLOCK_LEN};

verus! {

/// The SHA-1 digest of a byte sequence.
pub uninterp spec fn sha1_of(data: Seq<u8>) -> Seq<u8>;

/// Relies on sha1::Sha1::digest: the 20-byte SHA-1 digest of `data`, a
/// function of the bytes alone.
#[verifier::external_body]
fn sha1_digest(data: &[u8]) -> (r: [u8; 20])
    ensures
        r@ == sha1_of(data@),
{
    let out: [u8; 20] = sha1::Sha1::digest(data).into();
    out
}

/// The bytes held in one block slot of a piece, if any.
pub open spec fn slot_view(slot: Option<Vec<u8>>) -> Option<Seq<u8>> {
    match slot {
        Some(d) => Some(d@),
        None => None,
    }
}

/// The number of bytes held in a slot.
pub open spec fn slot_len(slot: Option<Seq<u8>>) -> nat {
    match slot {
        Some(d) => d.len(),
        None => 0,
    }
}

/// The number of bytes held over all slots.
pub open spec fn held_len(slots: Seq<Option<Seq<u8>>>) -> nat
    decreases slots.len(),
{
    if slots.len() == 0 {
        0
    } else {
        held_len(slots.drop_last()) + slot_len(slots.last())
    }
}

/// The bytes of the slots concatenated in offset order; an empty slot
/// contributes nothing.
pub open spec fn concat_slots(slots: Seq<Option<Seq<u8>>>) -> Seq<u8>
    decreases slots.len(),
{
    if slots.len() == 0 {
        Seq::empty()
    } else {
        concat_slots(slots.drop_last()) + match slots.last() {
            Some(d) => d,
            None => Seq::empty(),
        }
    }
}

/// Replacing one slot changes the byte count by the difference of the two
/// slots' lengths.
pub proof fn lemma_held_len_update(slots: Seq<Option<Seq<u8>>>, i: int, x: Option<Seq<u8>>)
    requires
        0 <= i < slots.len(),
    ensures
        held_len(slots.update(i, x)) + slot_len(slots[i]) == held_len(slots) + slot_len(x),
    decreases slots.len(),
{
    let u = slots.update(i, x);
    if i == slots.len() - 1 {
        assert(u.drop_last() =~= slots.drop_last());
    } else {
        lemma_held_len_update(slots.drop_last(), i, x);
        assert(u.drop_last() =~= slots.drop_last().update(i, x));
    }
}

/// The byte count is at most one full block per slot.
pub proof fn lemma_held_len_bound(slots: Seq<Option<Seq<u8>>>)
    requires
        forall|i: int| 0 <= i < slots.len() ==> slot_len(#[trigger] slots[i]) <= BLOCK_LEN,
    ensures
        held_len(slots) <= slots.len() * BLOCK_LEN,
    decreases slots.len(),
{
    if slots.len() > 0 {
        let d = slots.drop_last();
        assert forall|i: int| 0 <= i < d.len() implies slot_len(#[trigger] d[i]) <= BLOCK_LEN by {
            assert(d[i] == slots[i]);
        }
        lemma_held_len_bound(d);
        assert(slot_len(slots[slots.len() - 1]) <= BLOCK_LEN);
    }
}

/// A piece being assembled from its blocks.
///
/// Each block has a slot, indexed by its offset divided by the block length,
/// so that blocks arrive in any order, a block sent twice replaces the first
/// copy, and the slots are always in offset order.
pub struct Piece {
    /// The SHA-1 digest that the assembled piece must have.
    pub expected_hash: [u8; 20],
    /// The length of the piece in bytes.
    pub len: u32,
    /// One slot per block of the piece.
    pub blocks: Vec<Option<Vec<u8>>>,
    /// The number of bytes held over all slots.
    pub held: u64,
    /// The files that the piece intersects, as a half-open range of file
    /// indices.
    pub file_range: (usize, usize),
}

impl Piece {
    /// The block slots as byte sequences.
    pub open spec fn slots(&self) -> Seq<Option<Seq<u8>>> {
        self.blocks@.map_values(|s: Option<Vec<u8>>| slot_view(s))
    }

    /// The piece's well-formedness: one slot per block, each filled slot
    /// holding exactly the block's length, and `held` counting the bytes held.
    pub open spec fn wf(&self) -> bool {
        &&& self.len > 0
        &&& self.blocks@.len() == block_count_spec(self.len as nat)
        &&& forall|i: int|
            0 <= i < self.blocks@.len() ==> match #[trigger] slot_view(self.blocks@[i]) {
                Some(d) => d.len() == block_len_spec(self.len as nat, i as nat),
                None => true,
            }
        &&& self.held == held_len(self.slots())
    }

    /// Whether a block at `offset` of `len` bytes belongs in this piece.
    pub open spec fn accepts(&self, offset: u32, len: nat) -> bool {
        &&& offset % BLOCK_LEN == 0
        &&& offset / BLOCK_LEN < self.blocks@.len()
        &&& len == block_len_spec(self.len as nat, (offset / BLOCK_LEN) as nat)
    }

    /// The piece's bytes: its blocks concatenated in offset order.
    pub open spec fn bytes(&self) -> Seq<u8> {
        concat_slots(self.slots())
    }

    /// Creates an empty piece of `len` bytes.
    pub fn new(expected_hash: [u8; 20], len: u32, file_range: (usize, usize)) -> (r: Piece)
        requires
            len > 0,
        ensures
            r.wf(),
            r.expected_hash == expected_hash,
            r.len == len,
            r.file_range == file_range,
            forall|i: int| 0 <= i < r.slots().len() ==> r.slots()[i].is_none(),
    {
        let n = block_count(len);
        let mut blocks: Vec<Option<Vec<u8>>> = Vec::new();
        let mut i: usize = 0;
        while i < n
            invariant
                i <= n,
                blocks@.len() == i,
                forall|j: int| 0 <= j < i ==> blocks@[j].is_none(),
            decreases n - i,
        {
            blocks.push(None);
            i = i + 1;
        }
        let r = Piece { expected_hash, len, blocks, held: 0, file_range };
        proof {
            let s = r.slots();
            assert(s =~= Seq::new(s.len(), |j: int| None::<Seq<u8>>));
            lemma_held_len_zero(s);
        }
        r
    }

    /// Stores a block's payload at `offset`, replacing what an earlier copy of
    /// the same block left there. A block that does not fit the piece's block
    /// layout is refused and leaves the piece as it was.
    pub fn enqueue_block(&mut self, offset: u32, data: Vec<u8>) -> (accepted: bool)
        requires
            old(self).wf(),
        ensures
            final(self).wf(),
            accepted == old(self).accepts(offset, data@.len()),
            accepted ==> final(self).slots() == old(self).slots().update(
                (offset / BLOCK_LEN) as int,
                Some(data@),
            ),
            !accepted ==> *final(self) == *old(self),
            final(self).len == old(self).len,
            final(self).expected_hash == old(self).expected_hash,
            final(self).file_range == old(self).file_range,
    {
        if offset % BLOCK_LEN != 0 {
            return false;
        }
        let i = (offset / BLOCK_LEN) as usize;
        if i >= self.blocks.len() {
            return false;
        }
        if data.len() as u64 != block_len(self.len, i) as u64 {
            return false;
        }
        let old_len: u64 = match &self.blocks[i] {
            Some(d) => d.len() as u64,
            None => 0,
        };
        let new_len = data.len() as u64;
        proof {
            let s = self.slots();
            assert(s[i as int] == slot_view(self.blocks@[i as int]));
            lemma_held_len_update(s, i as int, Some(data@));
            lemma_held_len_update(s, i as int, None);
            let u = s.update(i as int, Some(data@));
            assert forall|k: int| 0 <= k < u.len() implies slot_len(#[trigger] u[k]) <= BLOCK_LEN by {
                assert(slot_view(self.blocks@[k]) == s[k]);
            }
            lemma_held_len_bound(u);
            assert(u.len() * BLOCK_LEN <= 0x1_0000_0000 + BLOCK_LEN) by (nonlinear_arith)
                requires
                    u.len() == ((self.len + BLOCK_LEN - 1) / (BLOCK_LEN as int)),
                    self.len < 0x1_0000_0000,
            ;
        }
        let ghost old_slots = self.slots();
        self.blocks.set(i, Some(data));
        self.held = self.held - old_len + new_len;
        proof {
            assert(self.slots() =~= old_slots.update(i as int, Some(data@)));
        }
        true
    }

    /// Whether the bytes held add up to the piece's length.
    pub fn is_complete(&self) -> (r: bool)
        requires
            self.wf(),
        ensures
            r == (held_len(self.slots()) == self.len),
    {
        self.held == self.len as u64
    }

    /// Returns the piece's bytes: its blocks concatenated in offset order.
    pub fn assemble(&self) -> (r: Vec<u8>)
        requires
            self.wf(),
        ensures
            r@ == self.bytes(),
    {
        let mut out: Vec<u8> = Vec::new();
        let mut i: usize = 0;
        while i < self.blocks.len()
            invariant
                i <= self.blocks@.len(),
                out@ == concat_slots(self.slots().take(i as int)),
            decreases self.blocks@.len() - i,
        {
            let ghost s = self.slots();
            proof {
                assert(s.take(i as int + 1).drop_last() =~= s.take(i as int));
                assert(s.take(i as int + 1).last() == slot_view(self.blocks@[i as int]));
            }
            match &self.blocks[i] {
                Some(d) => {
                    let mut j: usize = 0;
                    let ghost before = out@;
                    while j < d.len()
                        invariant
                            j <= d@.len(),
                            out@ == before + d@.take(j as int),
                        decreases d@.len() - j,
                    {
                        out.push(d[j]);
                        j = j + 1;
                        proof {
                            assert(d@.take(j as int) =~= d@.take(j - 1) + seq![d@[j - 1]]);
                        }
                    }
                    proof {
                        assert(d@.take(d@.len() as int) =~= d@);
                    }
                },
                None => {
                    proof {
                        assert(out@ =~= out@ + Seq::<u8>::empty());
                    }
                },
            }
            i = i + 1;
        }
        proof {
            assert(self.slots().take(i as int) =~= self.slots());
        }
        out
    }

    /// Whether `digest` is the piece's expected hash.
    pub fn matches_digest(&self, digest: &[u8; 20]) -> (r: bool)
        ensures
            r == (digest@ == self.expected_hash@),
    {
        let mut i: usize = 0;
        while i < 20
            invariant
                i <= 20,
                digest@.len() == 20,
                self.expected_hash@.len() == 20,
                forall|j: int| 0 <= j < i ==> digest@[j] == self.expected_hash@[j],
            decreases 20 - i,
        {
            if digest[i] != self.expected_hash[i] {
                return false;
            }
            i = i + 1;
        }
        proof {
            assert(digest@ =~= self.expected_hash@);
        }
        true
    }

    /// Whether the SHA-1 digest of the piece's bytes is its expected hash.
    pub fn matches_hash(&self) -> (r: bool)
        requires
            self.wf(),
        ensures
            r == (sha1_of(self.bytes()) == self.expected_hash@),
    {
        let bytes = self.assemble();
        let digest = sha1_digest(bytes.as_slice());
        self.matches_digest(&digest)
    }
}

/// A row of empty slots holds no bytes.
pub proof fn lemma_held_len_zero(slots: Seq<Option<Seq<u8>>>)
    requires
        forall|i: int| 0 <= i < slots.len() ==> (#[trigger] slots[i]).is_none(),
    ensures
        held_len(slots) == 0,
    decreases slots.len(),
{
    if slots.len() > 0 {
        let d = slots.drop_last();
        assert forall|i: int| 0 <= i < d.len() implies (#[trigger] d[i]).is_none() by {
            assert(d[i] == slots[i]);
        }
        lemma_held_len_zero(d);
    }
}

/// The concatenated slots are as long as the bytes they hold.
pub proof fn lemma_concat_len(slots: Seq<Option<Seq<u8>>>)
    ensures
        concat_slots(slots).len() == held_len(slots),
    decreases slots.len(),
{
    if slots.len() > 0 {
        lemma_concat_len(slots.drop_last());
    }
}

} // verus!
