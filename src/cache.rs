use vstd::prelude::*;
use std::sync::Arc;
use chashmap::CHashMap;
use crate::block::PieceIndex;

verus! {

/// A block as the read cache holds it: shared by every reply that serves it.
pub type CachedBlock = Arc<Vec<u8>>;

#[verifier::external_type_specification]
#[verifier::external_body]
#[verifier::reject_recursive_types(K)]
#[verifier::reject_recursive_types(V)]
pub struct ExCHashMap<K, V>(CHashMap<K, V>);

/// Relies on chashmap::CHashMap::new: an empty concurrent map.
#[verifier::external_body]
fn map_new() -> (r: CHashMap<PieceIndex, Vec<CachedBlock>>) {
    CHashMap::new()
}

/// Relies on chashmap::CHashMap::get: a copy of the blocks cached under
/// `index`. Other threads insert through a shared reference, so nothing is
/// known of what a lookup finds.
#[verifier::external_body]
fn map_get(map: &CHashMap<PieceIndex, Vec<CachedBlock>>, index: PieceIndex) -> (r: Option<
    Vec<CachedBlock>,
>) {
    map.get(&index).map(|blocks| blocks.clone())
}

/// Relies on chashmap::CHashMap::insert: stores `blocks` under `index`,
/// replacing what was there.
#[verifier::external_body]
fn map_insert(map: &CHashMap<PieceIndex, Vec<CachedBlock>>, index: PieceIndex, blocks: Vec<
    CachedBlock,
>) {
    map.insert(index, blocks);
}

/// The read cache: whole pieces, as their blocks in offset order, keyed by
/// piece index. It is shared by the threads that serve reads, so it can be
/// filled through a shared reference; it has no eviction.
pub struct ReadCache {
    map: CHashMap<PieceIndex, Vec<CachedBlock>>,
}

impl ReadCache {
    /// Creates an empty cache.
    pub fn new() -> (r: ReadCache) {
        ReadCache { map: map_new() }
    }

    /// Returns the blocks cached for piece `index`, if any.
    pub fn get(&self, index: PieceIndex) -> (r: Option<Vec<CachedBlock>>) {
        map_get(&self.map, index)
    }

    /// Caches the blocks of piece `index`, replacing an earlier copy.
    pub fn insert(&self, index: PieceIndex, blocks: Vec<CachedBlock>) {
        map_insert(&self.map, index, blocks)
    }
}

} // verus!
