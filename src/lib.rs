//! Disk I/O core of a BitTorrent client: piece assembly, verification,
//! file-span mapping and read caching.

pub mod block;
pub mod cache;
pub mod laws;
pub mod piece;
pub mod storage;
pub mod torrent;
