use cratetorrent::block::{block_count, block_len, BlockInfo, BLOCK_LEN};
use cratetorrent::piece::Piece;
use cratetorrent::storage::{span_bytes, FileSpan, StorageInfo};
use cratetorrent::torrent::{
    flush_step, serve_cached, split_blocks, FlushStep, PieceCompletion, ReadAction, ReadError,
    Torrent, WriteAction, WriteError,
};
use sha1::Digest;
use std::sync::Arc;

fn digest(data: &[u8]) -> Vec<u8> {
    sha1::Sha1::digest(data).to_vec()
}

fn payload(len: usize, seed: u8) -> Vec<u8> {
    (0..len).map(|i| (i as u8).wrapping_mul(7).wrapping_add(seed)).collect()
}

fn block(piece_index: usize, offset: u32, len: u32) -> BlockInfo {
    BlockInfo { piece_index, offset, len }
}

/// A single 32 KiB file in two 16 KiB pieces, with the digests of `p0` and `p1`.
fn single_file_torrent(p0: &[u8], p1: &[u8]) -> Torrent {
    let info = StorageInfo::new(16384, &vec![32768]).unwrap();
    let mut hashes = digest(p0);
    hashes.extend(digest(p1));
    Torrent::new(info, hashes)
}

#[test]
fn block_geometry() {
    assert_eq!(block_count(16384), 1);
    assert_eq!(block_count(16385), 2);
    assert_eq!(block_count(1), 1);
    assert_eq!(block_len(16385, 0), 16384);
    assert_eq!(block_len(16385, 1), 1);
    assert_eq!(block(0, 2 * BLOCK_LEN, 10).index_in_piece(), 2);
}

#[test]
fn storage_single_file_layout() {
    let info = StorageInfo::new(16384, &vec![32768]).unwrap();
    assert_eq!(info.piece_count, 2);
    assert_eq!(info.download_len, 32768);
    assert_eq!(info.piece_len(0), Some(16384));
    assert_eq!(info.piece_len(1), Some(16384));
    assert_eq!(info.piece_len(2), None);
    assert_eq!(info.torrent_piece_offset(1), 16384);
    assert_eq!(info.files_intersecting_piece(1), Some((0, 1)));
    assert_eq!(info.files_intersecting_piece(2), None);
}

#[test]
fn storage_rejects_inconsistent_layouts() {
    assert!(StorageInfo::new(0, &vec![10]).is_none());
    assert!(StorageInfo::new(16384, &vec![]).is_none());
    assert!(StorageInfo::new(16384, &vec![10, 0, 5]).is_none());
    assert!(StorageInfo::new(16384, &vec![u64::MAX, 1]).is_none());
}

#[test]
fn storage_multi_file_spans() {
    let info = StorageInfo::new(16384, &vec![10000, 30000]).unwrap();
    assert_eq!(info.piece_count, 3);
    assert_eq!(info.last_piece_len, 40000 - 32768);
    assert_eq!(info.files_intersecting_piece(0), Some((0, 2)));
    assert_eq!(info.files_intersecting_piece(1), Some((1, 2)));
    assert_eq!(
        info.file_spans(0, (0, 2)),
        vec![
            FileSpan { file_index: 0, file_offset: 0, piece_offset: 0, len: 10000 },
            FileSpan { file_index: 1, file_offset: 0, piece_offset: 10000, len: 6384 },
        ]
    );
    assert_eq!(
        info.file_spans(2, (1, 2)),
        vec![FileSpan { file_index: 1, file_offset: 22768, piece_offset: 0, len: 7232 }]
    );
}

#[test]
fn span_bytes_cuts_the_span() {
    let bytes = payload(100, 3);
    let span = FileSpan { file_index: 0, file_offset: 0, piece_offset: 10, len: 5 };
    assert_eq!(span_bytes(&bytes, &span), bytes[10..15].to_vec());
}

#[test]
fn piece_out_of_order_completion() {
    let len = 2 * 16384 + 100;
    let data = payload(len, 1);
    let mut piece = Piece::new([0u8; 20], len as u32, (0, 1));
    assert!(!piece.is_complete());
    assert!(piece.enqueue_block(32768, data[32768..].to_vec()));
    assert!(!piece.is_complete());
    assert!(piece.enqueue_block(0, data[..16384].to_vec()));
    assert!(!piece.is_complete());
    assert!(piece.enqueue_block(16384, data[16384..32768].to_vec()));
    assert!(piece.is_complete());
    assert_eq!(piece.assemble(), data);
}

#[test]
fn piece_resubmitted_block_overwrites() {
    let mut piece = Piece::new([0u8; 20], 2 * 16384, (0, 1));
    assert!(piece.enqueue_block(0, vec![1u8; 16384]));
    assert!(piece.enqueue_block(0, vec![2u8; 16384]));
    assert_eq!(piece.blocks.len(), 2);
    assert_eq!(piece.held, 16384);
    assert!(!piece.is_complete());
    assert_eq!(piece.assemble(), vec![2u8; 16384]);
}

#[test]
fn piece_refuses_misplaced_blocks() {
    let mut piece = Piece::new([0u8; 20], 16384 + 10, (0, 1));
    assert!(!piece.enqueue_block(5, vec![0u8; 16384]));
    assert!(!piece.enqueue_block(2 * 16384, vec![0u8; 10]));
    assert!(!piece.enqueue_block(16384, vec![0u8; 11]));
    assert!(piece.enqueue_block(16384, vec![0u8; 10]));
    assert_eq!(piece.held, 10);
}

#[test]
fn piece_hash_check() {
    let data = payload(1000, 9);
    let mut expected = [0u8; 20];
    expected.copy_from_slice(&digest(&data));
    let mut piece = Piece::new(expected, 1000, (0, 1));
    assert!(piece.enqueue_block(0, data.clone()));
    assert!(piece.matches_hash());
    assert!(piece.matches_digest(&expected));
    let mut other = expected;
    other[19] ^= 1;
    assert!(!piece.matches_digest(&other));
    let mut bad = Piece::new(other, 1000, (0, 1));
    assert!(bad.enqueue_block(0, data));
    assert!(!bad.matches_hash());
}

#[test]
fn write_single_block_piece_is_flushed_valid() {
    let p0 = payload(16384, 4);
    let p1 = payload(16384, 5);
    let mut t = single_file_torrent(&p0, &p1);
    match t.write_block(block(0, 0, 16384), p0.clone()) {
        WriteAction::Flush(f) => {
            assert_eq!(f.index, 0);
            assert!(f.is_valid());
            let writes = f.file_writes();
            assert_eq!(writes.len(), 1);
            assert_eq!(
                writes[0].span,
                FileSpan { file_index: 0, file_offset: 0, piece_offset: 0, len: 16384 }
            );
            assert_eq!(writes[0].data, p0);
        }
        _ => panic!("piece 0 should be complete"),
    }
    assert!(t.write_buf.is_empty());
}

#[test]
fn write_corrupt_piece_is_flushed_invalid() {
    let p0 = payload(16384, 4);
    let p1 = payload(16384, 5);
    let mut t = single_file_torrent(&p0, &p1);
    match t.write_block(block(1, 0, 16384), p0) {
        WriteAction::Flush(f) => assert!(!f.is_valid()),
        _ => panic!("piece 1 should be complete"),
    }
}

#[test]
fn write_beyond_hash_table_is_rejected() {
    let p0 = payload(16384, 4);
    let p1 = payload(16384, 5);
    let mut t = single_file_torrent(&p0, &p1);
    match t.write_block(block(2, 0, 16384), p0) {
        WriteAction::Rejected(e) => assert_eq!(e, WriteError::InvalidPieceIndex),
        _ => panic!("piece 2 does not exist"),
    }
    assert!(t.write_buf.is_empty());
    assert_eq!(t.start_new_piece(7), Err(WriteError::InvalidPieceIndex));
    assert_eq!(t.start_new_piece(1), Ok(()));
    assert_eq!(t.write_buf.len(), 1);
}

#[test]
fn write_multi_block_piece_buffers_until_complete() {
    let data = payload(40000, 6);
    let info = StorageInfo::new(32768, &vec![10000, 30000]).unwrap();
    let mut hashes = digest(&data[..32768]);
    hashes.extend(digest(&data[32768..]));
    let mut t = Torrent::new(info, hashes);
    assert!(matches!(t.write_block(block(0, 16384, 16384), data[16384..32768].to_vec()), WriteAction::Buffered));
    assert!(matches!(t.write_block(block(0, 100, 16384), data[..16384].to_vec()), WriteAction::BlockRefused));
    assert_eq!(t.write_buf.len(), 1);
    match t.write_block(block(0, 0, 16384), data[..16384].to_vec()) {
        WriteAction::Flush(f) => {
            assert!(f.is_valid());
            let writes = f.file_writes();
            assert_eq!(writes.len(), 2);
            assert_eq!(writes[0].data, data[..10000].to_vec());
            assert_eq!(writes[1].span.file_offset, 0);
            assert_eq!(writes[1].data, data[10000..32768].to_vec());
        }
        _ => panic!("piece 0 should be complete"),
    }
    assert!(t.write_buf.is_empty());
}

#[test]
fn read_beyond_piece_count_is_rejected() {
    let t = single_file_torrent(&payload(16384, 1), &payload(16384, 2));
    match t.read_block(block(9, 0, 16384)) {
        ReadAction::Rejected(e) => assert_eq!(e, ReadError::InvalidPieceIndex),
        _ => panic!("piece 9 does not exist"),
    }
}

#[test]
fn read_before_write_is_missing_data() {
    let t = single_file_torrent(&payload(16384, 1), &payload(16384, 2));
    match t.read_block(block(0, 0, 16384)) {
        ReadAction::Load(load) => {
            assert_eq!(load.piece_len, 16384);
            assert_eq!(load.spans.len(), 1);
            let nothing_on_disk: Vec<Vec<u8>> = vec![Vec::new()];
            assert_eq!(t.read_cache.finish_read(&load, &nothing_on_disk), Err(ReadError::MissingData));
            assert_eq!(t.read_cache.finish_read(&load, &Vec::new()), Err(ReadError::MissingData));
        }
        _ => panic!("an empty cache should send the read to disk"),
    }
    assert!(matches!(t.read_block(block(0, 0, 16384)), ReadAction::Load(_)));
}

#[test]
fn written_piece_reads_back_and_is_cached() {
    let data = payload(40000, 8);
    let info = StorageInfo::new(32768, &vec![10000, 30000]).unwrap();
    let mut hashes = digest(&data[..32768]);
    hashes.extend(digest(&data[32768..]));
    let mut t = Torrent::new(info, hashes);
    assert!(matches!(t.write_block(block(0, 0, 16384), data[..16384].to_vec()), WriteAction::Buffered));
    let writes = match t.write_block(block(0, 16384, 16384), data[16384..32768].to_vec()) {
        WriteAction::Flush(f) => f.file_writes(),
        _ => panic!("piece 0 should be complete"),
    };
    // two misses on the same piece, for different blocks, each read from disk
    let first = match t.read_block(block(0, 16384, 16384)) {
        ReadAction::Load(l) => l,
        _ => panic!("expected a miss"),
    };
    let second = match t.read_block(block(0, 0, 16384)) {
        ReadAction::Load(l) => l,
        _ => panic!("expected a miss"),
    };
    assert_eq!(first.spans.len(), writes.len());
    let from_disk: Vec<Vec<u8>> = writes.iter().map(|w| w.data.clone()).collect();
    let b1 = t.read_cache.finish_read(&first, &from_disk).unwrap();
    let b0 = t.read_cache.finish_read(&second, &from_disk).unwrap();
    assert_eq!(*b1, data[16384..32768].to_vec());
    assert_eq!(*b0, data[..16384].to_vec());
    match t.read_block(block(0, 16384, 16384)) {
        ReadAction::Serve(b) => assert_eq!(*b, data[16384..32768].to_vec()),
        _ => panic!("piece 0 should be cached"),
    }
    match t.read_block(block(0, 3 * 16384, 16384)) {
        ReadAction::Rejected(e) => assert_eq!(e, ReadError::InvalidBlockOffset),
        _ => panic!("piece 0 has two blocks"),
    }
}

#[test]
fn finish_read_refuses_block_outside_piece() {
    let t = single_file_torrent(&payload(16384, 1), &payload(16384, 2));
    let load = match t.read_block(block(1, 16384, 16384)) {
        ReadAction::Load(l) => l,
        _ => panic!("expected a miss"),
    };
    let data = vec![payload(16384, 2)];
    assert_eq!(t.read_cache.finish_read(&load, &data), Err(ReadError::InvalidBlockOffset));
    assert!(matches!(t.read_block(block(1, 0, 16384)), ReadAction::Serve(_)));
}

#[test]
fn split_and_serve_cached_blocks() {
    let data = payload(16384 + 5, 2);
    let blocks = split_blocks(&data);
    assert_eq!(blocks.len(), 2);
    assert_eq!(*blocks[1], data[16384..].to_vec());
    match serve_cached(1, blocks.clone()) {
        ReadAction::Serve(b) => assert_eq!(*b, data[16384..].to_vec()),
        _ => panic!("block 1 is cached"),
    }
    match serve_cached(2, vec![Arc::new(vec![1u8])]) {
        ReadAction::Rejected(e) => assert_eq!(e, ReadError::InvalidBlockOffset),
        _ => panic!("block 2 is not cached"),
    }
}

#[test]
fn answer_read_uses_the_lookup_result() {
    let t = single_file_torrent(&payload(16384, 1), &payload(16384, 2));
    let cached = vec![Arc::new(payload(16384, 2))];
    match t.answer_read(block(1, 0, 16384), Some(cached.clone())) {
        ReadAction::Serve(b) => assert_eq!(*b, payload(16384, 2)),
        _ => panic!("block 0 of piece 1 is in the given blocks"),
    }
    match t.answer_read(block(1, 16384, 16384), Some(cached.clone())) {
        ReadAction::Rejected(e) => assert_eq!(e, ReadError::InvalidBlockOffset),
        _ => panic!("piece 1 has one block"),
    }
    match t.answer_read(block(1, 0, 16384), None) {
        ReadAction::Load(l) => {
            assert_eq!(l.piece_index, 1);
            assert_eq!(l.block_index, 0);
            assert_eq!(l.file_range, (0, 1));
            assert_eq!(
                l.spans,
                vec![FileSpan { file_index: 0, file_offset: 16384, piece_offset: 0, len: 16384 }]
            );
        }
        _ => panic!("nothing cached means a disk read"),
    }
    match t.answer_read(block(2, 0, 16384), Some(cached)) {
        ReadAction::Rejected(e) => assert_eq!(e, ReadError::InvalidPieceIndex),
        _ => panic!("piece 2 does not exist"),
    }
}

#[test]
fn flush_steps_stop_at_first_failure() {
    assert!(matches!(flush_step(3, true, 2, 0, false), FlushStep::Write(0)));
    assert!(matches!(flush_step(3, true, 2, 1, false), FlushStep::Write(1)));
    assert!(matches!(flush_step(3, true, 2, 1, true), FlushStep::Report(Err(WriteError::Io))));
    match flush_step(3, true, 2, 2, false) {
        FlushStep::Report(r) => assert_eq!(r, Ok(PieceCompletion { index: 3, is_valid: true })),
        _ => panic!("all writes are done"),
    }
    match flush_step(4, false, 0, 0, false) {
        FlushStep::Report(r) => assert_eq!(r, Ok(PieceCompletion { index: 4, is_valid: false })),
        _ => panic!("an invalid piece has nothing to write"),
    }
}

#[test]
fn flush_plan_writes_only_valid_pieces() {
    let p0 = payload(16384, 4);
    let p1 = payload(16384, 5);
    let mut t = single_file_torrent(&p0, &p1);
    match t.write_block(block(0, 0, 16384), p0.clone()) {
        WriteAction::Flush(f) => {
            let (valid, writes) = f.plan();
            assert!(valid);
            assert_eq!(writes.len(), 1);
            assert_eq!(writes[0].data, p0);
        }
        _ => panic!("piece 0 should be complete"),
    }
    match t.write_block(block(1, 0, 16384), p0) {
        WriteAction::Flush(f) => {
            let (valid, writes) = f.plan();
            assert!(!valid);
            assert!(writes.is_empty());
        }
        _ => panic!("piece 1 should be complete"),
    }
}
