use bitr::disk::DiskManager;
use bitr::manager::Command;
use bitr::picker::PiecePicker;
use bitr::piece::{Block, BlockState, DownloadedBlock, DownloadedPiece, DownloadingPiece};

const HELLO: [u8; 20] = [
    0xaa, 0xf4, 0xc6, 0x1d, 0xdc, 0xc5, 0xe8, 0xa2, 0xda, 0xbe, 0xde, 0x0f, 0x3b, 0x48, 0x2c,
    0xd9, 0xae, 0xa9, 0x43, 0x4d,
];

fn filled(index: u32, piece_length: u32, byte: u8) -> DownloadedPiece {
    let mut piece = DownloadedPiece::new(index, piece_length);
    let mut begin = 0;
    while begin < piece_length {
        let len = std::cmp::min(16384, piece_length - begin);
        piece.add_downloaded_block(DownloadedBlock::new(index, begin, vec![byte; len as usize]));
        begin += 16384;
    }
    piece
}

#[test]
fn hello_is_written_once_at_offset_zero() {
    let mut picker = PiecePicker::new(1, vec![HELLO], 5, 5);
    let mut disk = DiskManager::new(5, 1);
    let mut writes = vec![];
    let events = vec![Command::DownloadedBlock(DownloadedBlock::new(0, 0, b"hello".to_vec()))];
    for event in events {
        if let Some(piece) = picker.handle_command(event).verified {
            if let Some(write) = disk.write_for(&piece) {
                writes.push((write.offset, write.data));
                disk.piece_written();
            }
        }
    }
    assert_eq!(writes, vec![(0u64, b"hello".to_vec())]);
    assert_eq!(disk.completed_pieces, 1);
    assert!(disk.is_complete());
}

#[test]
fn piece_goes_to_index_times_piece_length() {
    let disk = DiskManager::new(40000, 10);
    let write = disk.write_for(&filled(3, 40000, 9)).unwrap();
    assert_eq!(write.offset, 120000);
    assert_eq!(write.data, vec![9; 40000]);
    let last = disk.write_for(&filled(9, 123, 1)).unwrap();
    assert_eq!(last.offset, 360000);
    assert_eq!(last.data, vec![1; 123]);
}

#[test]
fn offsets_beyond_four_gib_are_not_cut() {
    let disk = DiskManager::new(1 << 20, 8192);
    let write = disk.write_for(&filled(5000, 1 << 20, 2)).unwrap();
    assert_eq!(write.offset, 5000u64 << 20);
}

#[test]
fn piece_without_a_place_is_not_written() {
    let disk = DiskManager::new(16384, 4);
    assert!(disk.write_for(&filled(4, 16384, 0)).is_none());
    assert!(disk.write_for(&filled(0, 16385, 0)).is_none());
    assert!(disk.write_for(&filled(3, 16384, 0)).is_some());
    let far = DiskManager::new(u64::MAX, 4);
    assert!(far.write_for(&filled(0, 10, 0)).is_some());
    assert!(far.write_for(&filled(1, 10, 0)).is_none());
    assert!(far.write_for(&filled(2, 10, 0)).is_none());
}

#[test]
fn writes_of_different_pieces_do_not_overlap() {
    let disk = DiskManager::new(20000, 5);
    let mut ranges: Vec<(u64, u64)> = vec![];
    for (index, len) in [(0u32, 20000u32), (1, 20000), (2, 1), (3, 19999), (4, 7)] {
        let write = disk.write_for(&filled(index, len, 0)).unwrap();
        ranges.push((write.offset, write.offset + write.data.len() as u64));
    }
    for (i, a) in ranges.iter().enumerate() {
        for b in ranges.iter().skip(i + 1) {
            assert!(a.1 <= b.0 || b.1 <= a.0);
        }
    }
}

#[test]
fn written_pieces_are_counted() {
    let mut disk = DiskManager::new(16384, 2);
    assert_eq!(disk.completed_pieces, 0);
    assert!(!disk.is_complete());
    disk.piece_written();
    assert_eq!(disk.completed_pieces, 1);
    assert!(!disk.is_complete());
    disk.piece_written();
    assert_eq!(disk.completed_pieces, 2);
    assert!(disk.is_complete());
    disk.completed_pieces = u32::MAX;
    disk.piece_written();
    assert_eq!(disk.completed_pieces, u32::MAX);
}

#[test]
fn empty_file_needs_no_write() {
    assert!(DiskManager::new(16384, 0).is_complete());
}

#[test]
fn block_without_length_has_16384_bytes() {
    let block = Block::new(3, 32768, None);
    assert_eq!((block.piece_index, block.begin, block.length), (3, 32768, 16384));
    assert_eq!(block.state, BlockState::Open);
    let short = Block::new(3, 32768, Some(5));
    assert_eq!(short.length, 5);
    assert_eq!(short.state, BlockState::Open);
}

#[test]
fn downloading_piece_has_a_block_per_16384_bytes() {
    let piece = DownloadingPiece::new(6, 40000);
    assert_eq!(piece.index, 6);
    let got: Vec<(u32, u32, u32)> = piece.blocks.iter().map(|b| (b.piece_index, b.begin, b.length)).collect();
    assert_eq!(got, vec![(6, 0, 16384), (6, 16384, 16384), (6, 32768, 40000 - 32768)]);
    assert!(piece.blocks.iter().all(|b| b.state == BlockState::Open));
    assert!(piece.has_open());
}

#[test]
fn final_block_length_is_the_remainder_or_a_full_block() {
    for (len, blocks, last) in [
        (1u32, 1usize, 1u32),
        (16383, 1, 16383),
        (16384, 1, 16384),
        (16385, 2, 1),
        (32768, 2, 16384),
        (262144, 16, 16384),
        (262145, 17, 1),
        (300000, 19, 300000 % 16384),
    ] {
        let piece = DownloadingPiece::new(0, len);
        assert_eq!(piece.blocks.len(), blocks, "length {}", len);
        assert_eq!(piece.blocks[blocks - 1].length, last, "length {}", len);
        let expected = if len % 16384 != 0 { len % 16384 } else { 16384 };
        assert_eq!(last, expected);
        let total: u32 = piece.blocks.iter().map(|b| b.length).sum();
        assert_eq!(total, len);
    }
}

#[test]
fn piece_of_no_bytes_has_no_blocks() {
    let piece = DownloadingPiece::new(0, 0);
    assert!(piece.blocks.is_empty());
    assert!(!piece.has_open());
    let got = DownloadedPiece::new(0, 0);
    assert!(got.blocks.is_empty());
    assert!(got.is_complete());
}

#[test]
fn blocks_are_requested_first_open_first() {
    let mut piece = DownloadingPiece::new(2, 40000);
    let a = piece.request_first_open().unwrap();
    assert_eq!((a.piece_index, a.begin, a.length), (2, 0, 16384));
    assert_eq!(a.state, BlockState::Open);
    assert_eq!(piece.blocks[0].state, BlockState::Requested);
    assert_eq!(piece.blocks[1].state, BlockState::Open);
    let b = piece.request_first_open().unwrap();
    assert_eq!(b.begin, 16384);
    let c = piece.request_first_open().unwrap();
    assert_eq!((c.begin, c.length), (32768, 7232));
    assert!(piece.request_first_open().is_none());
    assert!(!piece.has_open());
    assert!(piece.blocks.iter().all(|b| b.state == BlockState::Requested));
    piece.reopen();
    assert!(piece.blocks.iter().all(|b| b.state == BlockState::Open));
    assert_eq!(piece.blocks[2].length, 7232);
    assert_eq!(piece.request_first_open().unwrap().begin, 0);
}

#[test]
fn downloaded_block_keeps_what_it_was_given() {
    let block = DownloadedBlock::new(5, 16384, vec![1, 2, 3]);
    assert_eq!(block.piece_index, 5);
    assert_eq!(block.begin, 16384);
    assert_eq!(block.data, vec![1, 2, 3]);
}

#[test]
fn downloaded_piece_starts_with_empty_slots() {
    let piece = DownloadedPiece::new(4, 40000);
    assert_eq!(piece.index, 4);
    assert_eq!(piece.blocks.len(), 3);
    for (k, block) in piece.blocks.iter().enumerate() {
        assert_eq!(block.piece_index, 4);
        assert_eq!(block.begin, 16384 * k as u32);
        assert!(block.data.is_empty());
    }
    assert!(!piece.is_complete());
    assert!(piece.data().is_empty());
}

#[test]
fn blocks_go_to_the_slot_of_their_begin() {
    let mut piece = DownloadedPiece::new(0, 40000);
    piece.add_downloaded_block(DownloadedBlock::new(0, 32768, vec![3; 4]));
    assert!(!piece.is_complete());
    assert_eq!(piece.blocks[2].data, vec![3; 4]);
    piece.add_downloaded_block(DownloadedBlock::new(0, 16390, vec![2; 2]));
    assert_eq!(piece.blocks[1].data, vec![2; 2]);
    assert!(!piece.is_complete());
    piece.add_downloaded_block(DownloadedBlock::new(0, 49152, vec![9; 9]));
    assert_eq!(piece.blocks.len(), 3);
    assert!(!piece.is_complete());
    piece.add_downloaded_block(DownloadedBlock::new(0, 0, vec![1; 3]));
    assert!(piece.is_complete());
    assert_eq!(piece.data(), vec![1, 1, 1, 2, 2, 3, 3, 3, 3]);
    piece.add_downloaded_block(DownloadedBlock::new(0, 0, vec![]));
    assert!(!piece.is_complete());
}
