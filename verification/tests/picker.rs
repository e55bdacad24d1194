use bitr::bits::Bitfield;
use bitr::manager::Command;
use bitr::picker::PiecePicker;
use bitr::piece::{Block, DownloadedBlock};

const HELLO: [u8; 20] = [
    0xaa, 0xf4, 0xc6, 0x1d, 0xdc, 0xc5, 0xe8, 0xa2, 0xda, 0xbe, 0xde, 0x0f, 0x3b, 0x48, 0x2c,
    0xd9, 0xae, 0xa9, 0x43, 0x4d,
];

fn picker(total: u32, piece_length: u32, file_length: u32) -> PiecePicker {
    PiecePicker::new(total, vec![[0u8; 20]; total as usize], piece_length, file_length)
}

fn bits(bytes: &[u8]) -> Bitfield {
    Bitfield::from_bytes(bytes.to_vec()).unwrap()
}

fn peer(n: u8) -> Vec<u8> {
    vec![n; 20]
}

fn order(p: &PiecePicker) -> Vec<u32> {
    (0..p.total_pieces() as usize).map(|i| p.piece_at(i).unwrap()).collect()
}

fn positions(p: &PiecePicker) -> Vec<u32> {
    (0..p.total_pieces() as usize).map(|i| p.position_of(i).unwrap()).collect()
}

fn counts(p: &PiecePicker) -> Vec<u32> {
    (0..p.total_pieces() as usize).map(|i| p.availability_of(i).unwrap()).collect()
}

fn holders(p: &PiecePicker, peers: &[Vec<u8>], piece: usize) -> u32 {
    peers.iter().filter(|id| p.peer_has(id, piece)).count() as u32
}

fn assert_sound(p: &PiecePicker) {
    let n = p.total_pieces() as usize;
    for i in 0..n {
        let at = p.position_of(i).unwrap() as usize;
        assert_eq!(p.piece_at(at), Some(i as u32), "piece {} is not where its position says", i);
    }
    for at in 0..n {
        let piece = p.piece_at(at).unwrap() as usize;
        assert_eq!(p.position_of(piece), Some(at as u32));
    }
    assert_eq!(p.boundary(49), Some(n as u32));
    assert_eq!(p.boundary(50), None);
}

fn assert_partitioned(p: &PiecePicker) {
    let n = p.total_pieces() as usize;
    for a in 0..50usize {
        let b = p.boundary(a).unwrap() as usize;
        for at in 0..n {
            let piece = p.piece_at(at).unwrap() as usize;
            let count = p.availability_of(piece).unwrap() as usize;
            assert_eq!(at < b, count <= a, "availability {} position {}", a, at);
        }
    }
}

#[test]
fn new_picker_offers_pieces_in_index_order() {
    let p = picker(4, 16384, 4 * 16384);
    assert_eq!(p.total_pieces(), 4);
    assert_eq!(order(&p), vec![0, 1, 2, 3]);
    assert_eq!(positions(&p), vec![0, 1, 2, 3]);
    assert_eq!(counts(&p), vec![0, 0, 0, 0]);
    for a in 0..50 {
        assert_eq!(p.boundary(a), Some(4));
    }
    assert_eq!(p.known_peers(), 0);
    assert_sound(&p);
    assert_partitioned(&p);
}

#[test]
fn picker_without_pieces() {
    let mut p = picker(0, 16384, 0);
    assert_eq!(p.total_pieces(), 0);
    p.register_bitfield(peer(1), bits(&[255]));
    assert_eq!(p.known_peers(), 1);
    assert!(p.pick_piece(&peer(1)).is_none());
    assert_eq!(p.position_of(0), None);
}

#[test]
fn four_bitfields_order_three_pieces() {
    let mut p = picker(3, 262144, 3 * 262144);
    p.register_bitfield(peer(1), bits(&[0b0100_0000]));
    p.register_bitfield(peer(2), bits(&[0b0100_0000]));
    p.register_bitfield(peer(3), bits(&[0b1000_0000]));
    p.register_bitfield(peer(4), bits(&[0b1110_0000]));
    assert_eq!(p.position_of(0), Some(1));
    assert_eq!(p.position_of(1), Some(2));
    assert_eq!(p.position_of(2), Some(0));
    assert_eq!(order(&p), vec![2, 0, 1]);
    assert_eq!(counts(&p), vec![2, 3, 1]);
    assert_eq!(p.boundary(0), Some(0));
    assert_eq!(p.boundary(1), Some(1));
    assert_eq!(p.boundary(2), Some(2));
    assert_eq!(p.boundary(3), Some(3));
    assert_sound(&p);
    assert_partitioned(&p);
}

#[test]
fn one_increment_moves_the_piece_behind_the_boundary() {
    let mut p = picker(3, 16384, 3 * 16384);
    p.increment_piece_availability(0);
    assert_eq!(order(&p), vec![2, 1, 0]);
    assert_eq!(positions(&p), vec![2, 1, 0]);
    assert_eq!(counts(&p), vec![1, 0, 0]);
    assert_eq!(p.boundary(0), Some(2));
    assert_eq!(p.boundary(1), Some(3));
    assert_sound(&p);
    assert_partitioned(&p);
}

#[test]
fn decrement_undoes_the_count_and_keeps_the_partition() {
    let mut p = picker(3, 16384, 3 * 16384);
    p.increment_piece_availability(0);
    p.increment_piece_availability(1);
    p.increment_piece_availability(0);
    assert_eq!(counts(&p), vec![2, 1, 0]);
    assert_partitioned(&p);
    p.decrement_piece_availability(0);
    assert_eq!(counts(&p), vec![1, 1, 0]);
    assert_sound(&p);
    assert_partitioned(&p);
    p.decrement_piece_availability(0);
    p.decrement_piece_availability(1);
    assert_eq!(counts(&p), vec![0, 0, 0]);
    for a in 0..50 {
        assert_eq!(p.boundary(a), Some(3));
    }
    assert_sound(&p);
    assert_partitioned(&p);
}

#[test]
fn decrement_of_an_unavailable_piece_changes_nothing() {
    let mut p = picker(2, 16384, 2 * 16384);
    p.decrement_piece_availability(1);
    assert_eq!(counts(&p), vec![0, 0]);
    assert_eq!(order(&p), vec![0, 1]);
    assert_eq!(p.boundary(0), Some(2));
}

#[test]
fn increments_and_decrements_keep_the_partition() {
    let mut p = picker(7, 16384, 7 * 16384);
    let steps: [(bool, usize); 24] = [
        (true, 3), (true, 3), (true, 5), (true, 0), (true, 6), (true, 3), (false, 3), (true, 1),
        (true, 1), (false, 5), (true, 2), (true, 6), (false, 0), (false, 1), (true, 4), (true, 4),
        (true, 4), (true, 4), (false, 6), (false, 6), (true, 0), (false, 4), (false, 3), (true, 5),
    ];
    let mut expected = [0u32; 7];
    for (up, piece) in steps {
        if up {
            p.increment_piece_availability(piece);
            expected[piece] += 1;
        } else {
            p.decrement_piece_availability(piece);
            expected[piece] -= 1;
        }
        assert_eq!(counts(&p), expected.to_vec());
        assert_sound(&p);
        assert_partitioned(&p);
    }
}

#[test]
fn availability_counts_the_stored_bitfields() {
    let mut p = picker(10, 16384, 10 * 16384);
    let peers = vec![peer(1), peer(2), peer(3), peer(4)];
    p.register_bitfield(peers[0].clone(), bits(&[0b1010_1010, 0b1000_0000]));
    p.register_bitfield(peers[1].clone(), bits(&[0b1111_0000, 0b0100_0000]));
    p.register_bitfield(peers[2].clone(), bits(&[0b0000_0000, 0b0000_0000]));
    p.register_bitfield(peers[3].clone(), bits(&[0b1111_1111, 0b1100_0000]));
    p.have(peers[2].clone(), 9);
    p.have(peers[0].clone(), 1);
    assert_eq!(counts(&p), vec![3, 3, 3, 2, 2, 1, 2, 1, 2, 3]);
    for piece in 0..10 {
        assert_eq!(p.availability_of(piece), Some(holders(&p, &peers, piece)));
    }
    assert_sound(&p);
    assert_partitioned(&p);
}

#[test]
fn bits_past_the_last_piece_are_cleared() {
    let mut p = picker(3, 16384, 3 * 16384);
    p.register_bitfield(peer(1), bits(&[0b1011_1111, 0b1111_1111]));
    assert_eq!(counts(&p), vec![1, 0, 1]);
    assert!(p.peer_has(&peer(1), 0));
    assert!(!p.peer_has(&peer(1), 1));
    assert!(p.peer_has(&peer(1), 2));
    assert!(!p.peer_has(&peer(1), 3));
    assert!(!p.peer_has(&peer(1), 15));
    assert_sound(&p);
    assert_partitioned(&p);
}

#[test]
fn short_bitfield_is_filled_with_zeros() {
    let mut p = picker(12, 16384, 12 * 16384);
    p.register_bitfield(peer(1), bits(&[0b1000_0001]));
    assert_eq!(counts(&p), vec![1, 0, 0, 0, 0, 0, 0, 1, 0, 0, 0, 0]);
    assert!(!p.peer_has(&peer(1), 11));
}

#[test]
fn duplicate_have_counts_once() {
    let mut p = picker(4, 16384, 4 * 16384);
    p.register_bitfield(peer(1), bits(&[0b0100_0000]));
    p.have(peer(1), 1);
    assert_eq!(counts(&p), vec![0, 1, 0, 0]);
    p.have(peer(1), 2);
    assert_eq!(counts(&p), vec![0, 1, 1, 0]);
    p.have(peer(1), 2);
    p.have(peer(1), 2);
    assert_eq!(counts(&p), vec![0, 1, 1, 0]);
    assert_sound(&p);
    assert_partitioned(&p);
}

#[test]
fn have_for_no_piece_is_ignored() {
    let mut p = picker(4, 16384, 4 * 16384);
    p.register_bitfield(peer(1), bits(&[0]));
    p.have(peer(1), 4);
    p.have(peer(1), usize::MAX);
    assert_eq!(counts(&p), vec![0, 0, 0, 0]);
    assert_eq!(order(&p), vec![0, 1, 2, 3]);
}

#[test]
fn have_from_a_peer_without_bitfield_takes_the_peer_in() {
    let mut p = picker(4, 16384, 4 * 16384);
    p.have(peer(7), 2);
    assert_eq!(p.known_peers(), 1);
    assert!(p.peer_has(&peer(7), 2));
    assert!(!p.peer_has(&peer(7), 0));
    assert_eq!(counts(&p), vec![0, 0, 1, 0]);
    p.have(peer(7), 2);
    assert_eq!(counts(&p), vec![0, 0, 1, 0]);
    assert_eq!(p.known_peers(), 1);
}

#[test]
fn second_bitfield_of_a_peer_replaces_the_first() {
    let mut p = picker(4, 16384, 4 * 16384);
    p.register_bitfield(peer(1), bits(&[0b1100_0000]));
    p.register_bitfield(peer(2), bits(&[0b0100_0000]));
    assert_eq!(counts(&p), vec![1, 2, 0, 0]);
    p.register_bitfield(peer(1), bits(&[0b0011_0000]));
    assert_eq!(p.known_peers(), 2);
    assert_eq!(counts(&p), vec![0, 1, 1, 1]);
    assert!(!p.peer_has(&peer(1), 0));
    assert!(p.peer_has(&peer(1), 3));
    assert_sound(&p);
    assert_partitioned(&p);
}

#[test]
fn a_peer_that_leaves_takes_its_pieces_along() {
    let mut p = picker(4, 16384, 4 * 16384);
    p.register_bitfield(peer(1), bits(&[0b1100_0000]));
    p.register_bitfield(peer(2), bits(&[0b0110_0000]));
    p.remove_peer(&peer(1));
    assert_eq!(p.known_peers(), 1);
    assert_eq!(counts(&p), vec![0, 1, 1, 0]);
    assert!(!p.peer_has(&peer(1), 0));
    p.remove_peer(&peer(1));
    p.remove_peer(&peer(9));
    assert_eq!(counts(&p), vec![0, 1, 1, 0]);
    p.remove_peer(&peer(2));
    assert_eq!(counts(&p), vec![0, 0, 0, 0]);
    assert_eq!(p.known_peers(), 0);
    assert_sound(&p);
    assert_partitioned(&p);
}

#[test]
fn a_peer_may_leave_after_its_piece_was_moved_to_the_front() {
    let mut p = picker(3, 2 * 16384, 6 * 16384);
    p.register_bitfield(peer(1), bits(&[0b0010_0000]));
    let block = p.pick_piece(&peer(1)).unwrap();
    assert_eq!(as_tuple(&block), (2, 0, 16384));
    assert_eq!(order(&p), vec![2, 0, 1]);
    assert_eq!(p.boundary(0), Some(3));
    p.remove_peer(&peer(1));
    assert_eq!(counts(&p), vec![0, 0, 0]);
    assert_eq!(order(&p), vec![2, 0, 1]);
    assert_eq!(p.boundary(0), Some(3));
    assert_sound(&p);
    assert_partitioned(&p);
    p.register_bitfield(peer(2), bits(&[0b1110_0000]));
    assert_eq!(counts(&p), vec![1, 1, 1]);
    assert_sound(&p);
    let next = p.pick_piece(&peer(2)).unwrap();
    assert_eq!(next.piece_index, p.piece_at(0).unwrap());
    assert_sound(&p);
}

#[test]
fn no_more_than_forty_nine_peers_are_taken_in() {
    let mut p = picker(2, 16384, 2 * 16384);
    for n in 0..49u8 {
        p.register_bitfield(peer(n), bits(&[0b1000_0000]));
    }
    assert_eq!(p.known_peers(), 49);
    assert_eq!(counts(&p), vec![49, 0]);
    p.register_bitfield(peer(100), bits(&[0b1100_0000]));
    p.have(peer(101), 1);
    assert_eq!(p.known_peers(), 49);
    assert_eq!(counts(&p), vec![49, 0]);
    assert!(!p.peer_has(&peer(100), 0));
    assert_eq!(p.boundary(48), Some(1));
    assert_eq!(p.boundary(49), Some(2));
    p.register_bitfield(peer(3), bits(&[0b0100_0000]));
    assert_eq!(p.known_peers(), 49);
    assert_eq!(counts(&p), vec![48, 1]);
    assert_sound(&p);
    assert_partitioned(&p);
}

#[test]
fn unknown_peer_gets_no_piece() {
    let mut p = picker(2, 16384, 2 * 16384);
    assert!(p.pick_piece(&peer(1)).is_none());
    assert!(p.pick_intial_pieces(&peer(1)).is_none());
    assert_eq!(order(&p), vec![0, 1]);
}

#[test]
fn peer_without_pieces_gets_no_piece() {
    let mut p = picker(2, 16384, 2 * 16384);
    p.register_bitfield(peer(1), bits(&[0]));
    assert!(p.pick_piece(&peer(1)).is_none());
    assert!(p.pick_intial_pieces(&peer(1)).is_none());
}

fn as_tuple(b: &Block) -> (u32, u32, u32) {
    (b.piece_index, b.begin, b.length)
}

#[test]
fn rarest_piece_is_picked_first() {
    let mut p = picker(3, 16384, 3 * 16384);
    p.register_bitfield(peer(1), bits(&[0b1110_0000]));
    p.register_bitfield(peer(2), bits(&[0b1100_0000]));
    p.register_bitfield(peer(3), bits(&[0b1000_0000]));
    assert_eq!(counts(&p), vec![3, 2, 1]);
    let first = p.pick_piece(&peer(1)).unwrap();
    assert_eq!(as_tuple(&first), (2, 0, 16384));
    let second = p.pick_piece(&peer(1)).unwrap();
    assert_eq!(as_tuple(&second), (1, 0, 16384));
    let third = p.pick_piece(&peer(1)).unwrap();
    assert_eq!(as_tuple(&third), (0, 0, 16384));
    assert!(p.pick_piece(&peer(1)).is_none());
    assert_sound(&p);
}

#[test]
fn picked_piece_moves_to_the_front() {
    let mut p = picker(4, 2 * 16384, 8 * 16384);
    p.register_bitfield(peer(1), bits(&[0b0010_0000]));
    assert_eq!(order(&p), vec![0, 1, 3, 2]);
    assert!(!p.is_downloading(2));
    let block = p.pick_piece(&peer(1)).unwrap();
    assert_eq!(as_tuple(&block), (2, 0, 16384));
    assert_eq!(order(&p), vec![2, 0, 1, 3]);
    assert_eq!(positions(&p), vec![1, 2, 0, 3]);
    assert!(p.is_downloading(2));
    assert_eq!(p.boundary(0), Some(4));
    assert_eq!(p.boundary(1), Some(4));
    assert_eq!(p.boundary(49), Some(4));
    assert_sound(&p);
    let block = p.pick_piece(&peer(1)).unwrap();
    assert_eq!(as_tuple(&block), (2, 16384, 16384));
    assert_eq!(order(&p), vec![2, 0, 1, 3]);
    assert!(p.pick_piece(&peer(1)).is_none());
}

#[test]
fn piece_in_progress_is_finished_before_others() {
    let mut p = picker(3, 3 * 16384, 9 * 16384);
    p.register_bitfield(peer(1), bits(&[0b1110_0000]));
    p.register_bitfield(peer(2), bits(&[0b0010_0000]));
    let a = p.pick_piece(&peer(2)).unwrap();
    assert_eq!(as_tuple(&a), (2, 0, 16384));
    let b = p.pick_piece(&peer(1)).unwrap();
    assert_eq!(as_tuple(&b), (2, 16384, 16384));
    let c = p.pick_piece(&peer(1)).unwrap();
    assert_eq!(as_tuple(&c), (2, 32768, 16384));
    let d = p.pick_piece(&peer(1)).unwrap();
    assert_eq!(d.piece_index, 0);
    assert!(p.pick_piece(&peer(2)).is_none());
}

#[test]
fn no_block_is_handed_out_twice() {
    let mut p = picker(2, 2 * 16384, 4 * 16384);
    p.register_bitfield(peer(1), bits(&[0b1100_0000]));
    p.register_bitfield(peer(2), bits(&[0b1100_0000]));
    let mut seen: Vec<(u32, u32, u32)> = vec![];
    for turn in 0..6 {
        let id = if turn % 2 == 0 { peer(1) } else { peer(2) };
        if let Some(block) = p.pick_piece(&id) {
            let t = as_tuple(&block);
            assert!(!seen.contains(&t));
            seen.push(t);
        }
    }
    seen.sort();
    assert_eq!(seen, vec![(0, 0, 16384), (0, 16384, 16384), (1, 0, 16384), (1, 16384, 16384)]);
}

#[test]
fn last_piece_and_its_last_block_are_shorter() {
    let file_length = 2 * 40000 + 20000;
    let mut p = picker(3, 40000, file_length);
    assert_eq!(p.piece_size_of(0), 40000);
    assert_eq!(p.piece_size_of(1), 40000);
    assert_eq!(p.piece_size_of(2), 20000);
    p.register_bitfield(peer(1), bits(&[0b0010_0000]));
    p.register_bitfield(peer(2), bits(&[0b1000_0000]));
    let a = p.pick_piece(&peer(1)).unwrap();
    assert_eq!(as_tuple(&a), (2, 0, 16384));
    let b = p.pick_piece(&peer(1)).unwrap();
    assert_eq!(as_tuple(&b), (2, 16384, 20000 - 16384));
    assert!(p.pick_piece(&peer(1)).is_none());
    let c = p.pick_piece(&peer(2)).unwrap();
    assert_eq!(as_tuple(&c), (0, 0, 16384));
    let d = p.pick_piece(&peer(2)).unwrap();
    assert_eq!(as_tuple(&d), (0, 16384, 16384));
    let e = p.pick_piece(&peer(2)).unwrap();
    assert_eq!(as_tuple(&e), (0, 32768, 40000 - 32768));
}

#[test]
fn last_block_of_a_whole_number_of_blocks_is_full() {
    let mut p = picker(2, 32768, 32768 + 16384);
    assert_eq!(p.piece_size_of(1), 16384);
    p.register_bitfield(peer(1), bits(&[0b0100_0000]));
    let a = p.pick_piece(&peer(1)).unwrap();
    assert_eq!(as_tuple(&a), (1, 0, 16384));
    assert!(p.pick_piece(&peer(1)).is_none());
}

#[test]
fn initial_pieces_are_five_picks() {
    let mut p = picker(2, 4 * 16384, 8 * 16384);
    p.register_bitfield(peer(1), bits(&[0b1100_0000]));
    assert_eq!(order(&p), vec![1, 0]);
    let blocks = p.pick_intial_pieces(&peer(1)).unwrap();
    assert_eq!(blocks.len(), 5);
    let got: Vec<(u32, u32, u32)> = blocks.iter().map(|b| as_tuple(b.as_ref().unwrap())).collect();
    assert_eq!(
        got,
        vec![(1, 0, 16384), (1, 16384, 16384), (1, 32768, 16384), (1, 49152, 16384), (0, 0, 16384)]
    );
    assert_eq!(order(&p), vec![0, 1]);
}

#[test]
fn initial_pieces_may_run_out() {
    let mut p = picker(1, 2 * 16384, 2 * 16384);
    p.register_bitfield(peer(1), bits(&[0b1000_0000]));
    let blocks = p.pick_intial_pieces(&peer(1)).unwrap();
    assert_eq!(blocks.len(), 5);
    assert_eq!(as_tuple(blocks[0].as_ref().unwrap()), (0, 0, 16384));
    assert_eq!(as_tuple(blocks[1].as_ref().unwrap()), (0, 16384, 16384));
    assert!(blocks[2].is_none() && blocks[3].is_none() && blocks[4].is_none());
    assert!(p.pick_intial_pieces(&peer(1)).is_none());
}

#[test]
fn one_block_of_hello_is_handed_out_whole() {
    let mut p = PiecePicker::new(1, vec![HELLO], 5, 5);
    let piece = p.deposit_block(DownloadedBlock::new(0, 0, b"hello".to_vec())).unwrap();
    assert_eq!(piece.index, 0);
    assert_eq!(piece.blocks.len(), 1);
    assert_eq!(piece.data(), b"hello".to_vec());
    assert!(piece.is_complete());
}

#[test]
fn piece_is_handed_out_only_when_all_blocks_are_there() {
    let data: Vec<u8> = (0..40000u32).map(|i| (i % 251) as u8).collect();
    let digest: [u8; 20] = bitr::digest::sha1_digest(&data).unwrap().try_into().unwrap();
    let mut p = PiecePicker::new(1, vec![digest], 40000, 40000);
    assert!(p.deposit_block(DownloadedBlock::new(0, 32768, data[32768..].to_vec())).is_none());
    assert!(p.deposit_block(DownloadedBlock::new(0, 0, data[..16384].to_vec())).is_none());
    let piece = p.deposit_block(DownloadedBlock::new(0, 16384, data[16384..32768].to_vec())).unwrap();
    assert_eq!(piece.index, 0);
    assert_eq!(piece.blocks.len(), 3);
    assert_eq!(piece.data(), data);
}

#[test]
fn piece_with_wrong_digest_is_dropped_and_opened_again() {
    let mut p = PiecePicker::new(1, vec![HELLO], 5, 5);
    p.register_bitfield(peer(1), bits(&[0b1000_0000]));
    let block = p.pick_piece(&peer(1)).unwrap();
    assert_eq!(as_tuple(&block), (0, 0, 5));
    assert!(p.pick_piece(&peer(1)).is_none());
    assert!(p.deposit_block(DownloadedBlock::new(0, 0, b"hellp".to_vec())).is_none());
    let again = p.pick_piece(&peer(1)).unwrap();
    assert_eq!(as_tuple(&again), (0, 0, 5));
    let piece = p.deposit_block(DownloadedBlock::new(0, 0, b"hello".to_vec())).unwrap();
    assert_eq!(piece.data(), b"hello".to_vec());
}

#[test]
fn block_of_no_piece_is_dropped() {
    let mut p = PiecePicker::new(1, vec![HELLO], 5, 5);
    assert!(p.deposit_block(DownloadedBlock::new(1, 0, b"hello".to_vec())).is_none());
    assert!(p.deposit_block(DownloadedBlock::new(u32::MAX, 0, b"hello".to_vec())).is_none());
    assert!(p.deposit_block(DownloadedBlock::new(0, 16384, b"hello".to_vec())).is_none());
    assert!(p.deposit_block(DownloadedBlock::new(0, 0, vec![])).is_none());
    assert!(p.deposit_block(DownloadedBlock::new(0, 5, b"hello".to_vec())).is_some());
}

#[test]
fn later_block_replaces_the_earlier_one_in_its_slot() {
    let data: Vec<u8> = vec![7; 20000];
    let digest: [u8; 20] = bitr::digest::sha1_digest(&data).unwrap().try_into().unwrap();
    let mut p = PiecePicker::new(1, vec![digest], 20000, 20000);
    assert!(p.deposit_block(DownloadedBlock::new(0, 0, vec![1; 16384])).is_none());
    assert!(p.deposit_block(DownloadedBlock::new(0, 0, vec![7; 16384])).is_none());
    let piece = p.deposit_block(DownloadedBlock::new(0, 16384, vec![7; 20000 - 16384])).unwrap();
    assert_eq!(piece.data(), data);
}

#[test]
fn commands_are_served_as_the_calls_are() {
    let mut p = PiecePicker::new(2, vec![HELLO, HELLO], 5, 10);
    let out = p.handle_command(Command::BitfieldRecieved { peer_id: peer(1), bitfield: bits(&[0b0100_0000]) });
    assert!(out.reply.is_none() && out.verified.is_none());
    assert_eq!(counts(&p), vec![0, 1]);
    let out = p.handle_command(Command::HavePiece { peer_id: peer(1), piece_index: 0 });
    assert!(out.reply.is_none() && out.verified.is_none());
    assert_eq!(counts(&p), vec![1, 1]);
    let out = p.handle_command(Command::PickPiece { peer_id: peer(1) });
    match out.reply {
        Some(Command::SelectedPiece(block)) => assert_eq!(as_tuple(&block), (0, 0, 5)),
        other => panic!("no piece selected: {:?}", other),
    }
    let out = p.handle_command(Command::PickInitialPieces { peer_id: peer(1) });
    match out.reply {
        Some(Command::SelectedInitialPieces(blocks)) => {
            assert_eq!(blocks.len(), 5);
            assert_eq!(as_tuple(blocks[0].as_ref().unwrap()), (1, 0, 5));
            assert!(blocks[1..].iter().all(|b| b.is_none()));
        }
        other => panic!("no pieces selected: {:?}", other),
    }
    let out = p.handle_command(Command::PickPiece { peer_id: peer(1) });
    assert!(matches!(out.reply, Some(Command::NoPiece)));
    let out = p.handle_command(Command::PickInitialPieces { peer_id: peer(1) });
    assert!(matches!(out.reply, Some(Command::NoPiece)));
    let out = p.handle_command(Command::PickPiece { peer_id: peer(2) });
    assert!(matches!(out.reply, Some(Command::NoPiece)));
    let out = p.handle_command(Command::DownloadedBlock(DownloadedBlock::new(1, 0, b"hello".to_vec())));
    assert!(out.reply.is_none());
    assert_eq!(out.verified.unwrap().index, 1);
    let out = p.handle_command(Command::NoPiece);
    assert!(out.reply.is_none() && out.verified.is_none());
    let out = p.handle_command(Command::PeerDisconnected { peer_id: peer(1) });
    assert!(out.reply.is_none() && out.verified.is_none());
    assert_eq!(counts(&p), vec![0, 0]);
    assert_eq!(p.known_peers(), 0);
    let out = p.handle_command(Command::SelectedPiece(Block::new(0, 0, None)));
    assert!(out.reply.is_none() && out.verified.is_none());
    assert_sound(&p);
}

#[test]
fn picks_and_bitfields_in_turn_keep_every_piece_in_its_place() {
    let mut p = picker(9, 2 * 16384, 18 * 16384);
    let peers: Vec<Vec<u8>> = (1..=6).map(peer).collect();
    let fields: [[u8; 2]; 6] = [
        [0b1010_1010, 0b1000_0000],
        [0b0101_0101, 0b0000_0000],
        [0b1111_0000, 0b1000_0000],
        [0b0000_1111, 0b0000_0000],
        [0b1000_0001, 0b1000_0000],
        [0b1111_1111, 0b1000_0000],
    ];
    for (id, field) in peers.iter().zip(fields.iter()) {
        p.register_bitfield(id.clone(), bits(field));
        assert_sound(&p);
        for other in &peers {
            let _ = p.pick_piece(other);
            assert_sound(&p);
        }
        for piece in 0..9 {
            assert_eq!(p.availability_of(piece), Some(holders(&p, &peers, piece)));
        }
    }
    p.have(peers[1].clone(), 0);
    p.remove_peer(&peers[5]);
    p.remove_peer(&peers[0]);
    assert_sound(&p);
    for piece in 0..9 {
        assert_eq!(p.availability_of(piece), Some(holders(&p, &peers, piece)));
    }
}
