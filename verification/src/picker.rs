//! The piece picker: which block to ask of which peer.
//!
//! The picker keeps the pieces in an order that puts the rarest first, and
//! for each availability the place in that order where the pieces of higher
//! availability begin. Raising or lowering a piece's availability is then
//! one exchange and one boundary step.
use crate::bits::Bitfield;
use crate::digest::{digest_matches, has_digest};
use crate::model::{knows, peer_index, single_bit, PeerView, PickerView, MAX_AVAIL, MAX_PEERS};
use crate::piece::{
    first_open, Block, BlockState, DownloadedBlock, DownloadedPiece, DownloadingPiece,
};
use crate::utils::same_bytes;
use std::collections::HashMap;
use vstd::prelude::*;

verus! {

broadcast use vstd::std_specs::hash::group_hash_axioms;

/// Whether a block of a piece was ever requested.
#[derive(Debug, Clone, Copy, PartialEq, Eq, Structural)]
pub enum PieceState {
    Downloading,
    NotDownloading,
}

/// What the picker keeps of one piece: how many known peers have it,
/// whether it is being downloaded, and where it stands in the order.
#[derive(Debug)]
pub struct PiecePos {
    pub peer_count: u32,
    pub state: PieceState,
    pub index: u32,
}

impl PiecePos {
    /// The entry of a piece that stands at `index` of the order.
    pub fn new(peer_count: u32, state: PieceState, index: u32) -> (p: PiecePos)
        ensures
            p.peer_count == peer_count,
            p.state == state,
            p.index == index,
    {
        PiecePos { peer_count, state, index }
    }
}

/// The bitfield that a peer announced, under the peer's id.
#[derive(Debug)]
pub struct PeerBitfield {
    pub peer_id: Vec<u8>,
    pub bitfield: Bitfield,
}

/// The piece picker. Its state as a mathematical value is its view, a
/// `PickerView`.
#[derive(Debug)]
pub struct PiecePicker {
    file_length: u32,
    total_pieces: u32,
    piece_map: Vec<PiecePos>,
    pieces: Vec<u32>,
    priority_boundaries: Vec<u32>,
    downloading: HashMap<u32, DownloadingPiece>,
    piece_hashes: Vec<[u8; 20]>,
    piece_length: u32,
    peer_bitfields: Vec<PeerBitfield>,
    downloaded_pieces: HashMap<u32, DownloadedPiece>,
}

/// Whether the lengths describe `total_pieces` pieces with one digest each:
/// all of `piece_length` bytes but the last, which is not empty and not
/// longer.
pub open spec fn valid_layout(
    total_pieces: u32,
    digests: nat,
    piece_length: u32,
    file_length: u32,
) -> bool {
    &&& digests == total_pieces
    &&& total_pieces <= usize::MAX / 8
    &&& total_pieces > 0 ==> (total_pieces - 1) * piece_length < file_length <= total_pieces
        * piece_length
}

/// The digests as byte strings.
pub open spec fn digest_strings(digests: Seq<[u8; 20]>) -> Seq<Seq<u8>> {
    Seq::new(digests.len(), |i: int| digests[i]@)
}

impl View for PiecePicker {
    type V = PickerView;

    closed spec fn view(&self) -> PickerView {
        PickerView {
            piece_length: self.piece_length as nat,
            file_length: self.file_length as nat,
            hashes: digest_strings(self.piece_hashes@),
            pieces: Seq::new(self.pieces@.len(), |p: int| self.pieces@[p] as int),
            positions: Seq::new(self.piece_map@.len(), |i: int| self.piece_map@[i].index as int),
            counts: Seq::new(
                self.piece_map@.len(),
                |i: int| self.piece_map@[i].peer_count as int,
            ),
            active: Seq::new(
                self.piece_map@.len(),
                |i: int| self.piece_map@[i].state == PieceState::Downloading,
            ),
            boundaries: Seq::new(
                self.priority_boundaries@.len(),
                |a: int| self.priority_boundaries@[a] as int,
            ),
            peers: Seq::new(
                self.peer_bitfields@.len(),
                |j: int|
                    PeerView {
                        id: self.peer_bitfields@[j].peer_id@,
                        bits: self.peer_bitfields@[j].bitfield@,
                    },
            ),
            requested: Map::new(
                |i: u32| self.downloading@.contains_key(i),
                |i: u32| self.downloading@[i].states(),
            ),
            received: Map::new(
                |i: u32| self.downloaded_pieces@.contains_key(i),
                |i: u32| self.downloaded_pieces@[i].buffers(),
            ),
        }
    }
}

impl PiecePicker {
    /// The picker's state is well formed, and its fields agree with one
    /// another.
    pub closed spec fn wf(&self) -> bool {
        &&& self@.wf()
        &&& self.total_pieces == self.pieces@.len()
        &&& self.piece_map@.len() == self.pieces@.len()
        &&& forall|i: u32| #[trigger]
            self.downloading@.contains_key(i) ==> self.downloading@[i].wf(
                i,
                self@.size_of(i as int),
            )
        &&& forall|i: u32| #[trigger]
            self.downloaded_pieces@.contains_key(i) ==> self.downloaded_pieces@[i].wf(
                i,
                self@.size_of(i as int),
            )
    }

    /// A well-formed picker has a well-formed state.
    pub proof fn lemma_wf(&self)
        requires
            self.wf(),
        ensures
            self@.wf(),
    {
    }

    /// A picker for `total_pieces` pieces that knows no peer yet.
    pub fn new(
        total_pieces: u32,
        piece_hashes: Vec<[u8; 20]>,
        piece_length: u32,
        file_length: u32,
    ) -> (picker: PiecePicker)
        requires
            valid_layout(total_pieces, piece_hashes@.len(), piece_length, file_length),
        ensures
            picker.wf(),
            picker@.consistent(),
            picker@.partitioned(),
            picker@ == PickerView::initial(
                digest_strings(piece_hashes@),
                piece_length as nat,
                file_length as nat,
            ),
    {
        let mut piece_map: Vec<PiecePos> = Vec::new();
        let mut pieces: Vec<u32> = Vec::new();
        let mut index: u32 = 0;
        while index < total_pieces
            invariant
                index <= total_pieces,
                piece_map@.len() == index,
                pieces@.len() == index,
                forall|i: int|
                    0 <= i < index ==> {
                        &&& (#[trigger] piece_map@[i]).peer_count == 0
                        &&& piece_map@[i].state == PieceState::NotDownloading
                        &&& piece_map@[i].index == i
                    },
                forall|p: int| 0 <= p < index ==> #[trigger] pieces@[p] == p,
            decreases total_pieces - index,
        {
            piece_map.push(PiecePos::new(0, PieceState::NotDownloading, index));
            pieces.push(index);
            index += 1;
        }
        let mut priority_boundaries: Vec<u32> = Vec::new();
        let mut a: usize = 0;
        while a < MAX_AVAIL
            invariant
                a <= MAX_AVAIL,
                priority_boundaries@.len() == a,
                forall|k: int| 0 <= k < a ==> #[trigger] priority_boundaries@[k] == total_pieces,
            decreases MAX_AVAIL - a,
        {
            priority_boundaries.push(total_pieces);
            a += 1;
        }
        let picker = PiecePicker {
            file_length,
            total_pieces,
            piece_map,
            pieces,
            priority_boundaries,
            downloading: HashMap::new(),
            piece_hashes,
            piece_length,
            peer_bitfields: Vec::new(),
            downloaded_pieces: HashMap::new(),
        };
        proof {
            let init = PickerView::initial(
                digest_strings(piece_hashes@),
                piece_length as nat,
                file_length as nat,
            );
            assert(picker@.pieces =~= init.pieces);
            assert(picker@.positions =~= init.positions);
            assert(picker@.counts =~= init.counts);
            assert(picker@.active =~= init.active);
            assert(picker@.boundaries =~= init.boundaries);
            assert(picker@.peers =~= init.peers);
            assert(picker@.requested =~= init.requested);
            assert(picker@.received =~= init.received);
            assert(picker@ == init);
            assert(picker@.layout_ok());
        }
        picker
    }

    /// Records that one more peer has `piece`, and moves the piece to the
    /// pieces of the next availability.
    pub fn increment_piece_availability(&mut self, piece: usize)
        requires
            old(self).wf(),
            piece < old(self)@.total(),
            old(self)@.counts[piece as int] < MAX_AVAIL - 1,
        ensures
            final(self).wf(),
            final(self)@ == old(self)@.increment(piece as int),
    {
        proof {
            crate::invariants::lemma_increment_wf(old(self)@, piece as int);
        }
        let avail: u32 = self.piece_map[piece].peer_count;
        if self.priority_boundaries[avail as usize] == 0 {
            self.piece_map[piece].peer_count = avail + 1;
            proof {
                let w = old(self)@.increment(piece as int);
                assert(self@.counts =~= w.counts);
                assert(self@.positions =~= w.positions);
                assert(self@.active =~= w.active);
                assert(self@ =~= w);
            }
            return ;
        }
        let other_index: u32 = self.priority_boundaries[avail as usize] - 1;
        self.priority_boundaries[avail as usize] = other_index;
        self.piece_map[piece].peer_count = avail + 1;
        let piece_index: u32 = self.piece_map[piece].index;
        let other_piece: u32 = self.pieces[other_index as usize];
        self.pieces[other_index as usize] = piece as u32;
        self.pieces[piece_index as usize] = other_piece;
        self.piece_map[piece].index = other_index;
        self.piece_map[other_piece as usize].index = piece_index;
        proof {
            let v = old(self)@;
            let w = v.increment(piece as int);
            assert(v.pieces[v.positions[piece as int]] == piece);
            assert(v.positions[v.pieces[other_index as int]] == other_index);
            assert(self@.pieces =~= w.pieces);
            assert(self@.positions =~= w.positions);
            assert(self@.counts =~= w.counts);
            assert(self@.active =~= w.active);
            assert(self@.boundaries =~= w.boundaries);
            assert(self@ =~= w);
        }
    }

    /// Records that one peer fewer has `piece`, and moves the piece back to
    /// the pieces of the availability below.
    pub fn decrement_piece_availability(&mut self, piece: usize)
        requires
            old(self).wf(),
            piece < old(self)@.total(),
        ensures
            final(self).wf(),
            final(self)@ == old(self)@.decrement(piece as int),
    {
        proof {
            crate::invariants::lemma_decrement_wf(old(self)@, piece as int);
        }
        if self.piece_map[piece].peer_count == 0 {
            return ;
        }
        let avail: u32 = self.piece_map[piece].peer_count - 1;
        let other_index: u32 = self.priority_boundaries[avail as usize];
        if other_index >= self.total_pieces {
            self.piece_map[piece].peer_count = avail;
            proof {
                let w = old(self)@.decrement(piece as int);
                assert(self@.counts =~= w.counts);
                assert(self@.positions =~= w.positions);
                assert(self@.active =~= w.active);
                assert(self@ =~= w);
            }
            return ;
        }
        self.piece_map[piece].peer_count = avail;
        let piece_index: u32 = self.piece_map[piece].index;
        let other_piece: u32 = self.pieces[other_index as usize];
        self.pieces[other_index as usize] = piece as u32;
        self.pieces[piece_index as usize] = other_piece;
        self.piece_map[piece].index = other_index;
        self.piece_map[other_piece as usize].index = piece_index;
        self.priority_boundaries[avail as usize] = other_index + 1;
        proof {
            let v = old(self)@;
            let w = v.decrement(piece as int);
            assert(v.pieces[v.positions[piece as int]] == piece);
            assert(v.positions[v.pieces[other_index as int]] == other_index);
            assert(self@.pieces =~= w.pieces);
            assert(self@.positions =~= w.positions);
            assert(self@.counts =~= w.counts);
            assert(self@.active =~= w.active);
            assert(self@.boundaries =~= w.boundaries);
            assert(self@ =~= w);
        }
    }

    /// Moves the piece at position `index` of the order to the front, so
    /// that later picks finish it first.
    pub fn priortize_downloading_piece(&mut self, index: usize)
        requires
            old(self).wf(),
            index < old(self)@.total(),
        ensures
            final(self).wf(),
            final(self)@ == old(self)@.prioritize(index as int),
    {
        let ghost v = old(self)@;
        let ghost w = v.prioritize(index as int);
        proof {
            crate::invariants::lemma_prioritize_wf(v, index as int);
        }
        let removed_piece: u32 = self.pieces.remove(index);
        self.pieces.insert(0, removed_piece);
        assert(self@.pieces =~= w.pieces);
        self.piece_map[removed_piece as usize].index = 0;

        let mut a: usize = 0;
        while a < MAX_AVAIL
            invariant
                a <= MAX_AVAIL,
                index < v.total(),
                index < old(self).pieces@.len(),
                removed_piece < old(self).piece_map@.len(),
                w == v.prioritize(index as int),
                v.counts_in_range(),
                v.total() <= u32::MAX,
                self.priority_boundaries@.len() == MAX_AVAIL,
                forall|k: int|
                    0 <= k < a ==> #[trigger] self.priority_boundaries@[k] == w.boundaries[k],
                forall|k: int|
                    a <= k < MAX_AVAIL ==> #[trigger] self.priority_boundaries@[k]
                        == v.boundaries[k],
                self.pieces@ == old(self).pieces@.remove(index as int).insert(
                    0,
                    removed_piece,
                ),
                self.piece_map@ == old(self).piece_map@.update(
                    removed_piece as int,
                    PiecePos { index: 0, ..old(self).piece_map@[removed_piece as int] },
                ),
                self.file_length == old(self).file_length,
                self.total_pieces == old(self).total_pieces,
                self.piece_length == old(self).piece_length,
                self.piece_hashes == old(self).piece_hashes,
                self.peer_bitfields == old(self).peer_bitfields,
                self.downloading == old(self).downloading,
                self.downloaded_pieces == old(self).downloaded_pieces,
            decreases MAX_AVAIL - a,
        {
            let boundary: u32 = self.priority_boundaries[a];
            if boundary as usize <= index {
                self.priority_boundaries[a] = boundary + 1;
            }
            a += 1;
        }
        assert(self@.boundaries =~= w.boundaries);

        let mut i: usize = 1;
        while i <= index
            invariant
                1 <= i <= index + 1,
                index < v.total(),
                v.is_permutation(),
                v.total() <= u32::MAX,
                v.total() == old(self).piece_map@.len(),
                v.pieces == Seq::new(
                    old(self).pieces@.len(),
                    |p: int| old(self).pieces@[p] as int,
                ),
                v.positions == Seq::new(
                    old(self).piece_map@.len(),
                    |j: int| old(self).piece_map@[j].index as int,
                ),
                removed_piece == v.pieces[index as int],
                self.pieces@ == old(self).pieces@.remove(index as int).insert(0, removed_piece),
                self.piece_map@.len() == v.total(),
                forall|j: int|
                    0 <= j < v.total() ==> {
                        &&& (#[trigger] self.piece_map@[j]).peer_count == old(
                            self,
                        ).piece_map@[j].peer_count
                        &&& self.piece_map@[j].state == old(self).piece_map@[j].state
                        &&& self.piece_map@[j].index as int == if j == removed_piece {
                            0
                        } else if v.positions[j] < i - 1 {
                            v.positions[j] + 1
                        } else {
                            v.positions[j]
                        }
                    },
                self.file_length == old(self).file_length,
                self.total_pieces == old(self).total_pieces,
                self.piece_length == old(self).piece_length,
                self.piece_hashes == old(self).piece_hashes,
                self.peer_bitfields == old(self).peer_bitfields,
                self.downloading == old(self).downloading,
                self.downloaded_pieces == old(self).downloaded_pieces,
                self@.boundaries == w.boundaries,
            decreases index + 1 - i,
        {
            let curr_piece: u32 = self.pieces[i];
            proof {
                assert(curr_piece == v.pieces[i - 1]);
                assert(0 <= v.pieces[i - 1] < v.total());
                assert(v.positions[v.pieces[i - 1]] == i - 1);
                assert(v.positions[removed_piece as int] == index);
            }
            let at: u32 = self.piece_map[curr_piece as usize].index;
            self.piece_map[curr_piece as usize].index = at + 1;
            assert forall|j: int| 0 <= j < v.total() implies {
                &&& (#[trigger] self.piece_map@[j]).peer_count == old(
                    self,
                ).piece_map@[j].peer_count
                &&& self.piece_map@[j].state == old(self).piece_map@[j].state
                &&& self.piece_map@[j].index as int == if j == removed_piece {
                    0
                } else if v.positions[j] < i {
                    v.positions[j] + 1
                } else {
                    v.positions[j]
                }
            } by {
                assert(0 <= v.positions[j] < v.total());
                assert(v.pieces[v.positions[j]] == j);
            }
            i += 1;
        }
        proof {
            assert(self@.pieces =~= w.pieces);
            assert(self@.positions =~= w.positions);
            assert(self@.counts =~= w.counts);
            assert(self@.active =~= w.active);
            assert(self@ =~= w);
        }
    }

    /// Where the bitfield of peer `peer_id` is kept, if the peer is known.
    pub fn find_peer(&self, peer_id: &Vec<u8>) -> (r: Option<usize>)
        requires
            self.wf(),
        ensures
            r is Some <==> knows(self@.peers, peer_id@),
            r is Some ==> r->0 == peer_index(self@.peers, peer_id@) && r->0 < self@.peers.len(),
    {
        let mut j: usize = 0;
        while j < self.peer_bitfields.len()
            invariant
                j <= self.peer_bitfields@.len(),
                self.wf(),
                self@.peers.len() == self.peer_bitfields@.len(),
                forall|k: int| 0 <= k < j ==> (#[trigger] self@.peers[k]).id != peer_id@,
            decreases self.peer_bitfields@.len() - j,
        {
            if same_bytes(self.peer_bitfields[j].peer_id.as_slice(), peer_id.as_slice()) {
                proof {
                    assert(self@.peers[j as int].id == peer_id@);
                    crate::invariants::lemma_peer_index(self@.peers, j as int);
                }
                return Some(j);
            }
            j += 1;
        }
        None
    }

    /// Takes in a peer that is not known yet, with a bitfield of one bit
    /// per piece.
    fn add_peer(&mut self, peer_id: Vec<u8>, bitfield: Bitfield)
        requires
            old(self).wf(),
            old(self)@.consistent(),
            bitfield@.len() == old(self)@.total(),
            !knows(old(self)@.peers, peer_id@),
            old(self)@.peers.len() < MAX_PEERS,
        ensures
            final(self).wf(),
            final(self)@.consistent(),
            final(self)@ == old(self)@.with_peer(peer_id@, bitfield@),
    {
        let ghost v = old(self)@;
        let ghost bits = bitfield@;
        proof {
            assert forall|i: int| 0 <= i < v.total() && bits[i] implies #[trigger] v.counts[i]
                < MAX_AVAIL - 1 by {
                crate::invariants::lemma_holders_bounds(v.peers, i);
            }
        }
        let n: usize = self.pieces.len();
        let mut piece: usize = 0;
        while piece < n
            invariant
                piece <= n,
                n == v.total(),
                v.wf(),
                bits == bitfield@,
                bits.len() == v.total(),
                forall|i: int|
                    0 <= i < v.total() && bits[i] ==> #[trigger] v.counts[i] < MAX_AVAIL - 1,
                self.wf(),
                self@ == v.increment_each(bits, piece as nat),
            decreases n - piece,
        {
            proof {
                crate::invariants::lemma_increment_each(v, bits, piece as nat);
            }
            if bitfield.has(piece) {
                self.increment_piece_availability(piece);
            }
            piece += 1;
        }
        proof {
            crate::invariants::lemma_increment_each(v, bits, n as nat);
            crate::invariants::lemma_with_peer(v, peer_id@, bits);
        }
        self.peer_bitfields.push(PeerBitfield { peer_id, bitfield });
        proof {
            let w = v.with_peer(peer_id@, bits);
            assert(self@.peers =~= w.peers);
            assert(self@ =~= w);
        }
    }

    /// Forgets peer `peer_id`: the pieces it had become less available.
    /// Nothing changes when the peer is not known.
    pub fn remove_peer(&mut self, peer_id: &Vec<u8>)
        requires
            old(self).wf(),
            old(self)@.consistent(),
        ensures
            final(self).wf(),
            final(self)@.consistent(),
            final(self)@ == old(self)@.remove_peer(peer_id@),
    {
        let ghost v = old(self)@;
        match self.find_peer(peer_id) {
            None => {},
            Some(j) => {
                let ghost bits = v.peers[j as int].bits;
                proof {
                    assert forall|i: int| 0 <= i < v.total() && bits[i] implies #[trigger] v.counts[i]
                        > 0 by {
                        crate::invariants::lemma_holders_remove(v.peers, j as int, i);
                        crate::invariants::lemma_holders_bounds(v.peers.remove(j as int), i);
                    }
                }
                let n: usize = self.pieces.len();
                let mut piece: usize = 0;
                while piece < n
                    invariant
                        piece <= n,
                        n == v.total(),
                        v.wf(),
                        j < v.peers.len(),
                        bits == v.peers[j as int].bits,
                        bits.len() == v.total(),
                        forall|i: int| 0 <= i < v.total() && bits[i] ==> #[trigger] v.counts[i] > 0,
                        self.wf(),
                        self@ == v.decrement_each(bits, piece as nat),
                    decreases n - piece,
                {
                    proof {
                        crate::invariants::lemma_decrement_each(v, bits, piece as nat);
                    }
                    if self.peer_bitfields[j].bitfield.has(piece) {
                        self.decrement_piece_availability(piece);
                    }
                    piece += 1;
                }
                proof {
                    crate::invariants::lemma_decrement_each(v, bits, n as nat);
                    crate::invariants::lemma_without_peer(v, j as int);
                }
                self.peer_bitfields.remove(j);
                proof {
                    let w = v.without_peer(j as int);
                    assert(self@.peers =~= w.peers);
                    assert(self@ =~= w);
                }
            },
        }
    }

    /// Takes in the bitfield that peer `peer_id` announced.
    ///
    /// Bits past the last piece are dropped and missing bits count as zero
    /// before any availability is raised. A bitfield from a known peer
    /// replaces the one it sent before; a new peer beyond the picker's
    /// capacity is ignored.
    pub fn register_bitfield(&mut self, peer_id: Vec<u8>, bitfield: Bitfield)
        requires
            old(self).wf(),
            old(self)@.consistent(),
        ensures
            final(self).wf(),
            final(self)@.consistent(),
            final(self)@ == old(self)@.register(peer_id@, bitfield@),
    {
        let ghost v = old(self)@;
        let mut bitfield = bitfield;
        let known: bool = self.find_peer(&peer_id).is_some();
        if known {
            proof {
                crate::invariants::lemma_without_peer(v, peer_index(v.peers, peer_id@));
            }
            self.remove_peer(&peer_id);
        } else if self.peer_bitfields.len() >= MAX_PEERS {
            return ;
        }
        bitfield.fit_to(self.pieces.len());
        self.add_peer(peer_id, bitfield);
    }

    /// Records that peer `peer_id` has piece `piece_index`.
    ///
    /// A piece that the peer was already known to have is not counted
    /// again, and an index that names no piece is ignored. A peer that sent
    /// no bitfield is taken in as one that has this piece alone, unless it
    /// would be beyond the picker's capacity.
    pub fn have(&mut self, peer_id: Vec<u8>, piece_index: usize)
        requires
            old(self).wf(),
            old(self)@.consistent(),
        ensures
            final(self).wf(),
            final(self)@.consistent(),
            final(self)@ == old(self)@.have(peer_id@, piece_index as int),
    {
        let ghost v = old(self)@;
        proof {
            crate::invariants::lemma_have(v, peer_id@, piece_index as int);
        }
        if piece_index >= self.pieces.len() {
            return ;
        }
        match self.find_peer(&peer_id) {
            Some(j) => {
                if !self.peer_bitfields[j].bitfield.has(piece_index) {
                    proof {
                        crate::invariants::lemma_holders_bounds(v.peers, piece_index as int);
                        let peer = PeerView {
                            id: v.peers[j as int].id,
                            bits: v.peers[j as int].bits.update(piece_index as int, true),
                        };
                        crate::invariants::lemma_holders_update(
                            v.peers,
                            j as int,
                            peer,
                            piece_index as int,
                        );
                        crate::invariants::lemma_holders_bounds(
                            v.peers.update(j as int, peer),
                            piece_index as int,
                        );
                    }
                    self.increment_piece_availability(piece_index);
                    self.peer_bitfields[j].bitfield.set(piece_index, true);
                    proof {
                        let w = v.have(peer_id@, piece_index as int);
                        assert(self@.peers =~= w.peers);
                        assert(self@ =~= w);
                    }
                }
            },
            None => {
                if self.peer_bitfields.len() >= MAX_PEERS {
                    return ;
                }
                match Bitfield::from_bytes(Vec::new()) {
                    Some(empty) => {
                        let mut bitfield = empty;
                        bitfield.fit_to(self.pieces.len());
                        bitfield.set(piece_index, true);
                        assert(bitfield@ =~= single_bit(v.total() as nat, piece_index as int));
                        self.add_peer(peer_id, bitfield);
                    },
                    None => {},
                }
            },
        }
    }

    /// Length of piece `piece`: the nominal length, but for the last piece,
    /// which has what is left of the file.
    pub fn piece_size_of(&self, piece: u32) -> (n: u32)
        requires
            self.wf(),
            piece < self@.total(),
        ensures
            n == self@.size_of(piece as int),
            n > 0,
    {
        proof {
            crate::invariants::lemma_piece_sizes(self@, piece as int);
        }
        if piece == self.total_pieces - 1 {
            self.file_length - piece * self.piece_length
        } else {
            self.piece_length
        }
    }

    /// Picks a block to ask of peer `peer_id`.
    ///
    /// The pieces are tried rarest first, but pieces in progress before all
    /// others. The first piece that the peer has and that has an open block
    /// is picked: its first open block becomes requested and is returned,
    /// and the piece moves to the front of the order.
    pub fn pick_piece(&mut self, peer_id: &Vec<u8>) -> (r: Option<Block>)
        requires
            old(self).wf(),
            old(self)@.consistent(),
        ensures
            final(self).wf(),
            final(self)@.consistent(),
            (final(self)@, r) == old(self)@.pick(peer_id@),
    {
        let ghost v = old(self)@;
        let j: usize = match self.find_peer(peer_id) {
            Some(j) => j,
            None => {
                return None;
            },
        };
        let ghost bits = v.peers[j as int].bits;
        let n: usize = self.pieces.len();
        let mut index: usize = 0;
        while index < n
            invariant
                index <= n,
                n == v.total(),
                *self == *old(self),
                self.wf(),
                self@ == v,
                v.consistent(),
                knows(v.peers, peer_id@),
                j == peer_index(v.peers, peer_id@),
                j < v.peers.len(),
                bits == v.peers[j as int].bits,
                forall|q: int| 0 <= q < index ==> !v.eligible(bits, q),
            decreases n - index,
        {
            let piece: u32 = self.pieces[index];
            assert(0 <= v.pieces[index as int] < v.total());
            assert(self@.peers[j as int].bits.len() == v.total());
            if self.peer_bitfields[j].bitfield.has(piece as usize) {
                let open: bool = match self.downloading.get(&piece) {
                    Some(in_progress) => in_progress.has_open(),
                    None => true,
                };
                proof {
                    crate::invariants::lemma_piece_sizes(v, piece as int);
                    if !v.requested.contains_key(piece) {
                        assert(v.states_of(piece as int)[0] == BlockState::Open);
                    }
                    assert(open == v.eligible(bits, index as int));
                }
                if open {
                    proof {
                        assert(v.is_first_eligible(bits, index as int));
                        crate::invariants::lemma_first_eligible(v, bits, index as int);
                        crate::invariants::lemma_request_at(v, index as int);
                        crate::invariants::lemma_pick_at(v, index as int);
                    }
                    let size: u32 = self.piece_size_of(piece);
                    let mut in_progress: DownloadingPiece = match self.downloading.remove(&piece) {
                        Some(in_progress) => in_progress,
                        None => DownloadingPiece::new(piece, size),
                    };
                    assert(in_progress.states() == v.states_of(piece as int));
                    assert(in_progress.wf(piece, v.size_of(piece as int)));
                    let block: Option<Block> = in_progress.request_first_open();
                    self.downloading.insert(piece, in_progress);
                    self.piece_map[piece as usize].state = PieceState::Downloading;
                    proof {
                        let w = v.request_at(index as int);
                        let k = first_open(v.states_of(piece as int));
                        crate::piece::lemma_block_bounds(v.size_of(piece as int), k as nat);
                        assert(block == Some(v.offered(index as int)));
                        assert(self@.pieces =~= w.pieces);
                        assert(self@.positions =~= w.positions);
                        assert(self@.counts =~= w.counts);
                        assert(self@.active =~= w.active);
                        assert(self@.boundaries =~= w.boundaries);
                        assert(self@.peers =~= w.peers);
                        assert(self@.requested =~= w.requested);
                        assert(self@.received =~= w.received);
                        assert(self@ =~= w);
                        assert(self.wf());
                    }
                    self.priortize_downloading_piece(index);
                    return block;
                }
            }
            index += 1;
        }
        proof {
            assert(v.none_eligible(bits));
        }
        None
    }

    /// Picks the first blocks to ask of a peer that has just unchoked us:
    /// five picks, one after the other. `None` if all five came back empty.
    pub fn pick_intial_pieces(&mut self, peer_id: &Vec<u8>) -> (r: Option<Vec<Option<Block>>>)
        requires
            old(self).wf(),
            old(self)@.consistent(),
        ensures
            final(self).wf(),
            final(self)@.consistent(),
            final(self)@ == old(self)@.pick_many(peer_id@, 5).0,
            r is None <==> forall|k: int|
                0 <= k < 5 ==> (#[trigger] old(self)@.pick_many(peer_id@, 5).1[k]) is None,
            r is Some ==> r->0@ == old(self)@.pick_many(peer_id@, 5).1,
    {
        let ghost v = old(self)@;
        let mut blocks: Vec<Option<Block>> = Vec::new();
        let mut any: bool = false;
        let mut i: usize = 0;
        while i < 5
            invariant
                i <= 5,
                self.wf(),
                self@.consistent(),
                self@ == v.pick_many(peer_id@, i as nat).0,
                blocks@ == v.pick_many(peer_id@, i as nat).1,
                blocks@.len() == i,
                any == exists|k: int| 0 <= k < i && (#[trigger] blocks@[k]) is Some,
            decreases 5 - i,
        {
            let block: Option<Block> = self.pick_piece(peer_id);
            if block.is_some() {
                any = true;
            }
            let ghost before = blocks@;
            blocks.push(block);
            proof {
                assert(blocks@[i as int] == block);
                assert(forall|k: int| 0 <= k < i ==> blocks@[k] == before[k]);
                if !any {
                    assert forall|k: int| 0 <= k < i + 1 implies !((#[trigger] blocks@[k]) is Some) by {
                        if k < i {
                            assert(blocks@[k] == before[k]);
                        }
                    }
                }
            }
            i += 1;
        }
        if any {
            Some(blocks)
        } else {
            None
        }
    }

    /// Takes in a block that a peer delivered.
    ///
    /// The block goes into its slot of its piece. When that fills the last
    /// empty slot, the piece's bytes are digested: with the expected digest
    /// the piece is handed out, to be written to disk; with another its
    /// bytes are dropped and its blocks are open to be requested again.
    pub fn deposit_block(&mut self, block: DownloadedBlock) -> (r: Option<DownloadedPiece>)
        requires
            old(self).wf(),
        ensures
            final(self).wf(),
            old(self)@.consistent() ==> final(self)@.consistent(),
            final(self)@ == old(self)@.deposit(block.piece_index, block.begin, block.data@),
            r is Some <==> old(self)@.completes(block.piece_index, block.begin, block.data@),
            r is Some ==> {
                &&& r->0.index == block.piece_index
                &&& r->0.buffers() == old(self)@.filled(
                    block.piece_index,
                    block.begin,
                    block.data@,
                )
                &&& r->0.wf(block.piece_index, old(self)@.size_of(block.piece_index as int))
                &&& digest_matches(
                    r->0.joined(),
                    old(self)@.hashes[block.piece_index as int],
                )
            },
    {
        let ghost v = old(self)@;
        let index: u32 = block.piece_index;
        let ghost slots = v.filled(index, block.begin, block.data@);
        proof {
            crate::invariants::lemma_deposit(v, index, block.begin, block.data@);
        }
        if index >= self.total_pieces {
            return None;
        }
        let size: u32 = self.piece_size_of(index);
        let mut piece: DownloadedPiece = match self.downloaded_pieces.remove(&index) {
            Some(piece) => piece,
            None => DownloadedPiece::new(index, size),
        };
        assert(piece.buffers() == v.slots_of(index));
        piece.add_downloaded_block(block);
        assert(piece.buffers() == slots);
        assert(piece.wf(index, v.size_of(index as int)));
        if !piece.is_complete() {
            self.downloaded_pieces.insert(index, piece);
            proof {
                let w = v.deposit(index, block.begin, block.data@);
                assert(self@.received =~= w.received);
                assert(self@.requested =~= w.requested);
                assert(self@ =~= w);
            }
            return None;
        }
        let data: Vec<u8> = piece.data();
        if has_digest(data.as_slice(), &self.piece_hashes[index as usize]) {
            proof {
                let w = v.deposit(index, block.begin, block.data@);
                assert(self@.received =~= w.received);
                assert(self@.requested =~= w.requested);
                assert(self@ =~= w);
            }
            return Some(piece);
        }
        match self.downloading.remove(&index) {
            Some(in_progress) => {
                let mut in_progress = in_progress;
                in_progress.reopen();
                self.downloading.insert(index, in_progress);
            },
            None => {},
        }
        proof {
            let w = v.deposit(index, block.begin, block.data@);
            assert(self@.received =~= w.received);
            assert(self@.requested =~= w.requested);
            assert(self@.active =~= w.active);
            assert(self@ =~= w);
        }
        None
    }

    /// Number of pieces.
    pub fn total_pieces(&self) -> (n: u32)
        requires
            self.wf(),
        ensures
            n == self@.total(),
    {
        self.total_pieces
    }

    /// Where `piece` stands in the order in which pieces are offered.
    pub fn position_of(&self, piece: usize) -> (r: Option<u32>)
        requires
            self.wf(),
        ensures
            r is Some <==> piece < self@.total(),
            r is Some ==> r->0 == self@.positions[piece as int],
    {
        if piece < self.piece_map.len() {
            Some(self.piece_map[piece].index)
        } else {
            None
        }
    }

    /// The piece at `position` of the order in which pieces are offered.
    pub fn piece_at(&self, position: usize) -> (r: Option<u32>)
        requires
            self.wf(),
        ensures
            r is Some <==> position < self@.total(),
            r is Some ==> r->0 == self@.pieces[position as int],
    {
        if position < self.pieces.len() {
            Some(self.pieces[position])
        } else {
            None
        }
    }

    /// Number of known peers that have `piece`.
    pub fn availability_of(&self, piece: usize) -> (r: Option<u32>)
        requires
            self.wf(),
        ensures
            r is Some <==> piece < self@.total(),
            r is Some ==> r->0 == self@.counts[piece as int],
    {
        if piece < self.piece_map.len() {
            Some(self.piece_map[piece].peer_count)
        } else {
            None
        }
    }

    /// Whether a block of `piece` was ever requested.
    pub fn is_downloading(&self, piece: usize) -> (r: bool)
        requires
            self.wf(),
        ensures
            r == (piece < self@.total() && self@.active[piece as int]),
    {
        if piece < self.piece_map.len() {
            match self.piece_map[piece].state {
                PieceState::Downloading => true,
                PieceState::NotDownloading => false,
            }
        } else {
            false
        }
    }

    /// Where in the order the pieces begin that more than `availability`
    /// peers have.
    pub fn boundary(&self, availability: usize) -> (r: Option<u32>)
        requires
            self.wf(),
        ensures
            r is Some <==> availability < MAX_AVAIL,
            r is Some ==> r->0 == self@.boundaries[availability as int],
    {
        if availability < self.priority_boundaries.len() {
            Some(self.priority_boundaries[availability])
        } else {
            None
        }
    }

    /// Number of peers whose bitfield is kept.
    pub fn known_peers(&self) -> (n: usize)
        requires
            self.wf(),
        ensures
            n == self@.peers.len(),
    {
        self.peer_bitfields.len()
    }

    /// Whether peer `peer_id` is known to have `piece`.
    pub fn peer_has(&self, peer_id: &Vec<u8>, piece: usize) -> (r: bool)
        requires
            self.wf(),
        ensures
            r == (knows(self@.peers, peer_id@) && piece < self@.total() && self@.peers[peer_index(
                self@.peers,
                peer_id@,
            )].bits[piece as int]),
    {
        match self.find_peer(peer_id) {
            Some(j) => {
                assert(self@.peers[j as int].bits.len() == self@.total());
                self.peer_bitfields[j].bitfield.has(piece)
            },
            None => false,
        }
    }
}

} // verus!
