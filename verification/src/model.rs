//! The piece picker as a mathematical value, and what its operations do to
//! that value.
//!
//! The executable picker is proved to follow these definitions step by step.
//! What holds of every state that the operations can reach is proved over
//! the definitions alone, in `invariants`.
use crate::bits::resized;
use crate::digest::digest_matches;
use crate::piece::{
    all_filled, all_open, block_count, block_length, empty_slots, first_open, none_open,
    piece_size, Block, BlockState,
};
use vstd::prelude::*;

verus! {

/// Number of availability classes the picker tells apart: a piece is held by
/// 0 to `MAX_AVAIL - 1` known peers.
pub const MAX_AVAIL: usize = 50;

/// The most peers whose bitfields the picker keeps: with more, a piece's
/// availability could leave the classes.
pub const MAX_PEERS: usize = 49;

/// A peer's bitfield, under the peer's id.
#[verifier::ext_equal]
pub struct PeerView {
    pub id: Seq<u8>,
    pub bits: Seq<bool>,
}

/// The picker's state.
#[verifier::ext_equal]
pub struct PickerView {
    /// Nominal piece length.
    pub piece_length: nat,
    /// Length of the file.
    pub file_length: nat,
    /// The expected digest of each piece.
    pub hashes: Seq<Seq<u8>>,
    /// The pieces in the order in which they are offered to peers.
    pub pieces: Seq<int>,
    /// For each piece, where it stands in `pieces`.
    pub positions: Seq<int>,
    /// For each piece, how many known peers have it.
    pub counts: Seq<int>,
    /// For each piece, whether a block of it was ever requested.
    pub active: Seq<bool>,
    /// For each availability `a`, where in `pieces` the pieces that more
    /// than `a` peers have begin.
    pub boundaries: Seq<int>,
    /// The known peers, each with its bitfield.
    pub peers: Seq<PeerView>,
    /// The block states of each piece of which a block was requested.
    pub requested: Map<u32, Seq<BlockState>>,
    /// The block buffers of each piece that is gathering blocks.
    pub received: Map<u32, Seq<Seq<u8>>>,
}

/// Number of peers among `peers` whose bitfield has piece `i`.
pub open spec fn holders(peers: Seq<PeerView>, i: int) -> int
    decreases peers.len(),
{
    if peers.len() == 0 {
        0
    } else {
        holders(peers.drop_last(), i) + if peers.last().bits[i] {
            1int
        } else {
            0int
        }
    }
}

/// Whether some peer among `peers` goes by `id`.
pub open spec fn knows(peers: Seq<PeerView>, id: Seq<u8>) -> bool {
    exists|j: int| 0 <= j < peers.len() && (#[trigger] peers[j]).id == id
}

/// Where the peer `id` stands among `peers`.
pub open spec fn peer_index(peers: Seq<PeerView>, id: Seq<u8>) -> int {
    choose|j: int| 0 <= j < peers.len() && (#[trigger] peers[j]).id == id
}

/// One change of a piece's availability.
pub enum Change {
    /// One more peer has the piece.
    Raise(int),
    /// One peer fewer has the piece.
    Lower(int),
}

/// The bitfield of `n` bits of which only bit `i` is set.
pub open spec fn single_bit(n: nat, i: int) -> Seq<bool> {
    Seq::new(n, |k: int| k == i)
}

impl PickerView {
    /// The state before any peer is known: the pieces in index order, none
    /// of them available, every boundary at the end.
    pub open spec fn initial(
        hashes: Seq<Seq<u8>>,
        piece_length: nat,
        file_length: nat,
    ) -> PickerView {
        PickerView {
            piece_length,
            file_length,
            hashes,
            pieces: Seq::new(hashes.len(), |p: int| p),
            positions: Seq::new(hashes.len(), |i: int| i),
            counts: Seq::new(hashes.len(), |i: int| 0int),
            active: Seq::new(hashes.len(), |i: int| false),
            boundaries: Seq::new(MAX_AVAIL as nat, |a: int| hashes.len() as int),
            peers: Seq::empty(),
            requested: Map::empty(),
            received: Map::empty(),
        }
    }

    /// Number of pieces.
    pub open spec fn total(self) -> int {
        self.pieces.len() as int
    }

    /// Length of piece `i`.
    pub open spec fn size_of(self, i: int) -> nat {
        piece_size(self.total() as nat, self.piece_length, self.file_length, i as nat)
    }

    /// `pieces` and `positions` are permutations of the piece indices, each
    /// the inverse of the other.
    pub open spec fn is_permutation(self) -> bool {
        &&& self.positions.len() == self.total()
        &&& forall|p: int|
            0 <= p < self.total() ==> 0 <= #[trigger] self.pieces[p] < self.total()
                && self.positions[self.pieces[p]] == p
        &&& forall|i: int|
            0 <= i < self.total() ==> 0 <= #[trigger] self.positions[i] < self.total()
                && self.pieces[self.positions[i]] == i
    }

    /// There is a boundary for each availability, none lies past the end of
    /// `pieces`, and the last one lies at the end; no piece is counted more
    /// often than the classes allow.
    pub open spec fn counts_in_range(self) -> bool {
        &&& self.counts.len() == self.total()
        &&& self.boundaries.len() == MAX_AVAIL
        &&& forall|a: int| 0 <= a < MAX_AVAIL ==> 0 <= #[trigger] self.boundaries[a] <= self.total()
        &&& self.boundaries[MAX_AVAIL - 1] == self.total()
        &&& forall|i: int| 0 <= i < self.total() ==> 0 <= #[trigger] self.counts[i] < MAX_AVAIL
    }

    /// The lengths describe `total()` pieces: all of `piece_length` bytes
    /// but the last, which is not empty and not longer; and every number
    /// fits the machine.
    pub open spec fn layout_ok(self) -> bool {
        &&& self.hashes.len() == self.total()
        &&& forall|i: int| 0 <= i < self.total() ==> (#[trigger] self.hashes[i]).len() == 20
        &&& self.total() <= u32::MAX
        &&& self.total() <= usize::MAX / 8
        &&& self.piece_length <= u32::MAX
        &&& self.file_length <= u32::MAX
        &&& self.total() > 0 ==> (self.total() - 1) * self.piece_length < self.file_length
            <= self.total() * self.piece_length
    }

    /// Every peer has a bit for each piece, no id occurs twice, and there
    /// are no more peers than the classes allow.
    pub open spec fn peers_ok(self) -> bool {
        &&& self.peers.len() <= MAX_PEERS
        &&& forall|j: int|
            0 <= j < self.peers.len() ==> (#[trigger] self.peers[j]).bits.len() == self.total()
        &&& forall|j: int, k: int|
            0 <= j < k < self.peers.len() ==> (#[trigger] self.peers[j]).id != (
            #[trigger] self.peers[k]).id
    }

    /// The pieces in progress are pieces, each with as many blocks as its
    /// length asks for; the pieces marked active are those with requested
    /// blocks.
    pub open spec fn progress_ok(self) -> bool {
        &&& self.active.len() == self.total()
        &&& forall|i: u32| #[trigger]
            self.requested.contains_key(i) ==> i < self.total() && self.requested[i].len()
                == block_count(self.size_of(i as int))
        &&& forall|i: u32| #[trigger]
            self.received.contains_key(i) ==> i < self.total() && self.received[i].len()
                == block_count(self.size_of(i as int))
        &&& forall|i: u32|
            i < self.total() ==> (#[trigger] self.active[i as int] <==> self.requested.contains_key(
                i,
            ))
    }

    /// The state is well formed.
    pub open spec fn wf(self) -> bool {
        &&& self.is_permutation()
        &&& self.counts_in_range()
        &&& self.layout_ok()
        &&& self.peers_ok()
        &&& self.progress_ok()
    }

    /// Each piece's availability is the number of known peers whose
    /// bitfield has it.
    pub open spec fn consistent(self) -> bool {
        forall|i: int| 0 <= i < self.total() ==> #[trigger] self.counts[i] == holders(self.peers, i)
    }

    /// From position `from` on, the boundaries part `pieces` by
    /// availability: a piece stands before boundary `a` exactly if at most
    /// `a` peers have it.
    pub open spec fn partitioned_from(self, from: int) -> bool {
        forall|a: int, p: int|
            0 <= a < MAX_AVAIL && from <= p < self.total() ==> (p < #[trigger] self.boundaries[a]
                <==> self.counts[#[trigger] self.pieces[p]] <= a)
    }

    /// The boundaries part all of `pieces` by availability.
    pub open spec fn partitioned(self) -> bool {
        self.partitioned_from(0)
    }

    /// The state with the pieces at positions `p` and `q` exchanged.
    pub open spec fn swapped(self, p: int, q: int) -> PickerView {
        PickerView {
            pieces: self.pieces.update(p, self.pieces[q]).update(q, self.pieces[p]),
            positions: self.positions.update(self.pieces[p], q).update(self.pieces[q], p),
            ..self
        }
    }

    /// One more peer has piece `i`.
    ///
    /// The boundary of the piece's availability moves down by one, the piece
    /// changes places with the piece at the new boundary, and its count
    /// goes up. Where that boundary is already at 0 the piece stays where it
    /// is and only its count goes up.
    pub open spec fn increment(self, i: int) -> PickerView {
        let a = self.counts[i];
        if self.boundaries[a] == 0 {
            PickerView { counts: self.counts.update(i, a + 1), ..self }
        } else {
            let b = self.boundaries[a] - 1;
            PickerView {
                boundaries: self.boundaries.update(a, b),
                counts: self.counts.update(i, a + 1),
                ..self.swapped(self.positions[i], b)
            }
        }
    }

    /// One peer fewer has piece `i`: the inverse of `increment`.
    ///
    /// The piece changes places with the piece at the boundary below its
    /// availability, that boundary moves up by one, and the count goes
    /// down. Where that boundary is already at the end the piece stays where
    /// it is and only its count goes down; a count of 0 stays.
    pub open spec fn decrement(self, i: int) -> PickerView {
        let a = self.counts[i] - 1;
        if a < 0 {
            self
        } else if self.boundaries[a] >= self.total() {
            PickerView { counts: self.counts.update(i, a), ..self }
        } else {
            let b = self.boundaries[a];
            PickerView {
                boundaries: self.boundaries.update(a, b + 1),
                counts: self.counts.update(i, a),
                ..self.swapped(self.positions[i], b)
            }
        }
    }

    /// The state after one change of availability.
    pub open spec fn change(self, c: Change) -> PickerView {
        match c {
            Change::Raise(i) => self.increment(i),
            Change::Lower(i) => self.decrement(i),
        }
    }

    /// Whether a change is of a piece, and does not raise an availability
    /// out of the classes.
    pub open spec fn admits(self, c: Change) -> bool {
        match c {
            Change::Raise(i) => 0 <= i < self.total() && self.counts[i] < MAX_AVAIL - 1,
            Change::Lower(i) => 0 <= i < self.total(),
        }
    }

    /// The state after a sequence of changes of availability.
    pub open spec fn changes(self, cs: Seq<Change>) -> PickerView
        decreases cs.len(),
    {
        if cs.len() == 0 {
            self
        } else {
            self.changes(cs.drop_last()).change(cs.last())
        }
    }

    /// Whether each change of a sequence is admitted when its turn comes.
    pub open spec fn admits_all(self, cs: Seq<Change>) -> bool
        decreases cs.len(),
    {
        cs.len() > 0 ==> self.admits_all(cs.drop_last()) && self.changes(cs.drop_last()).admits(
            cs.last(),
        )
    }

    /// The piece at position `pos` moves to the front; the pieces before it
    /// move back by one, and so does every boundary at or before `pos`.
    pub open spec fn prioritize(self, pos: int) -> PickerView {
        let x = self.pieces[pos];
        PickerView {
            pieces: Seq::new(
                self.pieces.len(),
                |p: int|
                    if p == 0 {
                        x
                    } else if p <= pos {
                        self.pieces[p - 1]
                    } else {
                        self.pieces[p]
                    },
            ),
            positions: Seq::new(
                self.positions.len(),
                |i: int|
                    if i == x {
                        0
                    } else if self.positions[i] < pos {
                        self.positions[i] + 1
                    } else {
                        self.positions[i]
                    },
            ),
            boundaries: Seq::new(
                self.boundaries.len(),
                |a: int|
                    if self.boundaries[a] <= pos {
                        self.boundaries[a] + 1
                    } else {
                        self.boundaries[a]
                    },
            ),
            ..self
        }
    }
}

impl PickerView {
    /// `other` differs from this state at most in the order of the pieces,
    /// the boundaries and the counts.
    pub open spec fn same_book(self, other: PickerView) -> bool {
        &&& other.piece_length == self.piece_length
        &&& other.file_length == self.file_length
        &&& other.hashes == self.hashes
        &&& other.active == self.active
        &&& other.peers == self.peers
        &&& other.requested == self.requested
        &&& other.received == self.received
        &&& other.total() == self.total()
    }

    /// `increment` for each of the first `upto` pieces whose bit is set in
    /// `bits`, in index order.
    pub open spec fn increment_each(self, bits: Seq<bool>, upto: nat) -> PickerView
        decreases upto,
    {
        if upto == 0 {
            self
        } else {
            let w = self.increment_each(bits, (upto - 1) as nat);
            if bits[upto - 1] {
                w.increment(upto - 1)
            } else {
                w
            }
        }
    }

    /// `decrement` for each of the first `upto` pieces whose bit is set in
    /// `bits`, in index order.
    pub open spec fn decrement_each(self, bits: Seq<bool>, upto: nat) -> PickerView
        decreases upto,
    {
        if upto == 0 {
            self
        } else {
            let w = self.decrement_each(bits, (upto - 1) as nat);
            if bits[upto - 1] {
                w.decrement(upto - 1)
            } else {
                w
            }
        }
    }

    /// A new peer `id` with bitfield `bits` joins: each piece it has
    /// becomes more available, and its bitfield is kept.
    pub open spec fn with_peer(self, id: Seq<u8>, bits: Seq<bool>) -> PickerView {
        PickerView {
            peers: self.peers.push(PeerView { id, bits }),
            ..self.increment_each(bits, self.total() as nat)
        }
    }

    /// The peer at `j` leaves: each piece it had becomes less available,
    /// and its bitfield is dropped.
    pub open spec fn without_peer(self, j: int) -> PickerView {
        PickerView {
            peers: self.peers.remove(j),
            ..self.decrement_each(self.peers[j].bits, self.total() as nat)
        }
    }

    /// Peer `id` announces the bitfield `raw`.
    ///
    /// The bitfield is cut or zero-filled to one bit per piece. A peer that
    /// is already known leaves first, so that its old bitfield no longer
    /// counts. A new peer beyond `MAX_PEERS` is not taken in.
    pub open spec fn register(self, id: Seq<u8>, raw: Seq<bool>) -> PickerView {
        let bits = resized(raw, self.total() as nat, false);
        if knows(self.peers, id) {
            self.without_peer(peer_index(self.peers, id)).with_peer(id, bits)
        } else if self.peers.len() >= MAX_PEERS {
            self
        } else {
            self.with_peer(id, bits)
        }
    }

    /// Peer `id` is gone.
    pub open spec fn remove_peer(self, id: Seq<u8>) -> PickerView {
        if knows(self.peers, id) {
            self.without_peer(peer_index(self.peers, id))
        } else {
            self
        }
    }

    /// Peer `id` announces that it has piece `i`.
    ///
    /// Nothing changes where `i` is no piece or the peer's bit is already
    /// set. A peer that is not known yet joins with that one bit set, unless
    /// it would be beyond `MAX_PEERS`.
    pub open spec fn have(self, id: Seq<u8>, i: int) -> PickerView {
        if !(0 <= i < self.total()) {
            self
        } else if knows(self.peers, id) {
            let j = peer_index(self.peers, id);
            if self.peers[j].bits[i] {
                self
            } else {
                PickerView {
                    peers: self.peers.update(
                        j,
                        PeerView { id: self.peers[j].id, bits: self.peers[j].bits.update(i, true) },
                    ),
                    ..self.increment(i)
                }
            }
        } else if self.peers.len() >= MAX_PEERS {
            self
        } else {
            self.with_peer(id, single_bit(self.total() as nat, i))
        }
    }
}

impl PickerView {
    /// The block states of `piece`: those on record, or all open where no
    /// block of it was requested yet.
    pub open spec fn states_of(self, piece: int) -> Seq<BlockState> {
        if self.requested.contains_key(piece as u32) {
            self.requested[piece as u32]
        } else {
            all_open(block_count(self.size_of(piece)))
        }
    }

    /// Whether the piece at position `p` can be asked of a peer with
    /// bitfield `bits`: the peer has it and one of its blocks is open.
    pub open spec fn eligible(self, bits: Seq<bool>, p: int) -> bool {
        bits[self.pieces[p]] && !none_open(self.states_of(self.pieces[p]))
    }

    /// `p` is the first position whose piece can be asked of the peer.
    pub open spec fn is_first_eligible(self, bits: Seq<bool>, p: int) -> bool {
        &&& 0 <= p < self.total()
        &&& self.eligible(bits, p)
        &&& forall|q: int| 0 <= q < p ==> !self.eligible(bits, q)
    }

    /// No piece can be asked of the peer.
    pub open spec fn none_eligible(self, bits: Seq<bool>) -> bool {
        forall|p: int| 0 <= p < self.total() ==> !self.eligible(bits, p)
    }

    /// The first position whose piece can be asked of the peer, where there
    /// is one.
    pub open spec fn first_eligible(self, bits: Seq<bool>) -> int {
        choose|p: int| self.is_first_eligible(bits, p)
    }

    /// The block that is asked for when the piece at position `p` is
    /// picked: its first open block.
    pub open spec fn offered(self, p: int) -> Block {
        let x = self.pieces[p];
        let k = first_open(self.states_of(x));
        Block {
            piece_index: x as u32,
            begin: (k * 16384) as u32,
            length: block_length(self.size_of(x), k as nat) as u32,
            state: BlockState::Open,
        }
    }

    /// The first open block of the piece at position `p` becomes
    /// requested, and the piece active.
    pub open spec fn request_at(self, p: int) -> PickerView {
        let x = self.pieces[p];
        let states = self.states_of(x);
        PickerView {
            requested: self.requested.insert(
                x as u32,
                states.update(first_open(states), BlockState::Requested),
            ),
            active: self.active.update(x, true),
            ..self
        }
    }

    /// The piece at position `p` is picked: its first open block becomes
    /// requested, and the piece moves to the front.
    pub open spec fn pick_at(self, p: int) -> PickerView {
        self.request_at(p).prioritize(p)
    }

    /// Peer `id` asks for a block.
    ///
    /// The pieces are tried in order. The first that the peer has and that
    /// has an open block is picked, and that block is the answer. A peer
    /// without a bitfield gets none, and so does one for which no piece is
    /// left.
    pub open spec fn pick(self, id: Seq<u8>) -> (PickerView, Option<Block>) {
        if !knows(self.peers, id) {
            (self, None)
        } else {
            let bits = self.peers[peer_index(self.peers, id)].bits;
            if self.none_eligible(bits) {
                (self, None)
            } else {
                let p = self.first_eligible(bits);
                (self.pick_at(p), Some(self.offered(p)))
            }
        }
    }

    /// Peer `id` asks `n` times for a block.
    pub open spec fn pick_many(self, id: Seq<u8>, n: nat) -> (PickerView, Seq<Option<Block>>)
        decreases n,
    {
        if n == 0 {
            (self, Seq::empty())
        } else {
            let (v, blocks) = self.pick_many(id, (n - 1) as nat);
            let (w, block) = v.pick(id);
            (w, blocks.push(block))
        }
    }

    /// The block buffers of `piece`: those on record, or all empty where
    /// none of its blocks has come yet.
    pub open spec fn slots_of(self, piece: u32) -> Seq<Seq<u8>> {
        if self.received.contains_key(piece) {
            self.received[piece]
        } else {
            empty_slots(block_count(self.size_of(piece as int)))
        }
    }

    /// The block buffers of `piece` once `data` has come for the block at
    /// `begin`: the bytes go into slot `begin / 16384`, or nowhere if the
    /// piece has no such slot.
    pub open spec fn filled(self, piece: u32, begin: u32, data: Seq<u8>) -> Seq<Seq<u8>> {
        let slots = self.slots_of(piece);
        if begin / 16384 < slots.len() {
            slots.update(begin as int / 16384, data)
        } else {
            slots
        }
    }

    /// Whether the block completes its piece and the piece's bytes have the
    /// expected digest.
    pub open spec fn completes(self, piece: u32, begin: u32, data: Seq<u8>) -> bool {
        &&& piece < self.total()
        &&& all_filled(self.filled(piece, begin, data))
        &&& digest_matches(self.filled(piece, begin, data).flatten(), self.hashes[piece as int])
    }

    /// A block has come.
    ///
    /// A block of no piece is dropped. Otherwise its bytes are put into
    /// their slot. While a slot is empty the buffers are kept. Once all are
    /// filled the piece leaves the record: whole, if its digest is the
    /// expected one; else its bytes are dropped and all its blocks are open
    /// again.
    pub open spec fn deposit(self, piece: u32, begin: u32, data: Seq<u8>) -> PickerView {
        let slots = self.filled(piece, begin, data);
        if piece >= self.total() {
            self
        } else if !all_filled(slots) {
            PickerView { received: self.received.insert(piece, slots), ..self }
        } else if digest_matches(slots.flatten(), self.hashes[piece as int]) {
            PickerView { received: self.received.remove(piece), ..self }
        } else {
            PickerView {
                received: self.received.remove(piece),
                requested: if self.requested.contains_key(piece) {
                    self.requested.insert(piece, all_open(self.requested[piece].len()))
                } else {
                    self.requested
                },
                ..self
            }
        }
    }
}

} // verus!
