//! Pieces and their blocks: what has been asked of peers, and what has come
//! back.
use vstd::prelude::*;

verus! {

/// Length in bytes of every block but possibly the last of a piece.
pub const BLOCK_LENGTH: u32 = 16384;

/// Number of blocks in a piece of `piece_length` bytes.
pub open spec fn block_count(piece_length: nat) -> nat {
    (piece_length + 16383) / 16384
}

/// Length of block `k` of a piece of `piece_length` bytes: 16384, but for
/// the last block, which holds what is left.
pub open spec fn block_length(piece_length: nat, k: nat) -> nat {
    if (k + 1) * 16384 <= piece_length {
        16384
    } else {
        (piece_length - k * 16384) as nat
    }
}

/// Length of piece `i` of `total_pieces`, where the file has `file_length`
/// bytes and every piece but the last has `piece_length`.
pub open spec fn piece_size(total_pieces: nat, piece_length: nat, file_length: nat, i: nat) -> nat {
    if i + 1 == total_pieces {
        (file_length - (total_pieces - 1) * piece_length) as nat
    } else {
        piece_length
    }
}

/// The last block of a piece holds the remainder of the piece's length by
/// 16384 where that is not zero, and 16384 bytes where it is.
pub proof fn lemma_final_block_length(piece_length: nat)
    requires
        piece_length > 0,
    ensures
        block_count(piece_length) >= 1,
        block_length(piece_length, (block_count(piece_length) - 1) as nat) == if piece_length
            % 16384 != 0 {
            piece_length % 16384
        } else {
            16384
        },
{
}

/// The blocks of a piece cover it: every block but the last has 16384
/// bytes, no block is empty, and block `k` starts at `16384 * k`, inside the
/// piece.
pub proof fn lemma_block_bounds(piece_length: nat, k: nat)
    requires
        k < block_count(piece_length),
    ensures
        k * 16384 < piece_length,
        0 < block_length(piece_length, k) <= 16384,
        k * 16384 + block_length(piece_length, k) <= piece_length,
        k + 1 < block_count(piece_length) ==> block_length(piece_length, k) == 16384,
        k + 1 == block_count(piece_length) ==> k * 16384 + block_length(piece_length, k)
            == piece_length,
{
}

/// How far a block has come.
#[derive(Debug, Clone, Copy, PartialEq, Eq, Structural)]
pub enum BlockState {
    Open,
    Requested,
    Writing,
    Finished,
}

/// `k` is the first open block of `states`.
pub open spec fn is_first_open(states: Seq<BlockState>, k: int) -> bool {
    &&& 0 <= k < states.len()
    &&& states[k] == BlockState::Open
    &&& forall|j: int| 0 <= j < k ==> states[j] != BlockState::Open
}

/// No block of `states` is open.
pub open spec fn none_open(states: Seq<BlockState>) -> bool {
    forall|j: int| 0 <= j < states.len() ==> states[j] != BlockState::Open
}

/// Position of the first open block of `states`, where there is one.
pub open spec fn first_open(states: Seq<BlockState>) -> int {
    choose|k: int| is_first_open(states, k)
}

/// `n` open blocks.
pub open spec fn all_open(n: nat) -> Seq<BlockState> {
    Seq::new(n, |k: int| BlockState::Open)
}

/// There is at most one first open block.
pub proof fn lemma_first_open(states: Seq<BlockState>, k: int)
    requires
        is_first_open(states, k),
    ensures
        first_open(states) == k,
{
    let c = first_open(states);
    assert(is_first_open(states, c));
    if c < k {
        assert(states[c] != BlockState::Open);
    } else if k < c {
        assert(states[k] != BlockState::Open);
    }
}

/// Where a block is open, one block is the first open one.
pub proof fn lemma_some_open(states: Seq<BlockState>)
    requires
        !none_open(states),
    ensures
        is_first_open(states, first_open(states)),
    decreases states.len(),
{
    let j = choose|j: int| 0 <= j < states.len() && states[j] == BlockState::Open;
    lemma_first_open_upto(states, j);
}

/// Where block `j` is open, one block up to `j` is the first open one.
proof fn lemma_first_open_upto(states: Seq<BlockState>, j: int)
    requires
        0 <= j < states.len(),
        states[j] == BlockState::Open,
    ensures
        is_first_open(states, first_open(states)),
    decreases j,
{
    if forall|i: int| 0 <= i < j ==> states[i] != BlockState::Open {
        assert(is_first_open(states, j));
    } else {
        let i = choose|i: int| 0 <= i < j && states[i] == BlockState::Open;
        lemma_first_open_upto(states, i);
    }
}

/// A block of a piece: the unit that is requested of a peer.
#[derive(Debug)]
pub struct Block {
    /// the piece which the block belongs to
    pub piece_index: u32,
    /// zero-based byte offset within the piece
    pub begin: u32,
    pub length: u32,
    pub state: BlockState,
}

impl Block {
    /// An open block; without a length it has the full 16384 bytes.
    pub fn new(piece_index: u32, begin: u32, block_length: Option<u32>) -> (b: Block)
        ensures
            b.piece_index == piece_index,
            b.begin == begin,
            b.length == (match block_length {
                Some(n) => n,
                None => 16384u32,
            }),
            b.state == BlockState::Open,
    {
        let length: u32 = match block_length {
            Some(n) => n,
            None => BLOCK_LENGTH,
        };
        Block { piece_index, begin, length, state: BlockState::Open }
    }
}

/// A piece of which at least one block has been requested.
#[derive(Debug)]
pub struct DownloadingPiece {
    pub index: u32,
    pub blocks: Vec<Block>,
}

impl DownloadingPiece {
    /// The states of the blocks, in order.
    pub open spec fn states(&self) -> Seq<BlockState> {
        Seq::new(self.blocks@.len(), |k: int| self.blocks@[k].state)
    }

    /// The blocks are those of piece `index` of length `piece_length`: block
    /// `k` starts at `16384 * k` and has its due length.
    pub open spec fn wf(&self, index: u32, piece_length: nat) -> bool {
        &&& self.index == index
        &&& self.blocks@.len() == block_count(piece_length)
        &&& forall|k: int|
            0 <= k < self.blocks@.len() ==> {
                &&& (#[trigger] self.blocks@[k]).piece_index == index
                &&& self.blocks@[k].begin == k * 16384
                &&& self.blocks@[k].length == block_length(piece_length, k as nat)
            }
    }

    /// The blocks of piece `index`, all open.
    pub fn new(index: u32, piece_length: u32) -> (p: DownloadingPiece)
        ensures
            p.wf(index, piece_length as nat),
            p.states() == all_open(block_count(piece_length as nat)),
    {
        let mut no_of_blocks: u32 = piece_length / BLOCK_LENGTH;
        let final_block_len: u32 = piece_length % BLOCK_LENGTH;
        if final_block_len != 0 {
            no_of_blocks += 1;
        }
        let mut blocks: Vec<Block> = Vec::new();
        let mut i: u32 = 0;
        while i < no_of_blocks
            invariant
                i <= no_of_blocks,
                no_of_blocks == block_count(piece_length as nat),
                final_block_len == piece_length % 16384,
                blocks@.len() == i,
                forall|k: int|
                    0 <= k < i ==> {
                        &&& (#[trigger] blocks@[k]).piece_index == index
                        &&& blocks@[k].begin == k * 16384
                        &&& blocks@[k].length == block_length(piece_length as nat, k as nat)
                        &&& blocks@[k].state == BlockState::Open
                    },
            decreases no_of_blocks - i,
        {
            let block = if final_block_len != 0 && i == no_of_blocks - 1 {
                Block::new(index, i * BLOCK_LENGTH, Some(final_block_len))
            } else {
                Block::new(index, i * BLOCK_LENGTH, None)
            };
            blocks.push(block);
            i += 1;
        }
        let p = DownloadingPiece { index, blocks };
        assert(p.states() =~= all_open(block_count(piece_length as nat)));
        p
    }

    /// Whether a block is open.
    pub fn has_open(&self) -> (r: bool)
        ensures
            r == !none_open(self.states()),
    {
        let mut i: usize = 0;
        while i < self.blocks.len()
            invariant
                i <= self.blocks@.len(),
                forall|j: int| 0 <= j < i ==> self.states()[j] != BlockState::Open,
            decreases self.blocks@.len() - i,
        {
            if self.blocks[i].state == BlockState::Open {
                assert(self.states()[i as int] == BlockState::Open);
                return true;
            }
            i += 1;
        }
        false
    }

    /// Marks the first open block requested and returns a description of it;
    /// `None`, and nothing changes, when no block is open.
    pub fn request_first_open(&mut self) -> (r: Option<Block>)
        ensures
            final(self).index == old(self).index,
            final(self).blocks@.len() == old(self).blocks@.len(),
            r is None <==> none_open(old(self).states()),
            r is None ==> *final(self) == *old(self),
            r is Some ==> {
                let k = first_open(old(self).states());
                &&& is_first_open(old(self).states(), k)
                &&& final(self).states() == old(self).states().update(k, BlockState::Requested)
                &&& r->0 == (Block {
                    piece_index: old(self).blocks@[k].piece_index,
                    begin: old(self).blocks@[k].begin,
                    length: old(self).blocks@[k].length,
                    state: BlockState::Open,
                })
            },
            forall|k: int|
                0 <= k < old(self).blocks@.len() ==> {
                    &&& (#[trigger] final(self).blocks@[k]).piece_index == old(
                        self,
                    ).blocks@[k].piece_index
                    &&& final(self).blocks@[k].begin == old(self).blocks@[k].begin
                    &&& final(self).blocks@[k].length == old(self).blocks@[k].length
                },
    {
        let mut i: usize = 0;
        while i < self.blocks.len()
            invariant
                i <= self.blocks@.len(),
                *self == *old(self),
                forall|j: int| 0 <= j < i ==> self.states()[j] != BlockState::Open,
            decreases self.blocks@.len() - i,
        {
            if self.blocks[i].state == BlockState::Open {
                let found = Block::new(
                    self.blocks[i].piece_index,
                    self.blocks[i].begin,
                    Some(self.blocks[i].length),
                );
                self.blocks[i].state = BlockState::Requested;
                proof {
                    assert(is_first_open(old(self).states(), i as int));
                    lemma_first_open(old(self).states(), i as int);
                    assert(self.states() =~= old(self).states().update(
                        i as int,
                        BlockState::Requested,
                    ));
                }
                return Some(found);
            }
            i += 1;
        }
        None
    }

    /// Opens every block again.
    pub fn reopen(&mut self)
        ensures
            final(self).index == old(self).index,
            final(self).blocks@.len() == old(self).blocks@.len(),
            final(self).states() == all_open(old(self).blocks@.len()),
            forall|k: int|
                0 <= k < old(self).blocks@.len() ==> {
                    &&& (#[trigger] final(self).blocks@[k]).piece_index == old(
                        self,
                    ).blocks@[k].piece_index
                    &&& final(self).blocks@[k].begin == old(self).blocks@[k].begin
                    &&& final(self).blocks@[k].length == old(self).blocks@[k].length
                },
    {
        let mut i: usize = 0;
        while i < self.blocks.len()
            invariant
                i <= self.blocks@.len(),
                self.index == old(self).index,
                self.blocks@.len() == old(self).blocks@.len(),
                forall|k: int|
                    0 <= k < self.blocks@.len() ==> {
                        &&& (#[trigger] self.blocks@[k]).piece_index == old(
                            self,
                        ).blocks@[k].piece_index
                        &&& self.blocks@[k].begin == old(self).blocks@[k].begin
                        &&& self.blocks@[k].length == old(self).blocks@[k].length
                    },
                forall|k: int| 0 <= k < i ==> (#[trigger] self.blocks@[k]).state == BlockState::Open,
            decreases self.blocks@.len() - i,
        {
            self.blocks[i].state = BlockState::Open;
            i += 1;
        }
        assert(self.states() =~= all_open(old(self).blocks@.len()));
    }
}

/// A block as a peer delivered it.
#[derive(Debug)]
pub struct DownloadedBlock {
    /// the piece which the block belongs to
    pub piece_index: u32,
    /// zero-based byte offset within the piece
    pub begin: u32,
    pub data: Vec<u8>,
}

impl DownloadedBlock {
    /// The block of `piece_index` that starts at `begin` and holds `data`.
    pub fn new(piece_index: u32, begin: u32, data: Vec<u8>) -> (b: DownloadedBlock)
        ensures
            b.piece_index == piece_index,
            b.begin == begin,
            b.data == data,
    {
        DownloadedBlock { piece_index, begin, data }
    }
}

/// Whether every buffer holds at least one byte.
pub open spec fn all_filled(buffers: Seq<Seq<u8>>) -> bool {
    forall|k: int| 0 <= k < buffers.len() ==> (#[trigger] buffers[k]).len() > 0
}

/// `n` buffers with nothing in them.
pub open spec fn empty_slots(n: nat) -> Seq<Seq<u8>> {
    Seq::new(n, |k: int| Seq::<u8>::empty())
}

/// A piece that is gathering the blocks peers deliver.
#[derive(Debug)]
pub struct DownloadedPiece {
    pub index: u32,
    pub blocks: Vec<DownloadedBlock>,
    pub all_blocks_downloaded: bool,
}

impl DownloadedPiece {
    /// The block buffers, in order of `begin`.
    pub open spec fn buffers(&self) -> Seq<Seq<u8>> {
        Seq::new(self.blocks@.len(), |k: int| self.blocks@[k].data@)
    }

    /// The piece's bytes: its block buffers one after the other.
    pub open spec fn joined(&self) -> Seq<u8> {
        self.buffers().flatten()
    }

    /// There is one slot for each block of a piece of `piece_length` bytes,
    /// slot `k` stands for the block at `16384 * k`, and the flag says
    /// whether every slot is filled.
    pub open spec fn wf(&self, index: u32, piece_length: nat) -> bool {
        &&& self.index == index
        &&& self.blocks@.len() == block_count(piece_length)
        &&& self.all_blocks_downloaded == all_filled(self.buffers())
        &&& forall|k: int|
            0 <= k < self.blocks@.len() ==> {
                &&& (#[trigger] self.blocks@[k]).piece_index == index
                &&& self.blocks@[k].begin == k * 16384
            }
    }

    /// An empty slot for each block of piece `index`.
    pub fn new(index: u32, piece_length: u32) -> (p: DownloadedPiece)
        ensures
            p.wf(index, piece_length as nat),
            p.buffers() == empty_slots(block_count(piece_length as nat)),
    {
        let mut no_of_blocks: u32 = piece_length / BLOCK_LENGTH;
        let final_block_len: u32 = piece_length % BLOCK_LENGTH;
        if final_block_len != 0 {
            no_of_blocks += 1;
        }
        let mut blocks: Vec<DownloadedBlock> = Vec::new();
        let mut i: u32 = 0;
        while i < no_of_blocks
            invariant
                i <= no_of_blocks,
                no_of_blocks == block_count(piece_length as nat),
                blocks@.len() == i,
                forall|k: int|
                    0 <= k < i ==> {
                        &&& (#[trigger] blocks@[k]).piece_index == index
                        &&& blocks@[k].begin == k * 16384
                        &&& blocks@[k].data@ == Seq::<u8>::empty()
                    },
            decreases no_of_blocks - i,
        {
            blocks.push(DownloadedBlock::new(index, i * BLOCK_LENGTH, Vec::new()));
            i += 1;
        }
        let p = DownloadedPiece { index, blocks, all_blocks_downloaded: no_of_blocks == 0 };
        assert(p.buffers() =~= empty_slots(block_count(piece_length as nat)));
        assert(no_of_blocks > 0 ==> p.buffers()[0].len() == 0);
        p
    }

    /// Puts the block's bytes into slot `begin / 16384`, over what was
    /// there; a block that belongs to no slot is dropped. The flag is set
    /// anew.
    pub fn add_downloaded_block(&mut self, block: DownloadedBlock)
        ensures
            final(self).index == old(self).index,
            final(self).blocks@.len() == old(self).blocks@.len(),
            final(self).buffers() == if block.begin / 16384 < old(self).blocks@.len() {
                old(self).buffers().update(block.begin as int / 16384, block.data@)
            } else {
                old(self).buffers()
            },
            final(self).all_blocks_downloaded == all_filled(final(self).buffers()),
            forall|k: int|
                0 <= k < old(self).blocks@.len() ==> {
                    &&& (#[trigger] final(self).blocks@[k]).piece_index == old(
                        self,
                    ).blocks@[k].piece_index
                    &&& final(self).blocks@[k].begin == old(self).blocks@[k].begin
                },
    {
        let block_index: usize = (block.begin / BLOCK_LENGTH) as usize;
        if block_index < self.blocks.len() {
            self.blocks[block_index].data = block.data;
            assert(self.buffers() =~= old(self).buffers().update(
                block.begin as int / 16384,
                block.data@,
            ));
        } else {
            assert(self.buffers() =~= old(self).buffers());
        }
        let mut all: bool = true;
        let mut i: usize = 0;
        while i < self.blocks.len()
            invariant
                i <= self.blocks@.len(),
                all == (forall|k: int| 0 <= k < i ==> (#[trigger] self.buffers()[k]).len() > 0),
            decreases self.blocks@.len() - i,
        {
            if self.blocks[i].data.len() == 0 {
                all = false;
                assert(self.buffers()[i as int].len() == 0);
            }
            i += 1;
        }
        self.all_blocks_downloaded = all;
        assert(self.buffers() =~= if block.begin / 16384 < old(self).blocks@.len() {
            old(self).buffers().update(block.begin as int / 16384, block.data@)
        } else {
            old(self).buffers()
        });
    }

    /// Whether every slot is filled.
    pub fn is_complete(&self) -> (r: bool)
        ensures
            r == self.all_blocks_downloaded,
    {
        self.all_blocks_downloaded
    }

    /// The piece's bytes: the block buffers, one after the other.
    pub fn data(&self) -> (bytes: Vec<u8>)
        ensures
            bytes@ == self.joined(),
    {
        let mut bytes: Vec<u8> = Vec::new();
        let mut i: usize = 0;
        assert(self.buffers().take(0) =~= Seq::<Seq<u8>>::empty());
        while i < self.blocks.len()
            invariant
                i <= self.blocks@.len(),
                bytes@ == self.buffers().take(i as int).flatten(),
            decreases self.blocks@.len() - i,
        {
            bytes.extend_from_slice(self.blocks[i].data.as_slice());
            proof {
                let before = self.buffers().take(i as int);
                before.lemma_flatten_push(self.buffers()[i as int]);
                assert(before.push(self.buffers()[i as int]) =~= self.buffers().take(i + 1));
            }
            i += 1;
        }
        assert(self.buffers().take(i as int) =~= self.buffers());
        bytes
    }
}

} // verus!
