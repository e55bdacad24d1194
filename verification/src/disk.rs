//! The disk writer's bookkeeping: where each verified piece goes in the
//! file, and how many have been written.
use crate::piece::DownloadedPiece;
use vstd::prelude::*;

verus! {

/// The disk writer's count of pieces, for a file of `total_pieces` pieces of
/// `piece_length` bytes.
#[derive(Debug)]
pub struct DiskManager {
    pub piece_length: u64,
    pub total_pieces: u32,
    pub completed_pieces: u32,
}

/// One positioned write: `data` at byte `offset` of the file.
#[derive(Debug)]
pub struct DiskWrite {
    pub offset: u64,
    pub data: Vec<u8>,
}

/// Whether a piece `index` with `len` bytes has a place in a file of
/// `total_pieces` pieces of `piece_length` bytes: the piece is one of them,
/// is not longer than a piece, and ends within what a file offset can name.
pub open spec fn has_place(piece_length: u64, total_pieces: u32, index: u32, len: nat) -> bool {
    &&& index < total_pieces
    &&& len <= piece_length
    &&& index * piece_length + len <= u64::MAX
}

/// Two pieces that have a place do not overlap in the file.
pub proof fn lemma_writes_apart(
    piece_length: u64,
    total_pieces: u32,
    i: u32,
    len_i: nat,
    j: u32,
    len_j: nat,
)
    requires
        has_place(piece_length, total_pieces, i, len_i),
        has_place(piece_length, total_pieces, j, len_j),
        i != j,
    ensures
        i * piece_length + len_i <= j * piece_length || j * piece_length + len_j <= i
            * piece_length,
{
    let p = piece_length as int;
    if i < j {
        assert((i + 1) * p <= j * p) by (nonlinear_arith)
            requires
                i + 1 <= j,
                p >= 0,
        ;
        assert((i + 1) * p == i * p + p) by (nonlinear_arith);
    } else {
        assert((j + 1) * p <= i * p) by (nonlinear_arith)
            requires
                j + 1 <= i,
                p >= 0,
        ;
        assert((j + 1) * p == j * p + p) by (nonlinear_arith);
    }
}

impl DiskManager {
    /// A writer for a file of `total_pieces` pieces of `piece_length` bytes,
    /// none written yet.
    pub fn new(piece_length: u64, total_pieces: u32) -> (d: DiskManager)
        ensures
            d.piece_length == piece_length,
            d.total_pieces == total_pieces,
            d.completed_pieces == 0,
    {
        DiskManager { piece_length, total_pieces, completed_pieces: 0 }
    }

    /// The write that commits `piece`: all its bytes, in block order, at
    /// byte `index * piece_length`. `None` for a piece that has no place in
    /// the file.
    pub fn write_for(&self, piece: &DownloadedPiece) -> (r: Option<DiskWrite>)
        ensures
            r is Some <==> has_place(
                self.piece_length,
                self.total_pieces,
                piece.index,
                piece.joined().len(),
            ),
            r is Some ==> r->0.offset == piece.index * self.piece_length && r->0.data@
                == piece.joined(),
    {
        if piece.index >= self.total_pieces {
            return None;
        }
        let data: Vec<u8> = piece.data();
        if data.len() as u64 > self.piece_length {
            return None;
        }
        let offset: u64 = match (piece.index as u64).checked_mul(self.piece_length) {
            Some(offset) => offset,
            None => {
                return None;
            },
        };
        if offset > u64::MAX - data.len() as u64 {
            return None;
        }
        Some(DiskWrite { offset, data })
    }

    /// Counts one more piece as written.
    pub fn piece_written(&mut self)
        ensures
            final(self).piece_length == old(self).piece_length,
            final(self).total_pieces == old(self).total_pieces,
            final(self).completed_pieces == if old(self).completed_pieces < u32::MAX {
                old(self).completed_pieces + 1
            } else {
                u32::MAX as int
            },
    {
        if self.completed_pieces < u32::MAX {
            self.completed_pieces += 1;
        }
    }

    /// Whether as many pieces were written as the file has.
    pub fn is_complete(&self) -> (r: bool)
        ensures
            r == (self.completed_pieces >= self.total_pieces),
    {
        self.completed_pieces >= self.total_pieces
    }
}

} // verus!
