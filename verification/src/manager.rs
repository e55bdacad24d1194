//! The commands that peer sessions send to the piece picker, and what the
//! picker does on each.
use crate::bits::Bitfield;
use crate::digest::digest_matches;
use crate::disk::DiskManager;
use crate::error::Error;
use crate::model::PickerView;
use crate::peer::{ChokeState, InterestState, Peer};
use crate::picker::{digest_strings, valid_layout, PiecePicker};
use crate::piece::{Block, DownloadedBlock, DownloadedPiece};
use crate::torrent::{Info, Torrent, TrackerQuery};
use crate::tracker::TrackerResponse;
use crate::utils::copy_bytes;
use vstd::prelude::*;

verus! {

/// The client for one torrent: where its metainfo came from, the id it goes
/// by, and the torrent's description.
#[derive(Debug)]
pub struct Manager {
    pub path: String,
    pub client_peer_id: Vec<u8>,
    pub torrent: Torrent,
}

/// The piece digests in `pieces`: each run of twenty bytes, in order. Bytes
/// left over at the end belong to no digest.
pub open spec fn digests(pieces: Seq<u8>) -> Seq<Seq<u8>> {
    Seq::new((pieces.len() / 20) as nat, |i: int| pieces.subrange(20 * i, 20 * i + 20))
}

/// Whether `info` describes a file that the picker can fetch: it gives the
/// file's length, the lengths fit in 32 bits, and they describe as many
/// pieces as there are digests.
pub open spec fn describes_pieces(info: Info) -> bool {
    &&& info.length is Some
    &&& info.length->0 <= u32::MAX
    &&& info.piece_length <= u32::MAX
    &&& info.pieces@.len() / 20 <= u32::MAX
    &&& valid_layout(
        (info.pieces@.len() / 20) as u32,
        (info.pieces@.len() / 20) as nat,
        info.piece_length as u32,
        info.length->0 as u32,
    )
}

impl Manager {
    /// The client for `torrent`, which was read from `file_path`.
    pub fn new(file_path: String, client_peer_id: Vec<u8>, torrent: Torrent) -> (m: Manager)
        ensures
            m.path == file_path,
            m.client_peer_id == client_peer_id,
            m.torrent == torrent,
    {
        Manager { path: file_path, client_peer_id, torrent }
    }

    /// What to ask the tracker for the list of peers.
    pub fn send_tracker_request(&self) -> (r: Result<TrackerQuery, Error>)
        ensures
            match r {
                Ok(q) => {
                    &&& self.torrent.info.length is Some
                    &&& self.torrent.announce is Some
                    &&& q.url@ == crate::torrent::announce_url(
                        self.torrent.announce->0@,
                        self.torrent.info_hash@,
                        self.client_peer_id@,
                    )
                    &&& q.port == crate::torrent::PORT
                    &&& q.uploaded == 0
                    &&& q.downloaded == 0
                    &&& q.left == self.torrent.info.length->0
                },
                Err(e) => e == if self.torrent.info.length is None {
                    Error::MissingLength
                } else {
                    Error::MissingAnnounce
                } && (self.torrent.info.length is None || self.torrent.announce is None),
            },
    {
        self.torrent.generate_tracker_url(&self.client_peer_id)
    }

    /// The picker for the torrent's pieces.
    ///
    /// Fails where the metainfo gave no file length, and where its lengths
    /// do not describe as many pieces as it has digests, or do not fit in 32
    /// bits.
    pub fn spawn_piece_picker(&self) -> (r: Result<PiecePicker, Error>)
        ensures
            r is Ok <==> describes_pieces(self.torrent.info),
            r is Ok ==> {
                &&& r->Ok_0.wf()
                &&& r->Ok_0@.consistent()
                &&& r->Ok_0@.partitioned()
                &&& r->Ok_0@ == PickerView::initial(
                    digests(self.torrent.info.pieces@),
                    self.torrent.info.piece_length as nat,
                    self.torrent.info.length->0 as nat,
                )
            },
            r is Err ==> r->Err_0 == if self.torrent.info.length is None {
                Error::MissingLength
            } else {
                Error::InvalidLayout
            },
    {
        let info = &self.torrent.info;
        let file_length: u64 = match info.length {
            Some(length) => length,
            None => {
                return Err(Error::MissingLength);
            },
        };
        let count: usize = info.pieces.len() / 20;
        if file_length > u32::MAX as u64 || info.piece_length > u32::MAX as u64 || count
            > u32::MAX as usize || count > usize::MAX / 8 {
            return Err(Error::InvalidLayout);
        }
        let piece_length: u64 = info.piece_length;
        if count > 0 {
            let n: u64 = count as u64;
            assert((n - 1) * piece_length <= 0xffff_ffff * 0xffff_ffff) by (nonlinear_arith)
                requires
                    0 < n <= 0xffff_ffff,
                    piece_length <= 0xffff_ffff,
            ;
            assert(n * piece_length <= 0xffff_ffff * 0xffff_ffff) by (nonlinear_arith)
                requires
                    0 < n <= 0xffff_ffff,
                    piece_length <= 0xffff_ffff,
            ;
            if !((n - 1) * piece_length < file_length && file_length <= n * piece_length) {
                return Err(Error::InvalidLayout);
            }
        }
        let mut piece_hashes: Vec<[u8; 20]> = Vec::new();
        let total: usize = info.pieces.len();
        let mut i: usize = 0;
        while i < count
            invariant
                i <= count,
                total == info.pieces@.len(),
                count == info.pieces@.len() / 20,
                piece_hashes@.len() == i,
                forall|k: int|
                    0 <= k < i ==> (#[trigger] piece_hashes@[k])@ == info.pieces@.subrange(
                        20 * k,
                        20 * k + 20,
                    ),
            decreases count - i,
        {
            let mut digest: [u8; 20] = [0u8; 20];
            let mut k: usize = 0;
            while k < 20
                invariant
                    k <= 20,
                    i < count,
                    total == info.pieces@.len(),
                    count == info.pieces@.len() / 20,
                    forall|j: int| 0 <= j < k ==> digest@[j] == info.pieces@[20 * i + j],
                decreases 20 - k,
            {
                digest[k] = info.pieces[20 * i + k];
                k += 1;
            }
            assert(digest@ =~= info.pieces@.subrange(20 * i, 20 * i + 20));
            piece_hashes.push(digest);
            i += 1;
        }
        assert(digest_strings(piece_hashes@) =~= digests(info.pieces@));
        Ok(PiecePicker::new(count as u32, piece_hashes, piece_length as u32, file_length as u32))
    }

    /// The disk writer's bookkeeping for the torrent's file.
    pub fn spawn_disk_manager(&self) -> (r: Result<DiskManager, Error>)
        ensures
            r is Ok <==> self.torrent.info.pieces@.len() / 20 <= u32::MAX,
            r is Ok ==> {
                &&& r->Ok_0.piece_length == self.torrent.info.piece_length
                &&& r->Ok_0.total_pieces == self.torrent.info.pieces@.len() / 20
                &&& r->Ok_0.completed_pieces == 0
            },
            r is Err ==> r->Err_0 == Error::InvalidLayout,
    {
        let count: usize = self.torrent.info.pieces.len() / 20;
        if count > u32::MAX as usize {
            return Err(Error::InvalidLayout);
        }
        Ok(DiskManager::new(self.torrent.info.piece_length, count as u32))
    }

    /// A session, not yet begun, for each peer that the tracker listed.
    pub fn connect_to_peers(&self, res: TrackerResponse) -> (peers: Vec<Peer>)
        ensures
            peers@.len() == res.peers@.len(),
            forall|j: int|
                0 <= j < peers@.len() ==> {
                    &&& (#[trigger] peers@[j]).ip@ == res.peers@[j].ip@
                    &&& peers@[j].port == res.peers@[j].port
                    &&& peers@[j].peer_id@ == res.peers@[j].peer_id@
                    &&& peers@[j].client_state == ChokeState::Unchoked
                    &&& peers@[j].client_interest == InterestState::Interested
                    &&& peers@[j].peer_state == ChokeState::Choked
                    &&& peers@[j].peer_interest == InterestState::NotInterested
                },
    {
        let mut peers: Vec<Peer> = Vec::new();
        let mut i: usize = 0;
        while i < res.peers.len()
            invariant
                i <= res.peers@.len(),
                peers@.len() == i,
                forall|j: int|
                    0 <= j < i ==> {
                        &&& (#[trigger] peers@[j]).ip@ == res.peers@[j].ip@
                        &&& peers@[j].port == res.peers@[j].port
                        &&& peers@[j].peer_id@ == res.peers@[j].peer_id@
                        &&& peers@[j].client_state == ChokeState::Unchoked
                        &&& peers@[j].client_interest == InterestState::Interested
                        &&& peers@[j].peer_state == ChokeState::Choked
                        &&& peers@[j].peer_interest == InterestState::NotInterested
                    },
            decreases res.peers@.len() - i,
        {
            let tracker_peer = &res.peers[i];
            peers.push(
                Peer::new(
                    tracker_peer.ip.clone(),
                    tracker_peer.port,
                    copy_bytes(tracker_peer.peer_id.as_slice()),
                ),
            );
            i += 1;
        }
        peers
    }
}

/// Commands that will be sent over the Message Channel
#[derive(Debug)]
pub enum Command {
    BitfieldRecieved { peer_id: Vec<u8>, bitfield: Bitfield },
    PickInitialPieces { peer_id: Vec<u8> },
    PickPiece { peer_id: Vec<u8> },
    SelectedInitialPieces(Vec<Option<Block>>),
    SelectedPiece(Block),
    NoPiece,
    DownloadedBlock(DownloadedBlock),
    HavePiece { peer_id: Vec<u8>, piece_index: usize },
    PeerDisconnected { peer_id: Vec<u8> },
}

/// A command as a mathematical value.
pub enum CommandView {
    BitfieldRecieved { peer_id: Seq<u8>, bits: Seq<bool> },
    PickInitialPieces { peer_id: Seq<u8> },
    PickPiece { peer_id: Seq<u8> },
    SelectedInitialPieces(Seq<Option<Block>>),
    SelectedPiece(Block),
    NoPiece,
    DownloadedBlock { index: u32, begin: u32, data: Seq<u8> },
    HavePiece { peer_id: Seq<u8>, piece_index: usize },
    PeerDisconnected { peer_id: Seq<u8> },
}

impl View for Command {
    type V = CommandView;

    open spec fn view(&self) -> CommandView {
        match *self {
            Command::BitfieldRecieved { peer_id, bitfield } => CommandView::BitfieldRecieved {
                peer_id: peer_id@,
                bits: bitfield@,
            },
            Command::PickInitialPieces { peer_id } => CommandView::PickInitialPieces {
                peer_id: peer_id@,
            },
            Command::PickPiece { peer_id } => CommandView::PickPiece { peer_id: peer_id@ },
            Command::SelectedInitialPieces(blocks) => CommandView::SelectedInitialPieces(blocks@),
            Command::SelectedPiece(block) => CommandView::SelectedPiece(block),
            Command::NoPiece => CommandView::NoPiece,
            Command::DownloadedBlock(block) => CommandView::DownloadedBlock {
                index: block.piece_index,
                begin: block.begin,
                data: block.data@,
            },
            Command::HavePiece { peer_id, piece_index } => CommandView::HavePiece {
                peer_id: peer_id@,
                piece_index,
            },
            Command::PeerDisconnected { peer_id } => CommandView::PeerDisconnected {
                peer_id: peer_id@,
            },
        }
    }
}

/// What the picker hands back for one command.
#[derive(Debug)]
pub struct Outcome {
    /// The answer for the session that sent the command, if it waits for
    /// one.
    pub reply: Option<Command>,
    /// A piece that is whole and has its expected digest, to be written to
    /// disk.
    pub verified: Option<DownloadedPiece>,
}

/// Whether none of the blocks is there.
pub open spec fn all_none(blocks: Seq<Option<Block>>) -> bool {
    forall|k: int| 0 <= k < blocks.len() ==> (#[trigger] blocks[k]) is None
}

/// The picker's state after it has served `cmd`.
pub open spec fn after_command(v: PickerView, cmd: CommandView) -> PickerView {
    match cmd {
        CommandView::BitfieldRecieved { peer_id, bits } => v.register(peer_id, bits),
        CommandView::PickInitialPieces { peer_id } => v.pick_many(peer_id, 5).0,
        CommandView::PickPiece { peer_id } => v.pick(peer_id).0,
        CommandView::HavePiece { peer_id, piece_index } => v.have(peer_id, piece_index as int),
        CommandView::PeerDisconnected { peer_id } => v.remove_peer(peer_id),
        CommandView::DownloadedBlock { index, begin, data } => v.deposit(index, begin, data),
        _ => v,
    }
}

/// The picker's answer to `cmd`: the blocks picked, or `NoPiece`, where
/// `cmd` asks for blocks; none to any other command.
pub open spec fn reply_to(v: PickerView, cmd: CommandView) -> Option<CommandView> {
    match cmd {
        CommandView::PickInitialPieces { peer_id } => {
            let blocks = v.pick_many(peer_id, 5).1;
            if all_none(blocks) {
                Some(CommandView::NoPiece)
            } else {
                Some(CommandView::SelectedInitialPieces(blocks))
            }
        },
        CommandView::PickPiece { peer_id } => match v.pick(peer_id).1 {
            Some(block) => Some(CommandView::SelectedPiece(block)),
            None => Some(CommandView::NoPiece),
        },
        _ => None,
    }
}

/// Whether `cmd` delivers the block that completes a piece with the
/// expected digest.
pub open spec fn completes_piece(v: PickerView, cmd: CommandView) -> bool {
    match cmd {
        CommandView::DownloadedBlock { index, begin, data } => v.completes(index, begin, data),
        _ => false,
    }
}

/// The picker's state after it has served `cmds`, one after the other.
pub open spec fn after_commands(v: PickerView, cmds: Seq<CommandView>) -> PickerView
    decreases cmds.len(),
{
    if cmds.len() == 0 {
        v
    } else {
        after_command(after_commands(v, cmds.drop_last()), cmds.last())
    }
}

/// Whatever the sessions send, in whatever order: the picker's state stays
/// well formed, so that every piece stands where its position says and the
/// last boundary is at the end; and each piece's availability stays the
/// number of stored bitfields that have the piece.
pub proof fn lemma_every_state(v: PickerView, cmds: Seq<CommandView>)
    requires
        v.wf(),
        v.consistent(),
    ensures
        after_commands(v, cmds).wf(),
        after_commands(v, cmds).consistent(),
    decreases cmds.len(),
{
    if cmds.len() > 0 {
        lemma_every_state(v, cmds.drop_last());
        let w = after_commands(v, cmds.drop_last());
        match cmds.last() {
            CommandView::BitfieldRecieved { peer_id, bits } => {
                crate::invariants::lemma_register(w, peer_id, bits);
            },
            CommandView::PickInitialPieces { peer_id } => {
                crate::invariants::lemma_pick_many(w, peer_id, 5);
            },
            CommandView::PickPiece { peer_id } => {
                crate::invariants::lemma_pick(w, peer_id);
            },
            CommandView::HavePiece { peer_id, piece_index } => {
                crate::invariants::lemma_have(w, peer_id, piece_index as int);
            },
            CommandView::PeerDisconnected { peer_id } => {
                crate::invariants::lemma_remove_peer(w, peer_id);
            },
            CommandView::DownloadedBlock { index, begin, data } => {
                crate::invariants::lemma_deposit(w, index, begin, data);
            },
            _ => {},
        }
    }
}

impl PiecePicker {
    /// Serves one command of a peer session.
    ///
    /// A bitfield or a `have` is recorded, and a peer that is gone is
    /// forgotten. A request for blocks is answered with the blocks picked,
    /// or with `NoPiece`. A delivered block is stored, and the piece is
    /// handed out if the block completed it and its digest is the expected
    /// one. The picker's own answers, should one come in, are ignored.
    pub fn handle_command(&mut self, cmd: Command) -> (out: Outcome)
        requires
            old(self).wf(),
            old(self)@.consistent(),
        ensures
            final(self).wf(),
            final(self)@.consistent(),
            final(self)@ == after_command(old(self)@, cmd@),
            match out.reply {
                Some(reply) => reply_to(old(self)@, cmd@) == Some(reply@),
                None => reply_to(old(self)@, cmd@) is None,
            },
            out.verified is Some <==> completes_piece(old(self)@, cmd@),
            out.verified is Some ==> {
                &&& cmd@ matches CommandView::DownloadedBlock { index, begin, data }
                &&& out.verified->0.index == index
                &&& out.verified->0.buffers() == old(self)@.filled(index, begin, data)
                &&& digest_matches(out.verified->0.joined(), old(self)@.hashes[index as int])
            },
    {
        match cmd {
            Command::BitfieldRecieved { peer_id, bitfield } => {
                self.register_bitfield(peer_id, bitfield);
                Outcome { reply: None, verified: None }
            },
            Command::PickInitialPieces { peer_id } => {
                proof {
                    self.lemma_wf();
                    crate::invariants::lemma_pick_many(old(self)@, peer_id@, 5);
                }
                let reply = match self.pick_intial_pieces(&peer_id) {
                    Some(blocks) => Command::SelectedInitialPieces(blocks),
                    None => Command::NoPiece,
                };
                Outcome { reply: Some(reply), verified: None }
            },
            Command::PickPiece { peer_id } => {
                let reply = match self.pick_piece(&peer_id) {
                    Some(block) => Command::SelectedPiece(block),
                    None => Command::NoPiece,
                };
                Outcome { reply: Some(reply), verified: None }
            },
            Command::HavePiece { peer_id, piece_index } => {
                self.have(peer_id, piece_index);
                Outcome { reply: None, verified: None }
            },
            Command::PeerDisconnected { peer_id } => {
                self.remove_peer(&peer_id);
                Outcome { reply: None, verified: None }
            },
            Command::DownloadedBlock(block) => {
                let verified = self.deposit_block(block);
                Outcome { reply: None, verified }
            },
            _ => Outcome { reply: None, verified: None },
        }
    }
}

} // verus!
