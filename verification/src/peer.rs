//! One peer's session: the handshake, and what to do on each message the
//! peer sends.
//!
//! The session itself reads and writes no socket. Its driver hands it what
//! it read, and gets back the commands to send to the picker and the frames
//! to write to the peer.
use crate::error::Error;
use crate::manager::{Command, CommandView};
use crate::message::{be32_at, read_be32, Msg, MsgView};
use crate::piece::{Block, DownloadedBlock};
use crate::utils::{copy_bytes, same_bytes};
use vstd::prelude::*;

verus! {

/// The bytes of `BitTorrent protocol`.
pub open spec fn protocol_name() -> Seq<u8> {
    seq![
        66u8, 105, 116, 84, 111, 114, 114, 101, 110, 116, 32, 112, 114, 111, 116, 111, 99, 111, 108,
    ]
}

/// The handshake of a client `peer_id` for the torrent `info_hash`: the
/// byte 19, the protocol's name, eight reserved zero bytes, the info-hash
/// and the peer id.
pub open spec fn handshake_bytes(info_hash: Seq<u8>, peer_id: Seq<u8>) -> Seq<u8> {
    seq![19u8] + protocol_name() + Seq::new(8, |i: int| 0u8) + info_hash + peer_id
}

/// The parts of the handshake that opens a session.
#[derive(Debug)]
pub struct Handshake<'a> {
    info_hash: &'a Vec<u8>,
    peer_id: &'a Vec<u8>,
    reserved_bytes: Vec<u8>,
    protocol: Vec<u8>,
    protocol_length: Vec<u8>,
}

impl<'a> Handshake<'a> {
    /// The bytes that this handshake puts on the wire.
    pub closed spec fn bytes(&self) -> Seq<u8> {
        self.protocol_length@ + self.protocol@ + self.reserved_bytes@ + self.info_hash@
            + self.peer_id@
    }

    /// The handshake of the client `peer_id` for the torrent `info_hash`.
    pub fn new(info_hash: &'a Vec<u8>, peer_id: &'a Vec<u8>) -> (h: Self)
        ensures
            h.bytes() == handshake_bytes(info_hash@, peer_id@),
    {
        let reserved_bytes: Vec<u8> = vec![0, 0, 0, 0, 0, 0, 0, 0];
        let protocol: Vec<u8> = vec![
            66, 105, 116, 84, 111, 114, 114, 101, 110, 116, 32, 112, 114, 111, 116, 111, 99, 111, 108,
        ];
        let protocol_length: Vec<u8> = vec![19];
        assert(reserved_bytes@ =~= Seq::new(8, |i: int| 0u8));
        assert(protocol@ =~= protocol_name());
        assert(protocol_length@ =~= seq![19u8]);
        Handshake { info_hash, peer_id, reserved_bytes, protocol, protocol_length }
    }

    /// The handshake's bytes, as they go on the wire.
    pub fn generate_handshake(self) -> (handshake: Vec<u8>)
        ensures
            handshake@ == self.bytes(),
    {
        let mut handshake: Vec<u8> = Vec::new();
        handshake.extend_from_slice(self.protocol_length.as_slice());
        handshake.extend_from_slice(self.protocol.as_slice());
        handshake.extend_from_slice(self.reserved_bytes.as_slice());
        handshake.extend_from_slice(self.info_hash.as_slice());
        handshake.extend_from_slice(self.peer_id.as_slice());
        handshake
    }
}

/// A handshake with a twenty-byte info-hash and a twenty-byte peer id has
/// 68 bytes, the info-hash at 28 and the peer id at 48.
pub proof fn lemma_handshake_layout(info_hash: Seq<u8>, peer_id: Seq<u8>)
    requires
        info_hash.len() == 20,
        peer_id.len() == 20,
    ensures
        handshake_bytes(info_hash, peer_id).len() == 68,
        handshake_bytes(info_hash, peer_id)[0] == 19,
        handshake_bytes(info_hash, peer_id).subrange(1, 20) == protocol_name(),
        handshake_bytes(info_hash, peer_id).subrange(20, 28) == Seq::new(8, |i: int| 0u8),
        handshake_bytes(info_hash, peer_id).subrange(28, 48) == info_hash,
        handshake_bytes(info_hash, peer_id).subrange(48, 68) == peer_id,
{
    let h = handshake_bytes(info_hash, peer_id);
    assert(h.subrange(1, 20) =~= protocol_name());
    assert(h.subrange(20, 28) =~= Seq::new(8, |i: int| 0u8));
    assert(h.subrange(28, 48) =~= info_hash);
    assert(h.subrange(48, 68) =~= peer_id);
}

/// Checks a peer's handshake against the torrent's info-hash, and returns
/// the peer id that the peer gave.
pub fn check_handshake(reply: &[u8; 68], info_hash: &Vec<u8>) -> (r: Result<Vec<u8>, Error>)
    ensures
        match r {
            Ok(peer_id) => reply@.subrange(28, 48) == info_hash@ && peer_id@ == reply@.subrange(
                48,
                68,
            ),
            Err(e) => e == Error::HandshakeMismatch && reply@.subrange(28, 48) != info_hash@,
        },
{
    let mut theirs: Vec<u8> = Vec::new();
    let mut i: usize = 28;
    while i < 48
        invariant
            28 <= i <= 48,
            theirs@ == reply@.subrange(28, i as int),
        decreases 48 - i,
    {
        theirs.push(reply[i]);
        i += 1;
        assert(theirs@ =~= reply@.subrange(28, i as int));
    }
    if !same_bytes(theirs.as_slice(), info_hash.as_slice()) {
        return Err(Error::HandshakeMismatch);
    }
    let mut peer_id: Vec<u8> = Vec::new();
    let mut j: usize = 48;
    while j < 68
        invariant
            48 <= j <= 68,
            peer_id@ == reply@.subrange(48, j as int),
        decreases 68 - j,
    {
        peer_id.push(reply[j]);
        j += 1;
        assert(peer_id@ =~= reply@.subrange(48, j as int));
    }
    Ok(peer_id)
}

/// Length of the payload that follows a frame's four-byte prefix.
pub fn frame_length(prefix: &[u8; 4]) -> (n: u32)
    ensures
        n == be32_at(prefix@, 0),
{
    read_be32(prefix.as_slice(), 0)
}

/// What to do after a frame's prefix was read.
#[derive(Debug, Clone, Copy, PartialEq, Eq, Structural)]
pub enum Framing {
    /// The frame is a keep-alive. It has no payload and asks for nothing.
    KeepAlive,
    /// A payload of this many bytes follows, with a message in it.
    Payload(u32),
}

/// Tells a keep-alive, a frame of length zero, from a frame that carries a
/// message.
pub fn read_prefix(prefix: &[u8; 4]) -> (r: Framing)
    ensures
        r == if be32_at(prefix@, 0) == 0 {
            Framing::KeepAlive
        } else {
            Framing::Payload(be32_at(prefix@, 0))
        },
{
    let length: u32 = frame_length(prefix);
    if length == 0 {
        Framing::KeepAlive
    } else {
        Framing::Payload(length)
    }
}

/// Whether one side lets the other request blocks.
#[derive(Debug, Clone, Copy, PartialEq, Eq, Structural)]
pub enum ChokeState {
    Unchoked,
    Choked,
}

/// Whether one side wants blocks of the other.
#[derive(Debug, Clone, Copy, PartialEq, Eq, Structural)]
pub enum InterestState {
    Interested,
    NotInterested,
}

/// A peer's address and id, and the state of the session with it.
#[derive(Debug)]
pub struct Peer {
    pub ip: String,
    pub port: u16,
    pub peer_id: Vec<u8>,
    /// if we have choked the peer
    pub client_state: ChokeState,
    /// if we are interested in the peer
    pub client_interest: InterestState,
    /// if it has choked the client
    pub peer_state: ChokeState,
    /// if the peer is interested in the client
    pub peer_interest: InterestState,
}

/// What a session does on one message: first it sends the commands, then
/// it writes the frames.
#[derive(Debug)]
pub struct Reaction {
    /// The commands to send to the picker, in order.
    pub commands: Vec<Command>,
    /// The frames to write to the peer, in order.
    pub frames: Vec<Vec<u8>>,
    /// Whether the picker will answer the last command, and the session has
    /// to wait for that answer.
    pub awaits_reply: bool,
}

/// A reaction as a mathematical value.
pub struct ReactionView {
    pub commands: Seq<CommandView>,
    pub frames: Seq<Seq<u8>>,
    pub awaits_reply: bool,
}

impl View for Reaction {
    type V = ReactionView;

    open spec fn view(&self) -> ReactionView {
        ReactionView {
            commands: Seq::new(self.commands@.len(), |i: int| self.commands@[i]@),
            frames: Seq::new(self.frames@.len(), |i: int| self.frames@[i]@),
            awaits_reply: self.awaits_reply,
        }
    }
}

/// What the session of peer `peer_id` does on `msg`.
///
/// A bitfield goes to the picker, and the peer is told that we are
/// interested. On an unchoke the picker is asked for the first blocks. A
/// `have` goes to the picker. A delivered block goes to the picker, which is
/// then asked for the next block. Nothing is done on the other messages.
pub open spec fn reaction(peer_id: Seq<u8>, msg: MsgView) -> ReactionView {
    match msg {
        MsgView::Bitfield { bits, bytes } => ReactionView {
            commands: seq![CommandView::BitfieldRecieved { peer_id, bits }],
            frames: seq![MsgView::Interested.frame()],
            awaits_reply: false,
        },
        MsgView::Unchoke => ReactionView {
            commands: seq![CommandView::PickInitialPieces { peer_id }],
            frames: Seq::empty(),
            awaits_reply: true,
        },
        MsgView::Have(index) => ReactionView {
            commands: seq![CommandView::HavePiece { peer_id, piece_index: index as usize }],
            frames: Seq::empty(),
            awaits_reply: false,
        },
        MsgView::Piece { index, begin, block } => ReactionView {
            commands: seq![
                CommandView::DownloadedBlock { index, begin, data: block },
                CommandView::PickPiece { peer_id },
            ],
            frames: Seq::empty(),
            awaits_reply: true,
        },
        _ => ReactionView { commands: Seq::empty(), frames: Seq::empty(), awaits_reply: false },
    }
}

/// The peer's choke state after `msg`.
pub open spec fn next_choke(state: ChokeState, msg: MsgView) -> ChokeState {
    match msg {
        MsgView::Choke => ChokeState::Choked,
        MsgView::Unchoke => ChokeState::Unchoked,
        _ => state,
    }
}

/// The peer's interest after `msg`.
pub open spec fn next_interest(state: InterestState, msg: MsgView) -> InterestState {
    match msg {
        MsgView::Interested => InterestState::Interested,
        MsgView::NotInterested => InterestState::NotInterested,
        _ => state,
    }
}

/// The frame that asks for `block`.
pub open spec fn request_frame(block: Block) -> Seq<u8> {
    (MsgView::Request { index: block.piece_index, begin: block.begin, length: block.length }).frame()
}

/// The frames that ask for the blocks that are there, in order.
pub open spec fn request_frames(blocks: Seq<Option<Block>>) -> Seq<Seq<u8>>
    decreases blocks.len(),
{
    if blocks.len() == 0 {
        Seq::empty()
    } else {
        let before = request_frames(blocks.drop_last());
        match blocks.last() {
            Some(block) => before.push(request_frame(block)),
            None => before,
        }
    }
}

/// The frames to write on the picker's answer: a request for each block
/// that it picked, none on `NoPiece`.
pub open spec fn frames_for(reply: CommandView) -> Seq<Seq<u8>> {
    match reply {
        CommandView::SelectedInitialPieces(blocks) => request_frames(blocks),
        CommandView::SelectedPiece(block) => seq![request_frame(block)],
        _ => Seq::empty(),
    }
}

impl Peer {
    /// A session that has not begun: we neither choke the peer nor lack
    /// interest; the peer chokes us and is not interested.
    pub fn new(ip: String, port: u16, peer_id: Vec<u8>) -> (peer: Peer)
        ensures
            peer.ip == ip,
            peer.port == port,
            peer.peer_id == peer_id,
            peer.client_state == ChokeState::Unchoked,
            peer.client_interest == InterestState::Interested,
            peer.peer_state == ChokeState::Choked,
            peer.peer_interest == InterestState::NotInterested,
    {
        Peer {
            ip,
            port,
            peer_id,
            client_state: ChokeState::Unchoked,
            client_interest: InterestState::Interested,
            peer_state: ChokeState::Choked,
            peer_interest: InterestState::NotInterested,
        }
    }

    /// Takes in the peer's handshake: checks it against the torrent's
    /// info-hash, and from then on goes by the peer id that the peer itself
    /// gave, whatever the tracker said.
    pub fn accept_handshake(&mut self, reply: &[u8; 68], info_hash: &Vec<u8>) -> (r: Result<
        (),
        Error,
    >)
        ensures
            r is Ok <==> reply@.subrange(28, 48) == info_hash@,
            r is Ok ==> final(self).peer_id@ == reply@.subrange(48, 68),
            r is Err ==> r->Err_0 == Error::HandshakeMismatch && final(self).peer_id == old(
                self,
            ).peer_id,
            final(self).ip == old(self).ip,
            final(self).port == old(self).port,
            final(self).client_state == old(self).client_state,
            final(self).client_interest == old(self).client_interest,
            final(self).peer_state == old(self).peer_state,
            final(self).peer_interest == old(self).peer_interest,
    {
        match check_handshake(reply, info_hash) {
            Ok(peer_id) => {
                self.peer_id = peer_id;
                Ok(())
            },
            Err(e) => Err(e),
        }
    }

    /// The command that tells the picker that this session has ended.
    pub fn farewell(&self) -> (command: Command)
        ensures
            command@ == (CommandView::PeerDisconnected { peer_id: self.peer_id@ }),
    {
        Command::PeerDisconnected { peer_id: copy_bytes(self.peer_id.as_slice()) }
    }

    /// Takes in one message from the peer.
    pub fn receive(&mut self, msg: Msg) -> (r: Reaction)
        ensures
            r@ == reaction(old(self).peer_id@, msg@),
            final(self).peer_state == next_choke(old(self).peer_state, msg@),
            final(self).peer_interest == next_interest(old(self).peer_interest, msg@),
            final(self).ip == old(self).ip,
            final(self).port == old(self).port,
            final(self).peer_id == old(self).peer_id,
            final(self).client_state == old(self).client_state,
            final(self).client_interest == old(self).client_interest,
    {
        let mut commands: Vec<Command> = Vec::new();
        let mut frames: Vec<Vec<u8>> = Vec::new();
        let mut awaits_reply: bool = false;
        match msg {
            Msg::Bitfield(bitfield) => {
                let peer_id = copy_bytes(self.peer_id.as_slice());
                commands.push(Command::BitfieldRecieved { peer_id, bitfield });
                frames.push(Msg::Interested.get_message());
            },
            Msg::Unchoke => {
                self.peer_state = ChokeState::Unchoked;
                commands.push(
                    Command::PickInitialPieces { peer_id: copy_bytes(self.peer_id.as_slice()) },
                );
                awaits_reply = true;
            },
            Msg::Choke => {
                self.peer_state = ChokeState::Choked;
            },
            Msg::Interested => {
                self.peer_interest = InterestState::Interested;
            },
            Msg::NotInterested => {
                self.peer_interest = InterestState::NotInterested;
            },
            Msg::Have(piece_index) => {
                commands.push(
                    Command::HavePiece {
                        peer_id: copy_bytes(self.peer_id.as_slice()),
                        piece_index: piece_index as usize,
                    },
                );
            },
            Msg::Piece { index, begin, block } => {
                commands.push(Command::DownloadedBlock(DownloadedBlock::new(index, begin, block)));
                commands.push(Command::PickPiece { peer_id: copy_bytes(self.peer_id.as_slice()) });
                awaits_reply = true;
            },
            Msg::Request { index: _, begin: _, length: _ } => {},
            Msg::Cancel { index: _, begin: _, length: _ } => {},
        }
        let r = Reaction { commands, frames, awaits_reply };
        assert(r@.commands =~= reaction(old(self).peer_id@, msg@).commands);
        assert(r@.frames =~= reaction(old(self).peer_id@, msg@).frames);
        r
    }

    /// The frames to write once the picker has answered: a request for
    /// each block that it picked. On `NoPiece` the session goes on without
    /// a request.
    pub fn requests_for(reply: Command) -> (frames: Vec<Vec<u8>>)
        ensures
            Seq::new(frames@.len(), |i: int| frames@[i]@) == frames_for(reply@),
    {
        let mut frames: Vec<Vec<u8>> = Vec::new();
        match reply {
            Command::SelectedInitialPieces(blocks) => {
                let mut i: usize = 0;
                assert(blocks@.take(0) =~= Seq::<Option<Block>>::empty());
                while i < blocks.len()
                    invariant
                        i <= blocks@.len(),
                        Seq::new(frames@.len(), |k: int| frames@[k]@) == request_frames(
                            blocks@.take(i as int),
                        ),
                    decreases blocks@.len() - i,
                {
                    let ghost before = Seq::new(frames@.len(), |k: int| frames@[k]@);
                    match &blocks[i] {
                        Some(block) => {
                            let request = Msg::Request {
                                index: block.piece_index,
                                begin: block.begin,
                                length: block.length,
                            };
                            assert(request@.payload().len() == 13);
                            frames.push(request.get_message());
                            assert(Seq::new(frames@.len(), |k: int| frames@[k]@) =~= before.push(
                                request_frame(*block),
                            ));
                        },
                        None => {},
                    }
                    proof {
                        assert(blocks@.take(i + 1).drop_last() =~= blocks@.take(i as int));
                    }
                    i += 1;
                }
                assert(blocks@.take(i as int) =~= blocks@);
            },
            Command::SelectedPiece(block) => {
                let request = Msg::Request {
                    index: block.piece_index,
                    begin: block.begin,
                    length: block.length,
                };
                assert(request@.payload().len() == 13);
                frames.push(request.get_message());
                assert(Seq::new(frames@.len(), |i: int| frames@[i]@) =~= seq![request_frame(block)]);
            },
            _ => {
                assert(Seq::new(frames@.len(), |i: int| frames@[i]@) =~= Seq::<Seq<u8>>::empty());
            },
        }
        frames
    }
}

} // verus!
