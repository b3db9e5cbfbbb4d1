use vstd::prelude::*;
use crate::bitfield::{bit_set, empty_bitfield, set_piece};
use crate::digest::sha1_of;
use crate::error::TorrentError;
use crate::manager::{PieceManager, ManagerModel, BlockState, Block, all_blocks};
use crate::metainfo::{BLOCK_SIZE, block_size};
use crate::wire::{
    Message, MessageModel, build_handshake, check_handshake, encode_message, handshake_bytes,
    frame_bytes,
};

verus! {

/// The number of requests that a session keeps open with its peer.
pub const PIPELINE: usize = 5;

/// Where a session stands.
#[derive(Clone, Copy, Debug, PartialEq, Eq, Structural)]
pub enum SessionState {
    /// The connection is being made.
    Connecting,
    /// The handshake was sent; the peer's is awaited.
    Handshaking,
    /// The handshake is done; the peer has not said anything yet.
    AwaitingBitfield,
    /// No request is open.
    Idle,
    /// Requests are open.
    Requesting,
    /// The session is over.
    Closed,
}

/// What a message did.
#[derive(Clone, Copy, Debug, PartialEq, Eq, Structural)]
pub enum Outcome {
    /// Nothing that the caller has to know of.
    Nothing,
    /// The piece `index` is complete and has the expected digest.
    PieceVerified { index: usize },
    /// The piece `index` was complete, but its digest was not the
    /// expected one: it is fetched anew.
    PieceRejected { index: usize },
}

/// A connection to one peer.
#[derive(Clone, Debug, PartialEq, Eq)]
pub struct PeerSession {
    /// The name under which the manager knows this session.
    pub id: u64,
    /// Where the session stands.
    pub state: SessionState,
    /// The info-hash of the torrent.
    pub info_hash: [u8; 20],
    /// The id of this client.
    pub local_id: [u8; 20],
    /// The id that the peer gave in its handshake.
    pub remote_id: Vec<u8>,
    /// The pieces that the peer claims to have.
    pub bitfield: Vec<u8>,
    /// Whether the peer chokes this client: no request may be sent.
    pub choked: bool,
    /// The number of requests that are open.
    pub in_flight: usize,
}

impl PeerSession {
    /// Whether the session is consistent: no more requests are open
    /// than the pipeline holds, none while the peer chokes, and the
    /// state tells whether any is open.
    pub open spec fn wf(&self) -> bool {
        &&& self.in_flight <= PIPELINE
        &&& self.choked ==> self.in_flight == 0
        &&& self.state == SessionState::Requesting ==> self.in_flight > 0
        &&& self.state == SessionState::Idle ==> self.in_flight == 0
        &&& !self.active() ==> self.in_flight == 0
    }

    /// Whether a request may be sent: the handshake is done, the peer
    /// does not choke, the pipeline has room, and the numbers of the
    /// torrent fit the four bytes that a request has for each.
    pub open spec fn can_request(&self, m: ManagerModel) -> bool {
        &&& self.active()
        &&& !self.choked
        &&& self.in_flight < PIPELINE
        &&& m.pieces.len() <= u32::MAX
        &&& m.piece_length <= u32::MAX
    }

    /// Whether the handshake is done and the session is not over.
    pub open spec fn active(&self) -> bool {
        self.state == SessionState::AwaitingBitfield || self.state == SessionState::Idle
            || self.state == SessionState::Requesting
    }

    /// A session that is about to connect to a peer, for a torrent of
    /// `pieces` pieces. The peer is taken to choke and to have nothing
    /// until it says otherwise.
    pub fn new(id: u64, info_hash: [u8; 20], local_id: [u8; 20], pieces: usize) -> (session:
        PeerSession)
        ensures
            session.wf(),
            session.id == id,
            session.state == SessionState::Connecting,
            session.info_hash == info_hash,
            session.local_id == local_id,
            session.choked,
            session.in_flight == 0,
            session.bitfield@.len() == (pieces + 7) / 8,
            forall|i: int| !bit_set(session.bitfield@, i),
    {
        PeerSession {
            id,
            state: SessionState::Connecting,
            info_hash,
            local_id,
            remote_id: Vec::new(),
            bitfield: empty_bitfield(pieces),
            choked: true,
            in_flight: 0,
        }
    }

    /// The connection is made: gives the handshake to send. A session
    /// that was not connecting stays as it is and has nothing to send.
    pub fn connect(&mut self) -> (r: Option<Vec<u8>>)
        requires
            old(self).wf(),
        ensures
            final(self).wf(),
            old(self).state == SessionState::Connecting ==> (r matches Some(bytes) && bytes@
                == handshake_bytes(old(self).info_hash@, old(self).local_id@)) && *final(self) == (
            PeerSession { state: SessionState::Handshaking, ..*old(self) }),
            old(self).state != SessionState::Connecting ==> r is None && *final(self) == *old(self),
    {
        match self.state {
            SessionState::Connecting => {
                self.state = SessionState::Handshaking;
                Some(build_handshake(&self.info_hash, &self.local_id))
            },
            _ => None,
        }
    }

    /// The peer's handshake arrived. If it is for the same torrent, the
    /// peer's id is kept and the message `interested` is to be sent.
    /// If not, the session is over. Where no handshake was awaited, the
    /// peer broke the protocol, and the session stays as it is for the
    /// caller to end it.
    pub fn on_handshake(&mut self, reply: &[u8; 68]) -> (r: Result<Vec<u8>, TorrentError>)
        requires
            old(self).wf(),
        ensures
            final(self).wf(),
            final(self).id == old(self).id,
            final(self).info_hash == old(self).info_hash,
            final(self).local_id == old(self).local_id,
            final(self).bitfield == old(self).bitfield,
            final(self).choked == old(self).choked,
            final(self).in_flight == old(self).in_flight,
            old(self).state == SessionState::Handshaking && reply@.subrange(28, 48) == old(self).info_hash@
                ==> (r matches Ok(bytes) && bytes@ == frame_bytes(MessageModel::Interested))
                && final(self).state == SessionState::AwaitingBitfield && final(self).remote_id@
                == reply@.subrange(48, 68),
            old(self).state == SessionState::Handshaking && reply@.subrange(28, 48) != old(self).info_hash@
                ==> (r matches Err(e) && e == TorrentError::HandshakeMismatch) && *final(self) == (
            PeerSession { state: SessionState::Closed, ..*old(self) }),
            old(self).state != SessionState::Handshaking ==> (r matches Err(e) && e
                == TorrentError::ProtocolViolation) && *final(self) == *old(self),
    {
        match self.state {
            SessionState::Handshaking => {},
            _ => {
                return Err(TorrentError::ProtocolViolation);
            },
        }
        match check_handshake(reply, &self.info_hash) {
            Ok(id) => {
                self.remote_id = id;
                self.state = SessionState::AwaitingBitfield;
                Ok(encode_message(&Message::Interested))
            },
            Err(e) => {
                self.state = SessionState::Closed;
                Err(e)
            },
        }
    }

    /// The peer is gone, or the session is given up: what it was asked
    /// for is pending again, and the session is over.
    pub fn disconnect(&mut self, manager: &mut PieceManager)
        requires
            old(manager)@.wf(),
        ensures
            final(self).wf(),
            final(manager)@.wf(),
            old(manager)@.sound() ==> final(manager)@.sound(),
            final(manager)@ == old(manager)@.release(old(self).id),
            *final(self) == (PeerSession {
                state: SessionState::Closed,
                in_flight: 0,
                ..*old(self)
            }),
    {
        manager.release_peer(self.id);
        self.state = SessionState::Closed;
        self.in_flight = 0;
    }

    /// Asks the peer for one more block, if the peer does not choke,
    /// the pipeline has room, and the manager has a pending block of a
    /// piece that the peer claims: gives that block and the request to
    /// send for it. Nothing is asked for where the torrent has more
    /// pieces, or larger ones, than the four bytes of a request can say.
    pub fn next_request(&mut self, manager: &mut PieceManager) -> (r: Option<(Block, Vec<u8>)>)
        requires
            old(self).wf(),
            old(manager)@.wf(),
        ensures
            final(self).wf(),
            final(manager)@.wf(),
            old(manager)@.sound() ==> final(manager)@.sound(),
            match r {
                Some((block, frame)) => {
                    let j = block.begin as int / (BLOCK_SIZE as int);
                    &&& old(self).can_request(old(manager)@)
                    &&& old(manager)@.assignable(old(self).bitfield@, block.piece_index as int, j)
                    &&& forall|i2: int, j2: int|
                        i2 < block.piece_index || (i2 == block.piece_index && j2 < j) ==> !#[trigger] old(manager)@.assignable(old(self).bitfield@, i2, j2)
                    &&& block.begin == j * BLOCK_SIZE
                    &&& block.length == block_size(
                        old(manager)@.size(block.piece_index as int),
                        j as nat,
                    )
                    &&& final(manager)@ == old(manager)@.set_block(
                        block.piece_index as int,
                        j,
                        BlockState::InFlight { peer: old(self).id },
                    )
                    &&& frame@ == frame_bytes(
                        MessageModel::Request {
                            index: block.piece_index as u32,
                            begin: block.begin as u32,
                            length: block.length as u32,
                        },
                    )
                    &&& *final(self) == (PeerSession {
                        state: SessionState::Requesting,
                        in_flight: (old(self).in_flight + 1) as usize,
                        ..*old(self)
                    })
                },
                None => {
                    &&& *final(self) == *old(self)
                    &&& final(manager)@ == old(manager)@
                    &&& !old(self).can_request(old(manager)@) || forall|i: int, j: int|
                        !#[trigger] old(manager)@.assignable(old(self).bitfield@, i, j)
                },
            },
    {
        let active: bool = match self.state {
            SessionState::AwaitingBitfield => true,
            SessionState::Idle => true,
            SessionState::Requesting => true,
            _ => false,
        };
        if !active || self.choked || self.in_flight >= PIPELINE {
            return None;
        }
        if manager.pieces.len() > u32::MAX as usize || manager.piece_length > u32::MAX as usize {
            return None;
        }
        let ghost before = manager@;
        match manager.next_block(self.id, self.bitfield.as_slice()) {
            Some(block) => {
                proof {
                    let j = block.begin as int / (BLOCK_SIZE as int);
                    assert(before.piece_wf(block.piece_index as int));
                    crate::metainfo::lemma_piece_size(
                        before.total_length,
                        before.piece_length,
                        block.piece_index as nat,
                    );
                    crate::manager::lemma_block_begin(
                        before.size(block.piece_index as int),
                        j as nat,
                    );
                }
                let message = Message::Request {
                    index: block.piece_index as u32,
                    begin: block.begin as u32,
                    length: block.length as u32,
                };
                let frame = encode_message(&message);
                self.in_flight = self.in_flight + 1;
                self.state = SessionState::Requesting;
                Some((block, frame))
            },
            None => None,
        }
    }

    /// Takes a message of the peer.
    ///
    /// Before the handshake is done and after the session is over,
    /// messages are dropped. Otherwise: `choke` takes back what the
    /// peer was asked for; `unchoke` lets requests be sent; `have` and
    /// `bitfield` say what the peer has; `piece` brings bytes, which go
    /// to the manager, and a piece that is complete with them is
    /// verified at once. Bytes that do not lie within their piece break
    /// the protocol: the session is over, and what the peer was asked
    /// for is pending again. All other messages change nothing.
    pub fn on_message(&mut self, manager: &mut PieceManager, message: Message) -> (r: Result<
        Outcome,
        TorrentError,
    >)
        requires
            old(self).wf(),
            old(manager)@.wf(),
        ensures
            final(self).wf(),
            final(manager)@.wf(),
            old(manager)@.sound() ==> final(manager)@.sound(),
            final(self).id == old(self).id,
            final(self).info_hash == old(self).info_hash,
            final(self).local_id == old(self).local_id,
            final(self).remote_id == old(self).remote_id,
            !old(self).active() ==> r == Ok::<Outcome, TorrentError>(Outcome::Nothing) && *final(self) == *old(self) && final(manager)@ == old(manager)@,
            old(self).active() ==> message_effect(
                *old(self),
                old(manager)@,
                message@,
                *final(self),
                final(manager)@,
                r,
            ),
    {
        let active: bool = match self.state {
            SessionState::AwaitingBitfield => true,
            SessionState::Idle => true,
            SessionState::Requesting => true,
            _ => false,
        };
        if !active {
            return Ok(Outcome::Nothing);
        }
        let ghost before = manager@;
        match message {
            Message::Choke => {
                manager.release_peer(self.id);
                self.choked = true;
                self.in_flight = 0;
                self.state = SessionState::Idle;
                Ok(Outcome::Nothing)
            },
            Message::Unchoke => {
                self.choked = false;
                self.state = settled(self.in_flight);
                Ok(Outcome::Nothing)
            },
            Message::Have { index } => {
                set_piece(&mut self.bitfield, index as usize);
                self.state = settled(self.in_flight);
                Ok(Outcome::Nothing)
            },
            Message::Bitfield { bits } => {
                let least: usize = self.bitfield.len();
                let mut bits = bits;
                let ghost given = bits@;
                while bits.len() < least
                    invariant
                        given.len() <= bits@.len(),
                        bits@.subrange(0, given.len() as int) == given,
                        forall|k: int| given.len() <= k < bits@.len() ==> bits@[k] == 0,
                    decreases least - bits@.len(),
                {
                    let ghost prior = bits@;
                    bits.push(0);
                    assert(bits@.subrange(0, given.len() as int) =~= prior.subrange(
                        0,
                        given.len() as int,
                    ));
                }
                proof {
                    assert forall|i: int| bit_set(bits@, i) == bit_set(given, i) by {
                        if 0 <= i < 8 * bits@.len() {
                            if i / 8 < given.len() {
                                assert(bits@.subrange(0, given.len() as int)[i / 8] == bits@[i / 8]);
                            } else {
                                let m = crate::bitfield::bit_mask(i % 8);
                                assert(0u8 & m == 0) by (bit_vector);
                            }
                        }
                    }
                }
                self.bitfield = bits;
                self.state = settled(self.in_flight);
                Ok(Outcome::Nothing)
            },
            Message::Piece { index, begin, block } => {
                let at: usize = index as usize;
                match manager.receive_block(at, begin as usize, block.as_slice()) {
                    Ok(()) => {
                        if self.in_flight > 0 {
                            self.in_flight = self.in_flight - 1;
                        }
                        self.state = settled(self.in_flight);
                        assert(manager@.pieces[at as int] == manager.pieces@[at as int]@);
                        assert(before.pieces[at as int].verified == manager@.pieces[at as int].verified);
                        if !manager.pieces[at].verified && manager.is_complete(at) {
                            match manager.verify_piece(at) {
                                Ok(()) => Ok(Outcome::PieceVerified { index: at }),
                                Err(_) => Ok(Outcome::PieceRejected { index: at }),
                            }
                        } else {
                            Ok(Outcome::Nothing)
                        }
                    },
                    Err(e) => {
                        manager.release_peer(self.id);
                        self.state = SessionState::Closed;
                        self.in_flight = 0;
                        Err(e)
                    },
                }
            },
            _ => {
                self.state = settled(self.in_flight);
                Ok(Outcome::Nothing)
            },
        }
    }
}

/// The state of a session after the handshake, as the number of open
/// requests tells.
pub open spec fn settled_state(in_flight: usize) -> SessionState {
    if in_flight > 0 {
        SessionState::Requesting
    } else {
        SessionState::Idle
    }
}

/// The state of a session after the handshake, as the number of open
/// requests tells.
pub fn settled(in_flight: usize) -> (state: SessionState)
    ensures
        state == settled_state(in_flight),
{
    if in_flight > 0 {
        SessionState::Requesting
    } else {
        SessionState::Idle
    }
}

/// The manager after `block` arrived for the piece `index` from `begin`
/// on, within the piece: the bytes are stored, and if the piece is
/// complete with them and was not verified before, it is settled by the
/// digest of its bytes.
pub open spec fn after_piece(m: ManagerModel, index: int, begin: int, block: Seq<u8>) -> ManagerModel {
    let stored = m.store(index, begin, block);
    if !m.pieces[index].verified && all_blocks(stored.pieces[index].blocks, BlockState::Received) {
        stored.settle(index, sha1_of(stored.pieces[index].data))
    } else {
        stored
    }
}

/// What `after_piece` has to tell: whether a piece was settled, and how.
pub open spec fn piece_outcome(m: ManagerModel, index: int, begin: int, block: Seq<u8>) -> Outcome {
    let stored = m.store(index, begin, block);
    if !m.pieces[index].verified && all_blocks(stored.pieces[index].blocks, BlockState::Received) {
        if sha1_of(stored.pieces[index].data) == stored.expected(index) {
            Outcome::PieceVerified { index: index as usize }
        } else {
            Outcome::PieceRejected { index: index as usize }
        }
    } else {
        Outcome::Nothing
    }
}

/// What a message does to a session `s` whose handshake is done and to
/// the manager `m`: the session `s2` and the manager `m2` after it, and
/// what the caller is told.
pub open spec fn message_effect(
    s: PeerSession,
    m: ManagerModel,
    message: MessageModel,
    s2: PeerSession,
    m2: ManagerModel,
    r: Result<Outcome, TorrentError>,
) -> bool {
    match message {
        MessageModel::Choke => {
            &&& r == Ok::<Outcome, TorrentError>(Outcome::Nothing)
            &&& m2 == m.release(s.id)
            &&& s2.choked
            &&& s2.in_flight == 0
            &&& s2.state == SessionState::Idle
            &&& s2.bitfield == s.bitfield
        },
        MessageModel::Unchoke => {
            &&& r == Ok::<Outcome, TorrentError>(Outcome::Nothing)
            &&& m2 == m
            &&& !s2.choked
            &&& s2.in_flight == s.in_flight
            &&& s2.state == settled_state(s.in_flight)
            &&& s2.bitfield == s.bitfield
        },
        MessageModel::Have { index } => {
            &&& r == Ok::<Outcome, TorrentError>(Outcome::Nothing)
            &&& m2 == m
            &&& s2.choked == s.choked
            &&& s2.in_flight == s.in_flight
            &&& s2.state == settled_state(s.in_flight)
            &&& s2.bitfield@.len() == s.bitfield@.len()
            &&& forall|i: int|
                bit_set(s2.bitfield@, i) == (bit_set(s.bitfield@, i) || (i == index && index < 8
                    * s.bitfield@.len()))
        },
        MessageModel::Bitfield { bits } => {
            &&& r == Ok::<Outcome, TorrentError>(Outcome::Nothing)
            &&& m2 == m
            &&& s2.choked == s.choked
            &&& s2.in_flight == s.in_flight
            &&& s2.state == settled_state(s.in_flight)
            &&& s2.bitfield@.len() >= s.bitfield@.len()
            &&& forall|i: int| bit_set(s2.bitfield@, i) == bit_set(bits, i)
        },
        MessageModel::Piece { index, begin, block } => {
            if index < m.pieces.len() && begin + block.len() <= m.size(index as int) {
                &&& r == Ok::<Outcome, TorrentError>(
                    piece_outcome(m, index as int, begin as int, block),
                )
                &&& m2 == after_piece(m, index as int, begin as int, block)
                &&& s2.choked == s.choked
                &&& s2.in_flight == (if s.in_flight > 0 {
                    s.in_flight - 1
                } else {
                    0
                })
                &&& s2.state == settled_state(s2.in_flight)
                &&& s2.bitfield == s.bitfield
            } else {
                &&& r == Err::<Outcome, TorrentError>(TorrentError::ProtocolViolation)
                &&& m2 == m.release(s.id)
                &&& s2.choked == s.choked
                &&& s2.in_flight == 0
                &&& s2.state == SessionState::Closed
                &&& s2.bitfield == s.bitfield
            }
        },
        _ => {
            &&& r == Ok::<Outcome, TorrentError>(Outcome::Nothing)
            &&& m2 == m
            &&& s2.choked == s.choked
            &&& s2.in_flight == s.in_flight
            &&& s2.state == settled_state(s.in_flight)
            &&& s2.bitfield == s.bitfield
        },
    }
}

} // verus!
