use vstd::prelude::*;
use crate::bitfield::{bit_set, has_piece};
use crate::digest::{sha1_of, sha1_digest};
use crate::error::TorrentError;
use crate::metainfo::{
    InfoDict, info_wf, piece_count, piece_size, block_count, block_size, count_pieces,
    size_of_piece, lemma_piece_count, lemma_piece_size, BLOCK_SIZE, HASH_LEN,
};

verus! {

/// Where a block stands.
#[derive(Clone, Copy, Debug, PartialEq, Eq, Structural)]
pub enum BlockState {
    /// Nobody was asked for it, or whoever was asked is gone.
    Pending,
    /// The peer `peer` was asked for it.
    InFlight { peer: u64 },
    /// Its bytes are in the buffer of its piece.
    Received,
}

/// Where a piece stands.
#[derive(Clone, Copy, Debug, PartialEq, Eq, Structural)]
pub enum PieceState {
    /// None of its blocks was asked for.
    Pending,
    /// Some of its blocks were asked for or are here, not all are here.
    InFlight,
    /// All its blocks are here; its digest was not yet compared.
    Verifying,
    /// Its bytes have the digest that the metainfo file gives.
    Verified,
}

/// A block: the unit in which a peer is asked for data.
#[derive(Clone, Copy, Debug, PartialEq, Eq, Structural)]
pub struct Block {
    /// The piece it belongs to.
    pub piece_index: usize,
    /// Where in the piece it begins.
    pub begin: usize,
    /// The number of its bytes.
    pub length: usize,
}

/// A piece as the manager holds it.
#[derive(Clone, Debug, PartialEq, Eq)]
pub struct Piece {
    /// Where each of its blocks stands.
    pub blocks: Vec<BlockState>,
    /// The buffer in which its bytes are put together.
    pub data: Vec<u8>,
    /// Whether its bytes were found to have the expected digest.
    pub verified: bool,
}

/// The state of a download: every piece and every block of it.
#[derive(Clone, Debug, PartialEq, Eq)]
pub struct PieceManager {
    /// The number of bytes in each piece but the last.
    pub piece_length: usize,
    /// The number of bytes in the file.
    pub total_length: usize,
    /// The expected digests of the pieces, 20 bytes each.
    pub hashes: Vec<u8>,
    /// The pieces, in order.
    pub pieces: Vec<Piece>,
}

/// A piece as the manager holds it, as a model.
pub struct PieceModel {
    pub blocks: Seq<BlockState>,
    pub data: Seq<u8>,
    pub verified: bool,
}

/// The state of a download, as a model.
pub struct ManagerModel {
    pub piece_length: nat,
    pub total_length: nat,
    pub hashes: Seq<u8>,
    pub pieces: Seq<PieceModel>,
}

impl View for Piece {
    type V = PieceModel;

    open spec fn view(&self) -> PieceModel {
        PieceModel { blocks: self.blocks@, data: self.data@, verified: self.verified }
    }
}

impl View for PieceManager {
    type V = ManagerModel;

    open spec fn view(&self) -> ManagerModel {
        ManagerModel {
            piece_length: self.piece_length as nat,
            total_length: self.total_length as nat,
            hashes: self.hashes@,
            pieces: Seq::new(self.pieces@.len(), |i: int| self.pieces@[i]@),
        }
    }
}

/// Whether every block of `blocks` is in the state `state`.
pub open spec fn all_blocks(blocks: Seq<BlockState>, state: BlockState) -> bool {
    forall|j: int| 0 <= j < blocks.len() ==> #[trigger] blocks[j] == state
}

/// Where a piece stands, as its blocks tell.
pub open spec fn piece_state_of(piece: PieceModel) -> PieceState {
    if piece.verified {
        PieceState::Verified
    } else if all_blocks(piece.blocks, BlockState::Received) {
        PieceState::Verifying
    } else if all_blocks(piece.blocks, BlockState::Pending) {
        PieceState::Pending
    } else {
        PieceState::InFlight
    }
}

impl ManagerModel {
    /// The number of pieces.
    pub open spec fn count(self) -> nat {
        piece_count(self.total_length, self.piece_length)
    }

    /// The size of the piece `index`.
    pub open spec fn size(self, index: int) -> nat {
        piece_size(self.total_length, self.piece_length, index as nat)
    }

    /// The digest that the metainfo file gives for the piece `index`.
    pub open spec fn expected(self, index: int) -> Seq<u8> {
        self.hashes.subrange(HASH_LEN * index, HASH_LEN * index + HASH_LEN)
    }

    /// Whether the piece `index` is held as it should be: with a buffer
    /// of its size and a state for each of its blocks, all of them
    /// received if it counts as verified.
    pub open spec fn piece_wf(self, index: int) -> bool {
        let piece = self.pieces[index];
        &&& piece.data.len() == self.size(index)
        &&& piece.blocks.len() == block_count(self.size(index))
        &&& piece.verified ==> all_blocks(piece.blocks, BlockState::Received)
    }

    /// Whether the state is consistent.
    pub open spec fn wf(self) -> bool {
        &&& self.piece_length > 0
        &&& self.hashes.len() == HASH_LEN * self.count()
        &&& self.pieces.len() == self.count()
        &&& forall|i: int| 0 <= i < self.pieces.len() ==> #[trigger] self.piece_wf(i)
    }

    /// Whether every piece that counts as verified has the digest that
    /// the metainfo file gives for it.
    pub open spec fn sound(self) -> bool {
        forall|i: int|
            0 <= i < self.pieces.len() && (#[trigger] self.pieces[i]).verified ==> sha1_of(
                self.pieces[i].data,
            ) == self.expected(i)
    }

    /// Whether all pieces are verified.
    pub open spec fn done(self) -> bool {
        forall|i: int| 0 <= i < self.pieces.len() ==> (#[trigger] self.pieces[i]).verified
    }

    /// Whether the block `block` of the piece `index` can be handed to a
    /// peer with the bitfield `bits`: it is pending, and the peer claims
    /// the piece.
    pub open spec fn assignable(self, bits: Seq<u8>, index: int, block: int) -> bool {
        &&& 0 <= index < self.pieces.len()
        &&& 0 <= block < self.pieces[index].blocks.len()
        &&& bit_set(bits, index)
        &&& self.pieces[index].blocks[block] == BlockState::Pending
    }

    /// The state with the block `block` of the piece `index` in the
    /// state `state`.
    pub open spec fn set_block(self, index: int, block: int, state: BlockState) -> ManagerModel {
        ManagerModel {
            pieces: self.pieces.update(
                index,
                PieceModel {
                    blocks: self.pieces[index].blocks.update(block, state),
                    ..self.pieces[index]
                },
            ),
            ..self
        }
    }

    /// The state after the peer `peer` is gone: every block that it was
    /// asked for is pending again.
    pub open spec fn release(self, peer: u64) -> ManagerModel {
        ManagerModel {
            pieces: Seq::new(
                self.pieces.len(),
                |i: int|
                    PieceModel {
                        blocks: Seq::new(
                            self.pieces[i].blocks.len(),
                            |j: int|
                                if self.pieces[i].blocks[j] == (BlockState::InFlight { peer }) {
                                    BlockState::Pending
                                } else {
                                    self.pieces[i].blocks[j]
                                },
                        ),
                        ..self.pieces[i]
                    },
            ),
            ..self
        }
    }

    /// Whether `length` bytes from `begin` on are exactly one block of
    /// the piece `index`.
    pub open spec fn is_block(self, index: int, begin: int, length: int) -> bool {
        begin % (BLOCK_SIZE as int) == 0 && begin / (BLOCK_SIZE as int) < block_count(
            self.size(index),
        ) && length == block_size(self.size(index), (begin / (BLOCK_SIZE as int)) as nat)
    }

    /// The state after `bytes` arrived for the piece `index` from
    /// `begin` on: they stand in its buffer, and if they are exactly one
    /// block, that block is received. A verified piece stays as it is.
    pub open spec fn store(self, index: int, begin: int, bytes: Seq<u8>) -> ManagerModel {
        let piece = self.pieces[index];
        if piece.verified {
            self
        } else {
            ManagerModel {
                pieces: self.pieces.update(
                    index,
                    PieceModel {
                        blocks: if self.is_block(index, begin, bytes.len() as int) {
                            piece.blocks.update(begin / (BLOCK_SIZE as int), BlockState::Received)
                        } else {
                            piece.blocks
                        },
                        data: piece.data.subrange(0, begin) + bytes + piece.data.subrange(
                            begin + bytes.len(),
                            piece.data.len() as int,
                        ),
                        verified: false,
                    },
                ),
                ..self
            }
        }
    }

    /// The state after the digest `digest` was found for the bytes of
    /// the piece `index`: the piece is verified if that is the expected
    /// digest, and otherwise all its blocks are pending again.
    pub open spec fn settle(self, index: int, digest: Seq<u8>) -> ManagerModel {
        let piece = self.pieces[index];
        ManagerModel {
            pieces: self.pieces.update(
                index,
                if digest == self.expected(index) {
                    PieceModel { verified: true, ..piece }
                } else {
                    PieceModel {
                        blocks: Seq::new(piece.blocks.len(), |j: int| BlockState::Pending),
                        verified: false,
                        ..piece
                    }
                },
            ),
            ..self
        }
    }

    /// The bytes of the first `n` pieces, one piece after another.
    pub open spec fn joined(self, n: nat) -> Seq<u8>
        decreases n,
    {
        if n == 0 || n > self.pieces.len() {
            Seq::empty()
        } else {
            self.joined((n - 1) as nat) + self.pieces[n - 1].data
        }
    }
}

impl PieceManager {
    /// A manager for the file that `info` describes: every block of
    /// every piece is pending.
    pub fn new(info: &InfoDict) -> (manager: PieceManager)
        requires
            info_wf(info@),
        ensures
            manager@.wf(),
            manager@.sound(),
            manager@.piece_length == info.piece_length,
            manager@.total_length == info.total_length,
            manager@.hashes == info.pieces@,
            forall|i: int|
                0 <= i < manager@.pieces.len() ==> piece_state_of(#[trigger] manager@.pieces[i])
                    == PieceState::Pending,
    {
        let count: usize = count_pieces(info.total_length, info.piece_length);
        let mut manager = PieceManager {
            piece_length: info.piece_length,
            total_length: info.total_length,
            hashes: vstd::slice::slice_to_vec(info.pieces.as_slice()),
            pieces: Vec::new(),
        };
        let mut i: usize = 0;
        while i < count
            invariant
                0 <= i <= count,
                count == manager@.count(),
                manager.piece_length == info.piece_length,
                manager.total_length == info.total_length,
                manager.hashes@ == info.pieces@,
                manager.piece_length > 0,
                manager.pieces@.len() == i,
                forall|k: int| 0 <= k < i ==> #[trigger] manager@.piece_wf(k),
                forall|k: int|
                    0 <= k < i ==> !(#[trigger] manager@.pieces[k]).verified && all_blocks(
                        manager@.pieces[k].blocks,
                        BlockState::Pending,
                    ),
            decreases count - i,
        {
            let size: usize = size_of_piece(info.total_length, info.piece_length, i);
            let block_total: usize = count_pieces(size, BLOCK_SIZE);
            let mut blocks: Vec<BlockState> = Vec::new();
            let mut j: usize = 0;
            while j < block_total
                invariant
                    0 <= j <= block_total,
                    blocks@.len() == j,
                    all_blocks(blocks@, BlockState::Pending),
                decreases block_total - j,
            {
                blocks.push(BlockState::Pending);
                j = j + 1;
            }
            let mut data: Vec<u8> = Vec::new();
            let mut n: usize = 0;
            while n < size
                invariant
                    0 <= n <= size,
                    data@.len() == n,
                decreases size - n,
            {
                data.push(0);
                n = n + 1;
            }
            let ghost before = manager@;
            manager.pieces.push(Piece { blocks, data, verified: false });
            proof {
                assert forall|k: int| 0 <= k < i + 1 implies #[trigger] manager@.piece_wf(k) by {
                    if k < i {
                        assert(before.piece_wf(k));
                        assert(manager@.pieces[k] == before.pieces[k]);
                    }
                }
                assert forall|k: int| 0 <= k < i + 1 implies !(#[trigger] manager@.pieces[k]).verified
                    && all_blocks(manager@.pieces[k].blocks, BlockState::Pending) by {
                    if k < i {
                        assert(manager@.pieces[k] == before.pieces[k]);
                    }
                }
            }
            i = i + 1;
        }
        proof {
            assert forall|k: int| 0 <= k < manager@.pieces.len() implies piece_state_of(
                #[trigger] manager@.pieces[k],
            ) == PieceState::Pending by {
                lemma_piece_size(manager@.total_length, manager@.piece_length, k as nat);
                assert(manager@.piece_wf(k));
                assert(manager@.pieces[k].blocks[0] == BlockState::Pending);
            }
        }
        manager
    }

    /// The number of pieces.
    pub fn num_pieces(&self) -> (n: usize)
        ensures
            n == self@.pieces.len(),
    {
        self.pieces.len()
    }

    /// Hands the next block to the peer `peer`, whose bitfield is
    /// `bits`: the first pending block, in the order of pieces and
    /// blocks, of a piece that the peer claims to have. The block is
    /// then in flight with that peer. Nothing changes where there is no
    /// such block.
    pub fn next_block(&mut self, peer: u64, bits: &[u8]) -> (r: Option<Block>)
        requires
            old(self)@.wf(),
        ensures
            final(self)@.wf(),
            old(self)@.sound() ==> final(self)@.sound(),
            match r {
                Some(b) => {
                    let j = b.begin as int / (BLOCK_SIZE as int);
                    &&& old(self)@.assignable(bits@, b.piece_index as int, j)
                    &&& b.begin == j * BLOCK_SIZE
                    &&& b.length == block_size(old(self)@.size(b.piece_index as int), j as nat)
                    &&& forall|i2: int, j2: int|
                        i2 < b.piece_index || (i2 == b.piece_index && j2 < j) ==> !#[trigger] old(
                            self,
                        )@.assignable(bits@, i2, j2)
                    &&& final(self)@ == old(self)@.set_block(
                        b.piece_index as int,
                        j,
                        BlockState::InFlight { peer },
                    )
                },
                None => final(self)@ == old(self)@ && forall|i: int, j: int|
                    !#[trigger] old(self)@.assignable(bits@, i, j),
            },
    {
        let ghost before = self@;
        let mut i: usize = 0;
        while i < self.pieces.len()
            invariant
                0 <= i <= self.pieces@.len(),
                self@ == before,
                before == old(self)@,
                before.wf(),
                forall|i2: int, j2: int| i2 < i ==> !#[trigger] before.assignable(bits@, i2, j2),
            decreases self.pieces@.len() - i,
        {
            if has_piece(bits, i) {
                let mut j: usize = 0;
                while j < self.pieces[i].blocks.len()
                    invariant
                        0 <= i < self.pieces@.len(),
                        0 <= j <= self.pieces@[i as int].blocks@.len(),
                        self@ == before,
                        before == old(self)@,
                        before.wf(),
                        bit_set(bits@, i as int),
                        forall|i2: int, j2: int|
                            i2 < i || (i2 == i && j2 < j) ==> !#[trigger] before.assignable(
                                bits@,
                                i2,
                                j2,
                            ),
                    decreases self.pieces@[i as int].blocks@.len() - j,
                {
                    assert(before.pieces[i as int] == self.pieces@[i as int]@);
                    if self.pieces[i].blocks[j] == BlockState::Pending {
                        proof {
                            assert(before.piece_wf(i as int));
                            lemma_piece_size(before.total_length, before.piece_length, i as nat);
                            lemma_block_begin(before.size(i as int), j as nat);
                        }
                        let size: usize = self.pieces[i].data.len();
                        let begin: usize = j * BLOCK_SIZE;
                        let length: usize = size_of_piece(size, BLOCK_SIZE, j);
                        self.pieces[i].blocks[j] = BlockState::InFlight { peer };
                        proof {
                            let after = before.set_block(
                                i as int,
                                j as int,
                                BlockState::InFlight { peer },
                            );
                            assert(self@.pieces =~= after.pieces);
                            assert forall|k: int| 0 <= k < after.pieces.len() implies #[trigger] after.piece_wf(k) by {
                                assert(before.piece_wf(k));
                            }
                            assert(begin as int / (BLOCK_SIZE as int) == j);
                        }
                        return Some(Block { piece_index: i, begin, length });
                    }
                    j = j + 1;
                }
            }
            i = i + 1;
        }
        None
    }

    /// Takes the bytes that a peer sent for the piece `index` from
    /// `begin` on. They are put into the buffer of the piece if they lie
    /// within it; bytes that do not break the protocol. Bytes that are
    /// exactly one block make that block received.
    pub fn receive_block(&mut self, index: usize, begin: usize, bytes: &[u8]) -> (r: Result<
        (),
        TorrentError,
    >)
        requires
            old(self)@.wf(),
        ensures
            final(self)@.wf(),
            index < old(self)@.pieces.len() && begin + bytes@.len() <= old(self)@.size(index as int)
                ==> r is Ok && final(self)@ == old(self)@.store(index as int, begin as int, bytes@),
            !(index < old(self)@.pieces.len() && begin + bytes@.len() <= old(self)@.size(
                index as int,
            )) ==> (r matches Err(e) && e == TorrentError::ProtocolViolation) && final(self)@
                == old(self)@,
            old(self)@.sound() ==> final(self)@.sound(),
    {
        let ghost before = self@;
        if index >= self.pieces.len() {
            return Err(TorrentError::ProtocolViolation);
        }
        assert(before.piece_wf(index as int));
        assert(before.pieces[index as int] == self.pieces@[index as int]@);
        let size: usize = self.pieces[index].data.len();
        let len: usize = bytes.len();
        if begin > size || len > size - begin {
            return Err(TorrentError::ProtocolViolation);
        }
        if self.pieces[index].verified {
            return Ok(());
        }
        let mut k: usize = 0;
        while k < len
            invariant
                0 <= k <= len,
                len == bytes@.len(),
                index < self.pieces@.len(),
                begin + len <= size,
                self.pieces@.len() == before.pieces.len(),
                self.piece_length == before.piece_length,
                self.total_length == before.total_length,
                self.hashes@ == before.hashes,
                forall|i: int|
                    0 <= i < self.pieces@.len() && i != index ==> self.pieces@[i] == old(
                        self,
                    ).pieces@[i],
                before == old(self)@,
                self.pieces@[index as int].blocks@ == before.pieces[index as int].blocks,
                self.pieces@[index as int].verified == false,
                self.pieces@[index as int].data@.len() == size,
                forall|n: int|
                    0 <= n < size ==> self.pieces@[index as int].data@[n] == (if begin <= n < begin
                        + k {
                        bytes@[n - begin]
                    } else {
                        before.pieces[index as int].data[n]
                    }),
            decreases len - k,
        {
            self.pieces[index].data[begin + k] = bytes[k];
            k = k + 1;
        }
        let block: usize = begin / BLOCK_SIZE;
        let mut whole: bool = false;
        if begin % BLOCK_SIZE == 0 && block < self.pieces[index].blocks.len() {
            let expected: usize = size_of_piece(size, BLOCK_SIZE, block);
            whole = len == expected;
        }
        if whole {
            self.pieces[index].blocks[block] = BlockState::Received;
        }
        proof {
            let after = before.store(index as int, begin as int, bytes@);
            assert(self@.pieces[index as int].data =~= after.pieces[index as int].data);
            assert(self@.pieces[index as int].blocks =~= after.pieces[index as int].blocks);
            assert(self@.pieces =~= after.pieces);
            assert forall|i: int| 0 <= i < after.pieces.len() implies #[trigger] after.piece_wf(i) by {
                assert(before.piece_wf(i));
            }
            assert(before.sound() ==> after.sound()) by {
                if before.sound() {
                    assert forall|i: int|
                        0 <= i < after.pieces.len() && (#[trigger] after.pieces[i]).verified implies sha1_of(
                        after.pieces[i].data,
                    ) == after.expected(i) by {
                        assert(before.pieces[i].verified);
                    }
                }
            }
        }
        Ok(())
    }

    /// Where the piece `index` stands.
    pub fn piece_state(&self, index: usize) -> (state: PieceState)
        requires
            index < self@.pieces.len(),
        ensures
            state == piece_state_of(self@.pieces[index as int]),
    {
        let piece = &self.pieces[index];
        assert(self@.pieces[index as int] == piece@);
        if piece.verified {
            return PieceState::Verified;
        }
        let mut received: bool = true;
        let mut pending: bool = true;
        let mut j: usize = 0;
        while j < piece.blocks.len()
            invariant
                0 <= j <= piece.blocks@.len(),
                received == all_blocks(piece.blocks@.take(j as int), BlockState::Received),
                pending == all_blocks(piece.blocks@.take(j as int), BlockState::Pending),
            decreases piece.blocks@.len() - j,
        {
            let ghost front = piece.blocks@.take(j as int);
            let ghost more = piece.blocks@.take(j + 1);
            assert(forall|n: int| 0 <= n < j ==> front[n] == more[n]);
            assert(more[j as int] == piece.blocks@[j as int]);
            match piece.blocks[j] {
                BlockState::Pending => {
                    received = false;
                },
                BlockState::InFlight { peer: _ } => {
                    received = false;
                    pending = false;
                },
                BlockState::Received => {
                    pending = false;
                },
            }
            j = j + 1;
        }
        assert(piece.blocks@.take(j as int) =~= piece.blocks@);
        if received {
            PieceState::Verifying
        } else if pending {
            PieceState::Pending
        } else {
            PieceState::InFlight
        }
    }

    /// Whether all blocks of the piece `index` are here.
    pub fn is_complete(&self, index: usize) -> (r: bool)
        requires
            index < self@.pieces.len(),
        ensures
            r == all_blocks(self@.pieces[index as int].blocks, BlockState::Received),
    {
        let piece = &self.pieces[index];
        assert(self@.pieces[index as int] == piece@);
        let mut j: usize = 0;
        while j < piece.blocks.len()
            invariant
                0 <= j <= piece.blocks@.len(),
                self@.pieces[index as int] == piece@,
                index < self@.pieces.len(),
                forall|n: int| 0 <= n < j ==> piece.blocks@[n] == BlockState::Received,
            decreases piece.blocks@.len() - j,
        {
            match piece.blocks[j] {
                BlockState::Received => {},
                _ => {
                    assert(self@.pieces[index as int].blocks[j as int] != BlockState::Received);
                    return false;
                },
            }
            j = j + 1;
        }
        true
    }

    /// Settles the piece `index`, all of whose blocks are here, by the
    /// digest that was computed of its bytes: the piece is verified if
    /// that is the digest that the metainfo file gives for it;
    /// otherwise every block of the piece is pending again, to be
    /// fetched anew.
    pub fn settle_piece(&mut self, index: usize, digest: &[u8; 20]) -> (r: Result<(), TorrentError>)
        requires
            old(self)@.wf(),
            index < old(self)@.pieces.len(),
            all_blocks(old(self)@.pieces[index as int].blocks, BlockState::Received),
        ensures
            final(self)@.wf(),
            final(self)@ == old(self)@.settle(index as int, digest@),
            digest@ == old(self)@.expected(index as int) ==> r is Ok && piece_state_of(
                final(self)@.pieces[index as int],
            ) == PieceState::Verified,
            digest@ != old(self)@.expected(index as int) ==> (r matches Err(e) && e
                == TorrentError::VerificationError) && piece_state_of(
                final(self)@.pieces[index as int],
            ) == PieceState::Pending,
            old(self)@.sound() && digest@ == sha1_of(old(self)@.pieces[index as int].data)
                ==> final(self)@.sound(),
    {
        let ghost before = self@;
        proof {
            assert(before.piece_wf(index as int));
            assert(before.pieces[index as int] == self.pieces@[index as int]@);
            lemma_piece_count(before.total_length, before.piece_length);
            lemma_piece_size(before.total_length, before.piece_length, index as nat);
        }
        let room: usize = self.hashes.len();
        assert(room == HASH_LEN * before.pieces.len());
        assert(HASH_LEN * index + HASH_LEN <= room);
        let base: usize = HASH_LEN * index;
        let mut same: bool = true;
        let mut k: usize = 0;
        while k < HASH_LEN
            invariant
                0 <= k <= HASH_LEN,
                base == HASH_LEN * index,
                base + HASH_LEN <= room,
                room == self.hashes@.len(),
                same == (forall|n: int| 0 <= n < k ==> self.hashes@[base + n] == digest@[n]),
            decreases HASH_LEN - k,
        {
            if self.hashes[base + k] != digest[k] {
                same = false;
            }
            k = k + 1;
        }
        proof {
            let expected = before.expected(index as int);
            if same {
                assert(digest@ =~= expected);
            } else {
                let n = choose|n: int| 0 <= n < HASH_LEN && self.hashes@[base + n] != digest@[n];
                assert(expected[n] == self.hashes@[base + n]);
            }
        }
        if same {
            self.pieces[index].verified = true;
        } else {
            self.pieces[index].verified = false;
            let mut j: usize = 0;
            while j < self.pieces[index].blocks.len()
                invariant
                    index < self.pieces@.len(),
                    0 <= j <= self.pieces@[index as int].blocks@.len(),
                    self.pieces@.len() == before.pieces.len(),
                    self.piece_length == before.piece_length,
                    self.total_length == before.total_length,
                    self.hashes@ == before.hashes,
                    before == old(self)@,
                    forall|i: int|
                        0 <= i < self.pieces@.len() && i != index ==> self.pieces@[i] == old(
                            self,
                        ).pieces@[i],
                    self.pieces@[index as int].data@ == before.pieces[index as int].data,
                    self.pieces@[index as int].verified == false,
                    self.pieces@[index as int].blocks@.len() == before.pieces[index as int].blocks.len(),
                    forall|n: int| 0 <= n < j ==> self.pieces@[index as int].blocks@[n] == BlockState::Pending,
                decreases self.pieces@[index as int].blocks@.len() - j,
            {
                self.pieces[index].blocks[j] = BlockState::Pending;
                j = j + 1;
            }
        }
        proof {
            let after = before.settle(index as int, digest@);
            assert(self@.pieces[index as int].blocks =~= after.pieces[index as int].blocks);
            assert(self@.pieces =~= after.pieces);
            assert forall|i: int| 0 <= i < after.pieces.len() implies #[trigger] after.piece_wf(i) by {
                assert(before.piece_wf(i));
            }
            if !same {
                assert(after.pieces[index as int].blocks[0] == BlockState::Pending);
            }
            if before.sound() && digest@ == sha1_of(before.pieces[index as int].data) {
                assert forall|i: int|
                    0 <= i < after.pieces.len() && (#[trigger] after.pieces[i]).verified implies sha1_of(
                    after.pieces[i].data,
                ) == after.expected(i) by {
                    if i != index {
                        assert(before.pieces[i].verified);
                    }
                }
            }
        }
        if same {
            Ok(())
        } else {
            Err(TorrentError::VerificationError)
        }
    }

    /// Verifies the piece `index`, all of whose blocks are here: takes
    /// the SHA-1 digest of its bytes and settles the piece by it.
    pub fn verify_piece(&mut self, index: usize) -> (r: Result<(), TorrentError>)
        requires
            old(self)@.wf(),
            index < old(self)@.pieces.len(),
            all_blocks(old(self)@.pieces[index as int].blocks, BlockState::Received),
        ensures
            final(self)@.wf(),
            final(self)@ == old(self)@.settle(
                index as int,
                sha1_of(old(self)@.pieces[index as int].data),
            ),
            sha1_of(old(self)@.pieces[index as int].data) == old(self)@.expected(index as int)
                ==> r is Ok && piece_state_of(final(self)@.pieces[index as int])
                == PieceState::Verified,
            sha1_of(old(self)@.pieces[index as int].data) != old(self)@.expected(index as int)
                ==> (r matches Err(e) && e == TorrentError::VerificationError) && piece_state_of(
                final(self)@.pieces[index as int],
            ) == PieceState::Pending,
            old(self)@.sound() ==> final(self)@.sound(),
    {
        assert(self@.pieces[index as int] == self.pieces@[index as int]@);
        let digest = sha1_digest(self.pieces[index].data.as_slice());
        self.settle_piece(index, &digest)
    }

    /// Takes back what the peer `peer` was asked for, when it is gone or
    /// chokes: each of its blocks in flight is pending again.
    pub fn release_peer(&mut self, peer: u64)
        requires
            old(self)@.wf(),
        ensures
            final(self)@.wf(),
            final(self)@ == old(self)@.release(peer),
            old(self)@.sound() ==> final(self)@.sound(),
    {
        let ghost before = self@;
        let ghost goal = before.release(peer);
        let mut i: usize = 0;
        while i < self.pieces.len()
            invariant
                0 <= i <= self.pieces@.len(),
                before == old(self)@,
                goal == before.release(peer),
                self.pieces@.len() == before.pieces.len(),
                self.piece_length == before.piece_length,
                self.total_length == before.total_length,
                self.hashes@ == before.hashes,
                forall|k: int| 0 <= k < i ==> (#[trigger] self.pieces@[k])@ == goal.pieces[k],
                forall|k: int|
                    i <= k < self.pieces@.len() ==> (#[trigger] self.pieces@[k])@
                        == before.pieces[k],
            decreases self.pieces@.len() - i,
        {
            let mut j: usize = 0;
            while j < self.pieces[i].blocks.len()
                invariant
                    0 <= i < self.pieces@.len(),
                    0 <= j <= self.pieces@[i as int].blocks@.len(),
                    before == old(self)@,
                    goal == before.release(peer),
                    self.pieces@.len() == before.pieces.len(),
                    self.piece_length == before.piece_length,
                    self.total_length == before.total_length,
                    self.hashes@ == before.hashes,
                    forall|k: int| 0 <= k < i ==> (#[trigger] self.pieces@[k])@ == goal.pieces[k],
                    forall|k: int|
                        i < k < self.pieces@.len() ==> (#[trigger] self.pieces@[k])@
                            == before.pieces[k],
                    self.pieces@[i as int].data@ == before.pieces[i as int].data,
                    self.pieces@[i as int].verified == before.pieces[i as int].verified,
                    self.pieces@[i as int].blocks@.len() == before.pieces[i as int].blocks.len(),
                    forall|n: int|
                        0 <= n < j ==> self.pieces@[i as int].blocks@[n] == goal.pieces[i as int].blocks[n],
                    forall|n: int|
                        j <= n < self.pieces@[i as int].blocks@.len() ==> self.pieces@[i as int].blocks@[n]
                            == before.pieces[i as int].blocks[n],
                decreases self.pieces@[i as int].blocks@.len() - j,
            {
                let gone: bool = match self.pieces[i].blocks[j] {
                    BlockState::InFlight { peer: holder } => holder == peer,
                    _ => false,
                };
                if gone {
                    self.pieces[i].blocks[j] = BlockState::Pending;
                }
                j = j + 1;
            }
            assert(self.pieces@[i as int]@.blocks =~= goal.pieces[i as int].blocks);
            i = i + 1;
        }
        proof {
            assert(self@.pieces =~= goal.pieces);
            assert forall|k: int| 0 <= k < goal.pieces.len() implies #[trigger] goal.piece_wf(k) by {
                assert(before.piece_wf(k));
                if goal.pieces[k].verified {
                    assert forall|n: int| 0 <= n < goal.pieces[k].blocks.len() implies #[trigger] goal.pieces[k].blocks[n]
                        == BlockState::Received by {
                        assert(before.pieces[k].blocks[n] == BlockState::Received);
                    }
                }
            }
            if before.sound() {
                assert forall|k: int|
                    0 <= k < goal.pieces.len() && (#[trigger] goal.pieces[k]).verified implies sha1_of(
                    goal.pieces[k].data,
                ) == goal.expected(k) by {
                    assert(before.pieces[k].verified);
                }
            }
        }
    }

    /// Whether all pieces are verified.
    pub fn is_done(&self) -> (r: bool)
        ensures
            r == self@.done(),
    {
        let mut i: usize = 0;
        while i < self.pieces.len()
            invariant
                0 <= i <= self.pieces@.len(),
                forall|k: int| 0 <= k < i ==> (#[trigger] self@.pieces[k]).verified,
            decreases self.pieces@.len() - i,
        {
            assert(self@.pieces[i as int] == self.pieces@[i as int]@);
            if !self.pieces[i].verified {
                return false;
            }
            i = i + 1;
        }
        true
    }

    /// The file, once all pieces are verified: the bytes of the pieces
    /// in order. Before that the download is incomplete.
    pub fn assemble(&self) -> (r: Result<Vec<u8>, TorrentError>)
        ensures
            self@.done() ==> (r matches Ok(bytes) && bytes@ == self@.joined(self@.pieces.len())),
            !self@.done() ==> (r matches Err(e) && e == TorrentError::DownloadIncomplete),
    {
        if !self.is_done() {
            return Err(TorrentError::DownloadIncomplete);
        }
        let mut bytes: Vec<u8> = Vec::new();
        let mut i: usize = 0;
        while i < self.pieces.len()
            invariant
                0 <= i <= self.pieces@.len(),
                bytes@ == self@.joined(i as nat),
            decreases self.pieces@.len() - i,
        {
            assert(self@.pieces[i as int] == self.pieces@[i as int]@);
            let ghost so_far = bytes@;
            bytes.extend_from_slice(self.pieces[i].data.as_slice());
            assert(bytes@ =~= so_far + self@.pieces[i as int].data);
            i = i + 1;
        }
        Ok(bytes)
    }

    /// How the download stands when `sessions_left` peers are still
    /// connected: the file if all pieces are verified; nothing yet if
    /// peers are left to fetch from; and a failure if none is left.
    pub fn finish(&self, sessions_left: usize) -> (r: Result<Option<Vec<u8>>, TorrentError>)
        ensures
            self@.done() ==> (r matches Ok(Some(bytes)) && bytes@ == self@.joined(
                self@.pieces.len(),
            )),
            !self@.done() && sessions_left > 0 ==> r matches Ok(None),
            !self@.done() && sessions_left == 0 ==> (r matches Err(e) && e
                == TorrentError::DownloadIncomplete),
    {
        match self.assemble() {
            Ok(bytes) => Ok(Some(bytes)),
            Err(e) => if sessions_left > 0 {
                Ok(None)
            } else {
                Err(e)
            },
        }
    }
}

/// The block `index` of a piece of `size` bytes begins within the piece.
pub proof fn lemma_block_begin(size: nat, index: nat)
    requires
        index < block_count(size),
    ensures
        index * BLOCK_SIZE < size,
        index * BLOCK_SIZE + block_size(size, index) <= size,
        0 < block_size(size, index) <= BLOCK_SIZE,
        (index * BLOCK_SIZE) as int / (BLOCK_SIZE as int) == index,
        (index * BLOCK_SIZE) as int % (BLOCK_SIZE as int) == 0,
{
    lemma_piece_count(size, BLOCK_SIZE as nat);
    lemma_piece_size(size, BLOCK_SIZE as nat, index);
    let count = block_count(size);
    assert(index * BLOCK_SIZE <= (count - 1) * BLOCK_SIZE) by (nonlinear_arith)
        requires
            index <= count - 1,
    ;
    assert((count - 1) * BLOCK_SIZE == BLOCK_SIZE * (count - 1)) by (nonlinear_arith);
}

/// A piece whose bytes do not have the expected digest is pending again
/// and not verified: each of its blocks can be handed to any peer that
/// claims the piece.
pub proof fn law_corrupt_piece_is_pending(
    m: ManagerModel,
    index: int,
    digest: Seq<u8>,
    bits: Seq<u8>,
    block: int,
)
    requires
        m.wf(),
        0 <= index < m.pieces.len(),
        digest != m.expected(index),
    ensures
        m.settle(index, digest).wf(),
        piece_state_of(m.settle(index, digest).pieces[index]) == PieceState::Pending,
        !m.settle(index, digest).pieces[index].verified,
        bit_set(bits, index) && 0 <= block < m.pieces[index].blocks.len() ==> m.settle(
            index,
            digest,
        ).assignable(bits, index, block),
{
    let after = m.settle(index, digest);
    assert(m.piece_wf(index));
    lemma_piece_size(m.total_length, m.piece_length, index as nat);
    assert(after.pieces[index].blocks[0] == BlockState::Pending);
    assert forall|i: int| 0 <= i < after.pieces.len() implies #[trigger] after.piece_wf(i) by {
        assert(m.piece_wf(i));
    }
}

/// When a peer is gone, none of the blocks is in flight with it any
/// more, and each block that was is pending: it can be handed to any
/// other peer that claims its piece. What other peers were asked for,
/// and what is here, stays.
pub proof fn law_released_blocks_assignable(
    m: ManagerModel,
    peer: u64,
    index: int,
    block: int,
    bits: Seq<u8>,
)
    requires
        m.wf(),
        0 <= index < m.pieces.len(),
        0 <= block < m.pieces[index].blocks.len(),
    ensures
        m.release(peer).wf(),
        m.release(peer).pieces[index].blocks[block] != (BlockState::InFlight { peer }),
        m.pieces[index].blocks[block] == (BlockState::InFlight { peer }) && bit_set(bits, index)
            ==> m.release(peer).assignable(bits, index, block),
        m.pieces[index].blocks[block] != (BlockState::InFlight { peer }) ==> m.release(
            peer,
        ).pieces[index].blocks[block] == m.pieces[index].blocks[block],
        m.release(peer).pieces[index].data == m.pieces[index].data,
        m.release(peer).pieces[index].verified == m.pieces[index].verified,
{
    let after = m.release(peer);
    assert forall|k: int| 0 <= k < after.pieces.len() implies #[trigger] after.piece_wf(k) by {
        assert(m.piece_wf(k));
        if after.pieces[k].verified {
            assert forall|n: int| 0 <= n < after.pieces[k].blocks.len() implies #[trigger] after.pieces[k].blocks[n]
                == BlockState::Received by {
                assert(m.pieces[k].blocks[n] == BlockState::Received);
            }
        }
    }
}

/// While the download is not done and no block is in flight, a peer
/// that claims every piece can be given work, or a piece waits to be
/// verified: the download is never stuck.
pub proof fn law_never_stuck(m: ManagerModel, bits: Seq<u8>)
    requires
        m.wf(),
        !m.done(),
        forall|i: int| 0 <= i < m.pieces.len() ==> bit_set(bits, i),
        forall|i: int, j: int|
            0 <= i < m.pieces.len() && 0 <= j < m.pieces[i].blocks.len() ==> !(
            #[trigger] m.pieces[i].blocks[j] is InFlight),
    ensures
        (exists|i: int, j: int| #[trigger] m.assignable(bits, i, j)) || (exists|i: int|
            0 <= i < m.pieces.len() && piece_state_of(#[trigger] m.pieces[i])
                == PieceState::Verifying),
{
    let i = choose|i: int| 0 <= i < m.pieces.len() && !(#[trigger] m.pieces[i]).verified;
    if all_blocks(m.pieces[i].blocks, BlockState::Received) {
        assert(piece_state_of(m.pieces[i]) == PieceState::Verifying);
    } else {
        let j = choose|j: int|
            0 <= j < m.pieces[i].blocks.len() && #[trigger] m.pieces[i].blocks[j]
                != BlockState::Received;
        assert(!(m.pieces[i].blocks[j] is InFlight));
        assert(m.assignable(bits, i, j));
    }
}

/// The first `n` pieces together have `n` times the piece length, and
/// all pieces together the length of the file.
pub proof fn law_joined_length(m: ManagerModel, n: nat)
    requires
        m.wf(),
        n <= m.pieces.len(),
    ensures
        n < m.pieces.len() ==> m.joined(n).len() == n * m.piece_length,
        n == m.pieces.len() ==> m.joined(n).len() == m.total_length,
    decreases n,
{
    lemma_piece_count(m.total_length, m.piece_length);
    if n > 0 {
        law_joined_length(m, (n - 1) as nat);
        assert(m.piece_wf(n - 1));
        assert(m.joined(n) == m.joined((n - 1) as nat) + m.pieces[n - 1].data);
        assert(m.joined((n - 1) as nat).len() == (n - 1) * m.piece_length);
        assert(m.pieces[n - 1].data.len() == m.size(n - 1));
        assert((n - 1) * m.piece_length + m.piece_length == n * m.piece_length)
            by (nonlinear_arith);
        assert((n - 1) * m.piece_length == m.piece_length * (n - 1)) by (nonlinear_arith);
    } else {
        assert(m.joined(0).len() == 0);
        assert(0 * m.piece_length == 0) by (nonlinear_arith);
    }
}

} // verus!
