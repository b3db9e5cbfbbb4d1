use vstd::prelude::*;
use crate::manager::{BlockState, ManagerModel, PieceModel, all_blocks};
use crate::metainfo::BLOCK_SIZE;

verus! {

/// The steps that a block is away from being here: two while it is
/// pending, one while it is in flight.
pub open spec fn block_cost(state: BlockState) -> nat {
    match state {
        BlockState::Pending => 2,
        BlockState::InFlight { peer } => 1,
        BlockState::Received => 0,
    }
}

/// The steps that the first `n` blocks are away from being here.
pub open spec fn blocks_cost(blocks: Seq<BlockState>, n: nat) -> nat
    decreases n,
{
    if n == 0 || n > blocks.len() {
        0
    } else {
        blocks_cost(blocks, (n - 1) as nat) + block_cost(blocks[n - 1])
    }
}

/// The steps that a piece is away from being verified: those of its
/// blocks, and one for the verification.
pub open spec fn piece_cost(piece: PieceModel) -> nat {
    if piece.verified {
        0
    } else {
        1 + blocks_cost(piece.blocks, piece.blocks.len())
    }
}

/// The steps that the first `n` pieces are away from being verified.
pub open spec fn work_left(m: ManagerModel, n: nat) -> nat
    decreases n,
{
    if n == 0 || n > m.pieces.len() {
        0
    } else {
        work_left(m, (n - 1) as nat) + piece_cost(m.pieces[n - 1])
    }
}

/// What a change of one block does to the cost of the first `n` blocks.
pub proof fn lemma_blocks_cost_update(blocks: Seq<BlockState>, j: int, state: BlockState, n: nat)
    requires
        0 <= j < blocks.len(),
        n <= blocks.len(),
    ensures
        blocks_cost(blocks.update(j, state), n) == blocks_cost(blocks, n) + (if j < n {
            block_cost(state) - block_cost(blocks[j])
        } else {
            0
        }),
    decreases n,
{
    if n > 0 {
        lemma_blocks_cost_update(blocks, j, state, (n - 1) as nat);
    }
}

/// Blocks that are all here cost nothing, and only they.
pub proof fn lemma_blocks_cost_zero(blocks: Seq<BlockState>, n: nat)
    requires
        n <= blocks.len(),
    ensures
        blocks_cost(blocks, n) == 0 <==> forall|j: int|
            0 <= j < n ==> #[trigger] blocks[j] == BlockState::Received,
    decreases n,
{
    if n > 0 {
        lemma_blocks_cost_zero(blocks, (n - 1) as nat);
        if blocks_cost(blocks, n) == 0 {
            assert forall|j: int| 0 <= j < n implies #[trigger] blocks[j]
                == BlockState::Received by {
                if j == n - 1 {
                    assert(block_cost(blocks[j]) == 0);
                }
            }
        } else if blocks_cost(blocks, (n - 1) as nat) == 0 {
            assert(blocks[n - 1] != BlockState::Received);
        }
    }
}

/// What a change of one piece does to the work left in the first `n`
/// pieces.
pub proof fn lemma_work_update(m: ManagerModel, i: int, piece: PieceModel, n: nat)
    requires
        0 <= i < m.pieces.len(),
        n <= m.pieces.len(),
    ensures
        work_left(ManagerModel { pieces: m.pieces.update(i, piece), ..m }, n) == work_left(m, n) + (
        if i < n {
            piece_cost(piece) - piece_cost(m.pieces[i])
        } else {
            0
        }),
    decreases n,
{
    if n > 0 {
        lemma_work_update(m, i, piece, (n - 1) as nat);
    }
}

/// No work is left exactly when the download is done.
pub proof fn law_no_work_left_is_done(m: ManagerModel)
    ensures
        work_left(m, m.pieces.len()) == 0 <==> m.done(),
{
    lemma_work_zero(m, m.pieces.len());
}

/// No work is left in the first `n` pieces exactly when they are all
/// verified.
pub proof fn lemma_work_zero(m: ManagerModel, n: nat)
    requires
        n <= m.pieces.len(),
    ensures
        work_left(m, n) == 0 <==> forall|i: int| 0 <= i < n ==> (#[trigger] m.pieces[i]).verified,
    decreases n,
{
    if n > 0 {
        lemma_work_zero(m, (n - 1) as nat);
        if work_left(m, n) == 0 {
            assert forall|i: int| 0 <= i < n implies (#[trigger] m.pieces[i]).verified by {
                if i == n - 1 {
                    assert(piece_cost(m.pieces[i]) == 0);
                }
            }
        } else if work_left(m, (n - 1) as nat) == 0 {
            assert(!m.pieces[n - 1].verified);
        }
    }
}

/// Handing a pending block to a peer takes one step off the work left.
pub proof fn law_assigning_is_progress(m: ManagerModel, bits: Seq<u8>, index: int, block: int, peer: u64)
    requires
        m.wf(),
        m.assignable(bits, index, block),
    ensures
        work_left(m.set_block(index, block, BlockState::InFlight { peer }), m.pieces.len()) + 1
            == work_left(m, m.pieces.len()),
{
    let old_piece = m.pieces[index];
    let new_piece = PieceModel {
        blocks: old_piece.blocks.update(block, BlockState::InFlight { peer }),
        ..old_piece
    };
    assert(m.piece_wf(index));
    assert(!old_piece.verified) by {
        if old_piece.verified {
            assert(old_piece.blocks[block] == BlockState::Received);
        }
    }
    lemma_blocks_cost_update(
        old_piece.blocks,
        block,
        BlockState::InFlight { peer },
        old_piece.blocks.len(),
    );
    lemma_work_update(m, index, new_piece, m.pieces.len());
}

/// A block that arrives whole, for a piece that is not verified, and
/// that was not here before, takes at least one step off the work left.
pub proof fn law_receiving_is_progress(m: ManagerModel, index: int, block: int, bytes: Seq<u8>)
    requires
        m.wf(),
        0 <= index < m.pieces.len(),
        0 <= block < m.pieces[index].blocks.len(),
        !m.pieces[index].verified,
        m.pieces[index].blocks[block] != BlockState::Received,
        m.is_block(index, block * BLOCK_SIZE, bytes.len() as int),
    ensures
        work_left(m.store(index, block * BLOCK_SIZE, bytes), m.pieces.len()) < work_left(
            m,
            m.pieces.len(),
        ),
        m.store(index, block * BLOCK_SIZE, bytes).pieces[index].blocks[block]
            == BlockState::Received,
{
    let old_piece = m.pieces[index];
    let after = m.store(index, block * BLOCK_SIZE, bytes);
    assert((block * BLOCK_SIZE) / (BLOCK_SIZE as int) == block) by (nonlinear_arith);
    lemma_blocks_cost_update(old_piece.blocks, block, BlockState::Received, old_piece.blocks.len());
    lemma_work_update(m, index, after.pieces[index], m.pieces.len());
    assert(after.pieces =~= m.pieces.update(index, after.pieces[index]));
}

/// Settling a complete piece whose bytes have the expected digest takes
/// the last step off the work left in it.
pub proof fn law_verifying_is_progress(m: ManagerModel, index: int)
    requires
        m.wf(),
        0 <= index < m.pieces.len(),
        !m.pieces[index].verified,
        all_blocks(m.pieces[index].blocks, BlockState::Received),
    ensures
        work_left(m.settle(index, m.expected(index)), m.pieces.len()) + 1 == work_left(
            m,
            m.pieces.len(),
        ),
        m.settle(index, m.expected(index)).pieces[index].verified,
{
    let old_piece = m.pieces[index];
    let after = m.settle(index, m.expected(index));
    lemma_blocks_cost_zero(old_piece.blocks, old_piece.blocks.len());
    lemma_work_update(m, index, after.pieces[index], m.pieces.len());
    assert(after.pieces =~= m.pieces.update(index, after.pieces[index]));
}

/// Losing a peer loses nothing that is here: a piece that was verified
/// stays verified, the bytes in the buffers stay, and a block that was
/// received stays received.
pub proof fn law_release_keeps_what_is_here(m: ManagerModel, peer: u64, index: int)
    requires
        m.wf(),
        0 <= index < m.pieces.len(),
    ensures
        m.release(peer).pieces[index].verified == m.pieces[index].verified,
        m.release(peer).pieces[index].data == m.pieces[index].data,
        forall|j: int|
            0 <= j < m.pieces[index].blocks.len() && #[trigger] m.pieces[index].blocks[j]
                == BlockState::Received ==> m.release(peer).pieces[index].blocks[j]
                == BlockState::Received,
{
}

} // verus!
