//! Properties that every lifted method body has.
use vstd::prelude::*;

use crate::code::{
    chunks_partition, exit_matches, jump_of, lemma_chunks_sorted, successor, Code, CodeChunk,
    CodeChunkTarget, JumpUnion,
};

verus! {

/// The number of instructions that the blocks hold, added up block by block.
pub open spec fn covered(chunks: Seq<CodeChunk>) -> int
    decreases chunks.len(),
{
    if chunks.len() == 0 {
        0
    } else {
        covered(chunks.drop_last()) + (chunks.last().stop - chunks.last().start)
    }
}

proof fn lemma_covered_prefix(chunks: Seq<CodeChunk>, n: int, m: int)
    requires
        chunks_partition(chunks, n),
        0 <= m <= chunks.len(),
    ensures
        covered(chunks.subrange(0, m)) == if m == 0 { 0 } else { chunks[m - 1].stop as int },
    decreases m,
{
    if m > 0 {
        lemma_covered_prefix(chunks, n, m - 1);
        assert(chunks.subrange(0, m).drop_last() =~= chunks.subrange(0, m - 1));
        if m > 1 {
            assert(chunks[m - 2].stop == chunks[m - 1].start);
        }
    }
}

/// The blocks of a lifted body split its instructions: the block lengths
/// add up to the number of instructions, and every block is non-empty and
/// ends no later than any later block starts.
pub proof fn lemma_blocks_partition(code: Code)
    requires
        code.wf(),
    ensures
        covered(code.code_chunks@) == code.code.len(),
        forall|k: int| 0 <= k < code.code_chunks.len() ==> #[trigger] code.code_chunks@[k].start < code.code_chunks@[k].stop,
        forall|i: int, j: int| 0 <= i < j < code.code_chunks.len()
            ==> #[trigger] code.code_chunks@[i].stop <= #[trigger] code.code_chunks@[j].start,
{
    let chunks = code.code_chunks@;
    let n = code.code.len() as int;
    lemma_covered_prefix(chunks, n, chunks.len() as int);
    assert(chunks.subrange(0, chunks.len() as int) =~= chunks);
    assert forall|i: int, j: int| 0 <= i < j < chunks.len() implies #[trigger] chunks[i].stop <= #[trigger] chunks[j].start by {
        lemma_chunks_sorted(chunks, n, i, j);
    }
}

/// A block that ends in a conditional branch has both of its edges: the
/// block it branches to, and the next block for the false edge.
pub proof fn lemma_conditional_edges(code: Code)
    requires
        code.wf(),
    ensures
        forall|c: int| 0 <= c < code.code_chunks.len() ==>
            ((#[trigger] code.code_chunks@[c]).target matches CodeChunkTarget::Condition { true_chunk_pos }
                ==> true_chunk_pos < code.code_chunks.len() && c + 1 < code.code_chunks.len()),
{
    assert forall|c: int| 0 <= c < code.code_chunks.len() implies
        ((#[trigger] code.code_chunks@[c]).target matches CodeChunkTarget::Condition { true_chunk_pos }
            ==> true_chunk_pos < code.code_chunks.len() && c + 1 < code.code_chunks.len()) by {
        assert(exit_matches(code.code_chunks@, code.code@, c));
    }
}

/// Every branch of a lifted body names an instruction of that body.
pub proof fn lemma_jumps_in_range(code: Code)
    requires
        code.wf(),
    ensures
        forall|k: int| 0 <= k < code.code.len() ==>
            (jump_of(#[trigger] code.code@[k].inst) matches Some(j)
                ==> j.union matches JumpUnion::Pos { jump_pos } && jump_pos < code.code.len()),
        forall|k: int| 0 <= k < code.code.len() ==> !(#[trigger] code.code@[k].inst is SwitchJump),
{
}

/// Every block is listed as a predecessor of each successor that its exit
/// names.
pub proof fn lemma_successors_list_block(code: Code)
    requires
        code.wf(),
    ensures
        forall|p: int, s: int|
            0 <= p < code.code_chunks.len() && 0 <= s < code.code_chunks.len()
                && #[trigger] successor(code.code_chunks@, p, s)
            ==> code.code_chunks@[s].source@.contains(p as u32),
{
}

} // verus!
