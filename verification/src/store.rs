//! The slot store that holds the blocks of the tree.
//!
//! The blocks live in a `generational_arena::Arena`. Verus does not look
//! into that crate: this module declares the type, names what an arena
//! holds, and states what each arena operation used here does to it. These
//! statements are believed, not proved.

use crate::buddy::{Block, NodeId};
use generational_arena::{Arena, Index};
use vstd::prelude::*;

verus! {

/// `generational_arena::Arena`, opaque to the verifier.
#[verifier::external_type_specification]
#[verifier::external_body]
#[verifier::reject_recursive_types(T)]
pub struct ExArena<T>(Arena<T>);

/// What an arena holds: the block behind every reference that resolves in
/// it. A reference is the pair of raw parts of a `generational_arena::Index`,
/// its slot and its generation.
pub uninterp spec fn arena_blocks(arena: Arena<Block>) -> Map<NodeId, Block>;

/// `Arena::new`: an arena in which no reference resolves.
#[verifier::external_body]
pub(crate) fn arena_new() -> (fresh: Arena<Block>)
    ensures
        arena_blocks(fresh).dom() == Set::<NodeId>::empty(),
{
    Arena::new()
}

/// `Arena::insert`: stores `block` in a free slot and returns the reference
/// to it. The reference did not resolve before, and nothing else changes.
/// (As with a `Vec`, the arena grows on demand and aborts when memory runs
/// out.)
#[verifier::external_body]
pub(crate) fn arena_insert(arena: &mut Arena<Block>, block: Block) -> (id: NodeId)
    ensures
        !arena_blocks(*old(arena)).dom().contains(id),
        arena_blocks(*final(arena)) == arena_blocks(*old(arena)).insert(id, block),
{
    let (slot, generation) = arena.insert(block).into_raw_parts();
    NodeId { slot, generation }
}

/// `Arena::remove`: takes out the block behind `id` and returns it, or
/// returns `None` and changes nothing where `id` does not resolve.
#[verifier::external_body]
pub(crate) fn arena_remove(arena: &mut Arena<Block>, id: NodeId) -> (removed: Option<Block>)
    ensures
        arena_blocks(*old(arena)).dom().contains(id) ==> removed == Some(arena_blocks(*old(arena))[id]),
        !arena_blocks(*old(arena)).dom().contains(id) ==> removed is None,
        arena_blocks(*final(arena)) == arena_blocks(*old(arena)).remove(id),
{
    arena.remove(Index::from_raw_parts(id.slot, id.generation))
}

/// `Arena::get`: the block behind `id`, or `None` where `id` does not
/// resolve.
#[verifier::external_body]
pub(crate) fn arena_get(arena: &Arena<Block>, id: NodeId) -> (block: Option<&Block>)
    ensures
        arena_blocks(*arena).dom().contains(id) ==> block == Some(&arena_blocks(*arena)[id]),
        !arena_blocks(*arena).dom().contains(id) ==> block is None,
{
    arena.get(Index::from_raw_parts(id.slot, id.generation))
}

/// `IndexMut::index_mut` of `Arena`: the block behind `id`, to be changed in
/// place. Whatever the caller leaves in it is what the arena then holds
/// behind `id`; nothing else changes. It panics where `id` does not
/// resolve, so that is required.
#[verifier::external_body]
pub(crate) fn arena_block_mut(arena: &mut Arena<Block>, id: NodeId) -> (block: &mut Block)
    requires
        arena_blocks(*old(arena)).dom().contains(id),
    ensures
        *block == arena_blocks(*old(arena))[id],
        arena_blocks(*final(arena)) == arena_blocks(*old(arena)).insert(id, *final(block)),
{
    &mut arena[Index::from_raw_parts(id.slot, id.generation)]
}

} // verus!
