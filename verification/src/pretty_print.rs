//! A read-only picture of the block tree, for inspection.

use crate::arena::BuddyBookkeeping;
use crate::buddy::{Block, BlockState, NodeId};
use crate::layout::{extent, project, rooted};
use crate::store::{arena_blocks, arena_get};
use generational_arena::Arena;
use std::ops::Range;
use vstd::prelude::*;

verus! {

/// The state of a block in the picture; a split block holds the pictures
/// of its halves.
#[derive(Debug)]
pub enum PrettyState {
    Split(Box<PrettyBlock>, Box<PrettyBlock>),
    Available,
    Occupied,
}

/// The picture of a block: its range and its state.
#[derive(Debug)]
pub struct PrettyBlock {
    pub range: Range<usize>,
    pub state: PrettyState,
}

/// The picture of the tree below and including `current`.
fn build(arena: &Arena<Block>, current: NodeId) -> (block: PrettyBlock)
    requires
        rooted(arena_blocks(*arena), current),
    ensures
        block == project(arena_blocks(*arena), current),
    decreases extent(arena_blocks(*arena)[current]),
{
    let node = arena_get(arena, current).unwrap();
    PrettyBlock {
        range: Range { start: node.range.start, end: node.range.end },
        state: match node.state {
            BlockState::Available => PrettyState::Available,
            BlockState::Occupied => PrettyState::Occupied,
            BlockState::Split(first, second) => PrettyState::Split(
                Box::new(build(arena, first)),
                Box::new(build(arena, second)),
            ),
        },
    }
}

/// The picture of the whole block tree. Drawing it changes nothing.
pub fn prettify(arena: &BuddyBookkeeping) -> (block: PrettyBlock)
    requires
        arena.wf(),
    ensures
        block == arena@,
{
    proof {
        arena.lemma_rooted();
    }
    build(&arena.blocks, arena.root)
}

} // verus!
