//! The buddy algorithm on the blocks of an arena: leasing a block, handing
//! it back, and coalescing free buddies.

use crate::clock::{now, reached};
use crate::layout::{
    as_free, extent, freed, kept_but, leases_kept, lemma_half_changed, lemma_halves_settled, lemma_merge_halves,
    lemma_merged_settled, lemma_project_state, lemma_settled_reflexive, lemma_within_bounds, project, rooted, same_outside, settled,
    swallowed, within,
};
use crate::sizing::{is_pow2, lemma_pow2_gap, lemma_pow2_halves};
use crate::store::{arena_block_mut, arena_blocks, arena_get, arena_insert, arena_new, arena_remove};
use crate::tree::{coalesce, fit, free_leaf, lease, lemma_merged_free, lemma_merged_reflexive, merged, sweep};
use generational_arena::Arena;
use std::ops::Range;
use std::time::Instant;
use vstd::prelude::*;

verus! {

/// A reference to a block in the arena: the slot it sits in and the
/// generation of that slot.
#[derive(Clone, Copy, Debug, PartialEq, Eq, Structural)]
pub struct NodeId {
    pub slot: usize,
    pub generation: u64,
}

/// What a block is at the moment.
#[derive(Clone, Copy, Debug)]
pub enum BlockState {
    /// Divided into a low and a high half, which are blocks of their own.
    Split(NodeId, NodeId),
    /// Free to be leased or split.
    Available,
    /// Leased out through one handle.
    Occupied,
}

/// A block of the buddy tree: the half-open range it covers, and its state.
#[derive(Debug)]
pub struct Block {
    pub range: Range<usize>,
    pub state: BlockState,
}

/// What a coalescing pass reports of a block: whether it found it free.
#[derive(Clone, Copy, Debug)]
pub struct IsAvailable(pub bool);

/// Clearing the lowest set bit of `x` leaves nothing exactly when `x` is a
/// power of two.
proof fn lemma_single_bit(x: usize)
    requires
        x >= 1,
    ensures
        (x & ((x - 1) as usize)) == 0 <==> is_pow2(x as int),
    decreases x,
{
    if x >= 2 {
        let h: usize = x / 2;
        lemma_single_bit(h);
        assert((x & ((x - 1) as usize)) == 0 <==> (x % 2 == 0 && (h & ((h - 1) as usize)) == 0)) by (bit_vector)
            requires
                x >= 2,
                h == x / 2,
        ;
    } else {
        assert((1usize & 0usize) == 0) by (bit_vector);
    }
}

/// Whether `x` is a power of two.
pub fn is_pow_of_two(x: usize) -> (yes: bool)
    ensures
        yes == is_pow2(x as int),
{
    if x == 0 {
        false
    } else {
        proof {
            lemma_single_bit(x);
        }
        (x & (x - 1)) == 0
    }
}

/// Leases a block of `desired_size` units from the tree below
/// `block_index`: the leftmost block that can serve the request, halved as
/// often as it takes. `None` means that no block below `block_index` can
/// serve it; the arena is then as it was. No block leaves the arena or
/// changes but the free block that is leased or split.
pub fn allocate(arena: &mut Arena<Block>, block_index: NodeId, desired_size: usize) -> (found: Option<NodeId>)
    requires
        rooted(arena_blocks(*old(arena)), block_index),
        is_pow2(desired_size as int),
    ensures
        rooted(arena_blocks(*final(arena)), block_index),
        arena_blocks(*final(arena))[block_index].range == arena_blocks(*old(arena))[block_index].range,
        same_outside(arena_blocks(*old(arena)), arena_blocks(*final(arena)), block_index),
        leases_kept(arena_blocks(*old(arena)), arena_blocks(*final(arena))),
        found is None ==> fit(project(arena_blocks(*old(arena)), block_index), desired_size as int) is None
            && arena_blocks(*final(arena)) == arena_blocks(*old(arena)),
        found matches Some(leaf) ==> {
            &&& within(arena_blocks(*final(arena)), block_index, leaf)
            &&& !(arena_blocks(*old(arena)).dom().contains(leaf) && arena_blocks(*old(arena))[leaf].state is Occupied)
            &&& arena_blocks(*final(arena))[leaf].state is Occupied
            &&& extent(arena_blocks(*final(arena))[leaf]) == desired_size
            &&& fit(project(arena_blocks(*old(arena)), block_index), desired_size as int) == Some(
                arena_blocks(*final(arena))[leaf].range.start,
            )
            &&& project(arena_blocks(*final(arena)), block_index) == lease(
                project(arena_blocks(*old(arena)), block_index),
                arena_blocks(*final(arena))[leaf].range.start,
                desired_size as int,
            )
            &&& kept_but(arena_blocks(*old(arena)), arena_blocks(*final(arena)), arena_blocks(*final(arena))[leaf].range)
        },
    decreases extent(arena_blocks(*old(arena))[block_index]),
{
    let ghost m = arena_blocks(*arena);
    let block = arena_get(arena, block_index).unwrap();
    let start = block.range.start;
    let end = block.range.end;
    let state = block.state;
    proof {
        lemma_pow2_halves(extent(m[block_index]));
        lemma_pow2_halves(desired_size as int);
    }
    let len = end - start;
    if len < desired_size {
        None
    } else if len == desired_size {
        match state {
            BlockState::Available => {
                arena_block_mut(arena, block_index).state = BlockState::Occupied;
                Some(block_index)
            },
            _ => None,
        }
    } else {
        match state {
            BlockState::Occupied => None,
            BlockState::Available => {
                proof {
                    lemma_pow2_gap(desired_size as int, len as int);
                }
                let mid = start + len / 2;
                let first = arena_insert(arena, Block { range: Range { start, end: mid }, state: BlockState::Available });
                let second = arena_insert(arena, Block { range: Range { start: mid, end }, state: BlockState::Available });
                arena_block_mut(arena, block_index).state = BlockState::Split(first, second);
                let ghost m3 = arena_blocks(*arena);
                proof {
                    assert(rooted(m3, first));
                    assert(rooted(m3, second));
                    assert(rooted(m3, block_index));
                    assert forall|j: NodeId| within(m3, block_index, j) == (j == block_index || j == first || j == second) by {
                        assert(within(m3, first, j) == (j == first));
                        assert(within(m3, second, j) == (j == second));
                    }
                    assert(same_outside(m, m3, block_index)) by {
                        assert forall|j: NodeId| within(m, block_index, j) == (j == block_index) by {}
                    }
                }
                let found = allocate(arena, first, desired_size);
                proof {
                    let m4 = arena_blocks(*arena);
                    lemma_half_changed(m3, m4, block_index, true);
                    assert(project(m3, second) == free_leaf(mid, end));
                    assert(project(m3, first) == free_leaf(start, mid));
                    assert(same_outside(m, m4, block_index));
                }
                found
            },
            BlockState::Split(first, second) => {
                let left = allocate(arena, first, desired_size);
                match left {
                    Some(leaf) => {
                        proof {
                            let m1 = arena_blocks(*arena);
                            lemma_within_bounds(m1, first, leaf);
                            lemma_half_changed(m, m1, block_index, true);
                        }
                        Some(leaf)
                    },
                    None => {
                        let right = allocate(arena, second, desired_size);
                        proof {
                            let m2 = arena_blocks(*arena);
                            if let Some(leaf) = right {
                                lemma_within_bounds(m2, second, leaf);
                            }
                            lemma_half_changed(m, m2, block_index, false);
                        }
                        right
                    },
                }
            },
        }
    }
}

/// Hands a leased block back: it is free again. Nothing is merged.
pub fn dealloc(arena: &mut Arena<Block>, block_index: NodeId)
    requires
        arena_blocks(*old(arena)).dom().contains(block_index),
        arena_blocks(*old(arena))[block_index].state is Occupied,
    ensures
        arena_blocks(*final(arena)) == freed(arena_blocks(*old(arena)), block_index),
{
    arena_block_mut(arena, block_index).state = BlockState::Available;
}

/// Merges the two free leaves below `block_index` into it: they leave the
/// arena, and the block is a free leaf.
fn merge(arena: &mut Arena<Block>, block_index: NodeId, first: NodeId, second: NodeId)
    requires
        rooted(arena_blocks(*old(arena)), block_index),
        arena_blocks(*old(arena))[block_index].state == BlockState::Split(first, second),
        arena_blocks(*old(arena))[first].state is Available,
        arena_blocks(*old(arena))[second].state is Available,
    ensures
        rooted(arena_blocks(*final(arena)), block_index),
        arena_blocks(*final(arena))[block_index].range == arena_blocks(*old(arena))[block_index].range,
        arena_blocks(*final(arena))[block_index].state is Available,
        arena_blocks(*final(arena)) == arena_blocks(*old(arena)).remove(first).remove(second).insert(
            block_index,
            as_free(arena_blocks(*old(arena)), block_index),
        ),
        same_outside(arena_blocks(*old(arena)), arena_blocks(*final(arena)), block_index),
        leases_kept(arena_blocks(*old(arena)), arena_blocks(*final(arena))),
        leases_kept(arena_blocks(*final(arena)), arena_blocks(*old(arena))),
{
    proof {
        lemma_merge_halves(arena_blocks(*arena), block_index);
    }
    arena_remove(arena, first).unwrap();
    arena_remove(arena, second).unwrap();
    arena_block_mut(arena, block_index).state = BlockState::Available;
}

/// A full coalescing pass over the tree below `block_index`, from the
/// leaves up. Reports whether the block is a free leaf afterwards. Blocks
/// leave the arena only by a merge, both halves together, and every block
/// that stays keeps its reference, its range and, unless it has merged,
/// its halves.
pub fn tidy(arena: &mut Arena<Block>, block_index: NodeId) -> (whole: IsAvailable)
    requires
        rooted(arena_blocks(*old(arena)), block_index),
    ensures
        rooted(arena_blocks(*final(arena)), block_index),
        arena_blocks(*final(arena))[block_index].range == arena_blocks(*old(arena))[block_index].range,
        same_outside(arena_blocks(*old(arena)), arena_blocks(*final(arena)), block_index),
        settled(arena_blocks(*old(arena)), arena_blocks(*final(arena)), block_index),
        leases_kept(arena_blocks(*old(arena)), arena_blocks(*final(arena))),
        leases_kept(arena_blocks(*final(arena)), arena_blocks(*old(arena))),
        project(arena_blocks(*final(arena)), block_index) == coalesce(project(arena_blocks(*old(arena)), block_index)),
        whole.0 == (project(arena_blocks(*final(arena)), block_index).state is Available),
    decreases extent(arena_blocks(*old(arena))[block_index]),
{
    let ghost m = arena_blocks(*arena);
    let state = arena_get(arena, block_index).unwrap().state;
    match state {
        BlockState::Split(first, second) => {
            let first_available = tidy(arena, first).0;
            let ghost m1 = arena_blocks(*arena);
            proof {
                lemma_half_changed(m, m1, block_index, true);
            }
            let second_available = tidy(arena, second).0;
            let ghost m2 = arena_blocks(*arena);
            proof {
                lemma_half_changed(m1, m2, block_index, false);
                lemma_halves_settled(m, m1, m2, block_index);
                lemma_project_state(m2, first);
                lemma_project_state(m2, second);
            }
            if first_available && second_available {
                merge(arena, block_index, first, second);
                proof {
                    lemma_merged_settled(m, m2, arena_blocks(*arena), block_index);
                }
                IsAvailable(true)
            } else {
                IsAvailable(false)
            }
        },
        BlockState::Available => {
            proof {
                lemma_settled_reflexive(m, block_index);
            }
            IsAvailable(true)
        },
        BlockState::Occupied => {
            proof {
                lemma_settled_reflexive(m, block_index);
            }
            IsAvailable(false)
        },
    }
}

/// A coalescing pass that visits at most `gas` blocks and takes one unit
/// of `gas` for each visit. A block reached without gas is left as it is
/// and reported as not free, so that nothing above it merges. Without gas
/// the arena stays as it is.
pub fn tidy_gas(arena: &mut Arena<Block>, block_index: NodeId, gas: &mut usize) -> (whole: IsAvailable)
    requires
        rooted(arena_blocks(*old(arena)), block_index),
    ensures
        rooted(arena_blocks(*final(arena)), block_index),
        arena_blocks(*final(arena))[block_index].range == arena_blocks(*old(arena))[block_index].range,
        same_outside(arena_blocks(*old(arena)), arena_blocks(*final(arena)), block_index),
        settled(arena_blocks(*old(arena)), arena_blocks(*final(arena)), block_index),
        leases_kept(arena_blocks(*old(arena)), arena_blocks(*final(arena))),
        leases_kept(arena_blocks(*final(arena)), arena_blocks(*old(arena))),
        *old(gas) == 0 ==> arena_blocks(*final(arena)) == arena_blocks(*old(arena)),
        project(arena_blocks(*final(arena)), block_index) == sweep(
            project(arena_blocks(*old(arena)), block_index),
            *old(gas) as nat,
        ).tree,
        *final(gas) == sweep(project(arena_blocks(*old(arena)), block_index), *old(gas) as nat).gas,
        whole.0 == sweep(project(arena_blocks(*old(arena)), block_index), *old(gas) as nat).available,
    decreases extent(arena_blocks(*old(arena))[block_index]),
{
    let ghost m = arena_blocks(*arena);
    if *gas == 0 {
        proof {
            lemma_settled_reflexive(m, block_index);
        }
        return IsAvailable(false);
    }
    *gas = *gas - 1;

    let state = arena_get(arena, block_index).unwrap().state;
    match state {
        BlockState::Split(first, second) => {
            let first_available = tidy_gas(arena, first, gas).0;
            let ghost m1 = arena_blocks(*arena);
            proof {
                lemma_half_changed(m, m1, block_index, true);
            }
            let second_available = tidy_gas(arena, second, gas).0;
            let ghost m2 = arena_blocks(*arena);
            proof {
                lemma_half_changed(m1, m2, block_index, false);
                lemma_halves_settled(m, m1, m2, block_index);
                lemma_project_state(m2, first);
                lemma_project_state(m2, second);
            }
            if first_available && second_available {
                merge(arena, block_index, first, second);
                proof {
                    lemma_merged_settled(m, m2, arena_blocks(*arena), block_index);
                }
                IsAvailable(true)
            } else {
                IsAvailable(false)
            }
        },
        BlockState::Available => {
            proof {
                lemma_settled_reflexive(m, block_index);
            }
            IsAvailable(true)
        },
        BlockState::Occupied => {
            proof {
                lemma_settled_reflexive(m, block_index);
            }
            IsAvailable(false)
        },
    }
}

/// A coalescing pass that stops at `deadline`: the clock is read before
/// each block, and the answer decides what `tidy_timed_visit` does with the
/// block. Whenever the clock runs out, the tree is a buddy tree in which
/// some blocks with nothing leased below them have merged, and a report of
/// `true` says that the block is a free leaf.
pub fn tidy_timed(arena: &mut Arena<Block>, block_index: NodeId, deadline: Instant) -> (whole: IsAvailable)
    requires
        rooted(arena_blocks(*old(arena)), block_index),
    ensures
        rooted(arena_blocks(*final(arena)), block_index),
        arena_blocks(*final(arena))[block_index].range == arena_blocks(*old(arena))[block_index].range,
        same_outside(arena_blocks(*old(arena)), arena_blocks(*final(arena)), block_index),
        settled(arena_blocks(*old(arena)), arena_blocks(*final(arena)), block_index),
        leases_kept(arena_blocks(*old(arena)), arena_blocks(*final(arena))),
        leases_kept(arena_blocks(*final(arena)), arena_blocks(*old(arena))),
        merged(
            project(arena_blocks(*old(arena)), block_index),
            project(arena_blocks(*final(arena)), block_index),
        ),
        whole.0 ==> arena_blocks(*final(arena))[block_index].state is Available,
    decreases extent(arena_blocks(*old(arena))[block_index]), 1int,
{
    let late = reached(now(), deadline);
    tidy_timed_visit(arena, block_index, late, deadline)
}

/// The visit of one block in a pass that stops at `deadline`, once the
/// clock has been read for it: `late` says whether the deadline had come.
/// A block reached late is left as it is and reported as not free. A leaf
/// reached in time is left as it is and reported as what it is. A split
/// block reached in time has both halves visited, each after a reading of
/// the clock of its own, and merges where both report free.
pub fn tidy_timed_visit(arena: &mut Arena<Block>, block_index: NodeId, late: bool, deadline: Instant) -> (whole:
    IsAvailable)
    requires
        rooted(arena_blocks(*old(arena)), block_index),
    ensures
        late ==> !whole.0 && arena_blocks(*final(arena)) == arena_blocks(*old(arena)),
        !late && !(arena_blocks(*old(arena))[block_index].state is Split) ==> arena_blocks(*final(arena))
            == arena_blocks(*old(arena)) && whole.0 == (arena_blocks(*old(arena))[block_index].state is Available),
        rooted(arena_blocks(*final(arena)), block_index),
        arena_blocks(*final(arena))[block_index].range == arena_blocks(*old(arena))[block_index].range,
        same_outside(arena_blocks(*old(arena)), arena_blocks(*final(arena)), block_index),
        settled(arena_blocks(*old(arena)), arena_blocks(*final(arena)), block_index),
        leases_kept(arena_blocks(*old(arena)), arena_blocks(*final(arena))),
        leases_kept(arena_blocks(*final(arena)), arena_blocks(*old(arena))),
        merged(
            project(arena_blocks(*old(arena)), block_index),
            project(arena_blocks(*final(arena)), block_index),
        ),
        whole.0 ==> arena_blocks(*final(arena))[block_index].state is Available,
    decreases extent(arena_blocks(*old(arena))[block_index]), 0int,
{
    let ghost m = arena_blocks(*arena);
    if late {
        proof {
            lemma_merged_reflexive(project(m, block_index));
            lemma_settled_reflexive(m, block_index);
        }
        return IsAvailable(false);
    }
    let state = arena_get(arena, block_index).unwrap().state;
    match state {
        BlockState::Split(first, second) => {
            let first_available = tidy_timed(arena, first, deadline).0;
            let ghost m1 = arena_blocks(*arena);
            proof {
                lemma_half_changed(m, m1, block_index, true);
            }
            let second_available = tidy_timed(arena, second, deadline).0;
            let ghost m2 = arena_blocks(*arena);
            proof {
                lemma_half_changed(m1, m2, block_index, false);
                lemma_halves_settled(m, m1, m2, block_index);
                lemma_project_state(m1, first);
                lemma_project_state(m2, first);
                lemma_project_state(m2, second);
            }
            if first_available && second_available {
                merge(arena, block_index, first, second);
                proof {
                    lemma_merged_settled(m, m2, arena_blocks(*arena), block_index);
                    lemma_merged_free(project(m, first), project(m1, first));
                    lemma_merged_free(project(m1, second), project(m2, second));
                }
                IsAvailable(true)
            } else {
                IsAvailable(false)
            }
        },
        BlockState::Available => {
            proof {
                lemma_settled_reflexive(m, block_index);
            }
            IsAvailable(true)
        },
        BlockState::Occupied => {
            proof {
                lemma_settled_reflexive(m, block_index);
            }
            IsAvailable(false)
        },
    }
}

/// An arena that holds one free block over `0..size` and nothing else, and
/// the reference to that block: the tree of a universe before anything is
/// leased.
pub fn universe(size: usize) -> (made: (Arena<Block>, NodeId))
    requires
        is_pow2(size as int),
    ensures
        rooted(arena_blocks(made.0), made.1),
        project(arena_blocks(made.0), made.1) == free_leaf(0, size),
        arena_blocks(made.0).dom() == Set::<NodeId>::empty().insert(made.1),
        arena_blocks(made.0)[made.1] == (Block { range: Range { start: 0, end: size }, state: BlockState::Available }),
{
    let mut arena = arena_new();
    let root = arena_insert(&mut arena, Block { range: Range { start: 0, end: size }, state: BlockState::Available });
    (arena, root)
}

} // verus!
