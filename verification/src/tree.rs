//! The block tree as a mathematical value, and what the operations of the
//! allocator do to it.
//!
//! The model is the picture that `prettify` draws: a `PrettyBlock` is a
//! block with its range and either a leaf state or its two halves.

use crate::pretty_print::{PrettyBlock, PrettyState};
use crate::sizing::{is_pow2, lemma_pow2_gap, lemma_pow2_halves};
use std::ops::Range;
use vstd::arithmetic::div_mod::{lemma_fundamental_div_mod, lemma_mod_multiples_basic};
use vstd::prelude::*;

verus! {

/// The number of units that a block covers.
pub open spec fn span(t: PrettyBlock) -> int {
    t.range.end - t.range.start
}

/// A free leaf over `[lo, hi)`.
pub open spec fn free_leaf(lo: usize, hi: usize) -> PrettyBlock {
    PrettyBlock { range: Range { start: lo, end: hi }, state: PrettyState::Available }
}

/// A leased leaf over `[lo, hi)`.
pub open spec fn leased_leaf(lo: usize, hi: usize) -> PrettyBlock {
    PrettyBlock { range: Range { start: lo, end: hi }, state: PrettyState::Occupied }
}

/// The block over `range` that is split into `left` and `right`.
pub open spec fn fork(range: Range<usize>, left: PrettyBlock, right: PrettyBlock) -> PrettyBlock {
    PrettyBlock { range, state: PrettyState::Split(Box::new(left), Box::new(right)) }
}

/// The buddy shape: every block spans a power of two, and the halves of a
/// split block are equal, adjacent, and together cover it.
pub open spec fn shaped(t: PrettyBlock) -> bool
    decreases t,
{
    &&& is_pow2(span(t))
    &&& match t.state {
        PrettyState::Split(l, r) => {
            &&& l.range.start == t.range.start
            &&& l.range.end == r.range.start
            &&& r.range.end == t.range.end
            &&& span(*l) == span(*r)
            &&& shaped(*l)
            &&& shaped(*r)
        },
        _ => true,
    }
}

/// Every leaf below `t` is free.
pub open spec fn all_free(t: PrettyBlock) -> bool
    decreases t,
{
    match t.state {
        PrettyState::Split(l, r) => all_free(*l) && all_free(*r),
        PrettyState::Available => true,
        PrettyState::Occupied => false,
    }
}

/// The ranges of the leased leaves of `t`, from left to right.
pub open spec fn leased(t: PrettyBlock) -> Seq<Range<usize>>
    decreases t,
{
    match t.state {
        PrettyState::Split(l, r) => leased(*l) + leased(*r),
        PrettyState::Available => Seq::empty(),
        PrettyState::Occupied => seq![t.range],
    }
}

/// Where a request for a block of `size` units lands in `t`: the start of
/// the leftmost block that can serve it, or `None` where no block can. A
/// free block of exactly `size` serves it; a larger free block serves it
/// from its low end; a leased block serves nothing.
pub open spec fn fit(t: PrettyBlock, size: int) -> Option<usize>
    decreases t,
{
    if span(t) < size {
        None
    } else {
        match t.state {
            PrettyState::Split(l, r) => {
                if span(t) == size {
                    None
                } else {
                    match fit(*l, size) {
                        Some(start) => Some(start),
                        None => fit(*r, size),
                    }
                }
            },
            PrettyState::Available => Some(t.range.start),
            PrettyState::Occupied => None,
        }
    }
}

/// The tree that grows in a free block `[lo, hi)` when the block of `size`
/// units at `start` is leased out of it: the block is halved until the half
/// that holds `start` has the size asked for; the other halves stay free.
pub open spec fn carve(lo: usize, hi: usize, start: usize, size: int) -> PrettyBlock
    decreases hi - lo,
{
    if hi - lo <= size || hi - lo < 2 {
        leased_leaf(lo, hi)
    } else {
        let mid = (lo + (hi - lo) / 2) as usize;
        if start < mid {
            fork(Range { start: lo, end: hi }, carve(lo, mid, start, size), free_leaf(mid, hi))
        } else {
            fork(Range { start: lo, end: hi }, free_leaf(lo, mid), carve(mid, hi, start, size))
        }
    }
}

/// The tree after the block of `size` units at `start` has been leased.
pub open spec fn lease(t: PrettyBlock, start: usize, size: int) -> PrettyBlock
    decreases t,
{
    match t.state {
        PrettyState::Split(l, r) => {
            if start < r.range.start {
                fork(t.range, lease(*l, start, size), *r)
            } else {
                fork(t.range, *l, lease(*r, start, size))
            }
        },
        PrettyState::Available => carve(t.range.start, t.range.end, start, size),
        PrettyState::Occupied => t,
    }
}

/// The tree after the leased leaf over exactly `range` has been handed
/// back; a tree without such a leaf stays as it is. Nothing is merged.
pub open spec fn release(t: PrettyBlock, range: Range<usize>) -> PrettyBlock
    decreases t,
{
    match t.state {
        PrettyState::Split(l, r) => {
            if range.start < r.range.start {
                fork(t.range, release(*l, range), *r)
            } else {
                fork(t.range, *l, release(*r, range))
            }
        },
        PrettyState::Available => t,
        PrettyState::Occupied => {
            if t.range == range {
                free_leaf(range.start, range.end)
            } else {
                t
            }
        },
    }
}

/// The tree after each of `ranges` has been handed back, in order.
pub open spec fn release_all(t: PrettyBlock, ranges: Seq<Range<usize>>) -> PrettyBlock
    decreases ranges.len(),
{
    if ranges.len() == 0 {
        t
    } else {
        release(release_all(t, ranges.drop_last()), ranges.last())
    }
}

/// The tree after a full coalescing pass: from the leaves up, every split
/// block whose two halves have become free leaves is a free leaf itself.
pub open spec fn coalesce(t: PrettyBlock) -> PrettyBlock
    decreases t,
{
    match t.state {
        PrettyState::Split(l, r) => {
            let left = coalesce(*l);
            let right = coalesce(*r);
            if left.state is Available && right.state is Available {
                free_leaf(t.range.start, t.range.end)
            } else {
                fork(t.range, left, right)
            }
        },
        _ => t,
    }
}

/// What a coalescing pass with a work budget leaves behind.
pub struct Sweep {
    /// The tree after the pass.
    pub tree: PrettyBlock,
    /// The budget that the pass did not use.
    pub gas: nat,
    /// Whether the pass found the whole tree free.
    pub available: bool,
}

/// A coalescing pass that may visit at most `gas` blocks. A visit costs one
/// unit. A block that is reached with no budget left is not looked at and
/// counts as not free, so nothing above it merges in this pass.
pub open spec fn sweep(t: PrettyBlock, gas: nat) -> Sweep
    decreases t,
{
    if gas == 0 {
        Sweep { tree: t, gas: 0, available: false }
    } else {
        match t.state {
            PrettyState::Split(l, r) => {
                let left = sweep(*l, (gas - 1) as nat);
                let right = sweep(*r, left.gas);
                if left.available && right.available {
                    Sweep { tree: free_leaf(t.range.start, t.range.end), gas: right.gas, available: true }
                } else {
                    Sweep { tree: fork(t.range, left.tree, right.tree), gas: right.gas, available: false }
                }
            },
            PrettyState::Available => Sweep { tree: t, gas: (gas - 1) as nat, available: true },
            PrettyState::Occupied => Sweep { tree: t, gas: (gas - 1) as nat, available: false },
        }
    }
}

/// `after` can come out of a coalescing pass over `before` that was cut
/// short anywhere: some split blocks with nothing leased below them have
/// become free leaves, and nothing else has changed.
pub open spec fn merged(before: PrettyBlock, after: PrettyBlock) -> bool
    decreases before,
{
    &&& after.range == before.range
    &&& match before.state {
        PrettyState::Split(l, r) => {
            ||| after.state is Available && all_free(before)
            ||| after.state matches PrettyState::Split(l2, r2) && merged(*l, *l2) && merged(*r, *r2)
        },
        PrettyState::Available => after.state is Available,
        PrettyState::Occupied => after.state is Occupied,
    }
}

/// A pass that merges nothing is a pass.
pub proof fn lemma_merged_reflexive(t: PrettyBlock)
    ensures
        merged(t, t),
    decreases t,
{
    match t.state {
        PrettyState::Split(l, r) => {
            lemma_merged_reflexive(*l);
            lemma_merged_reflexive(*r);
        },
        _ => {},
    }
}

/// A tree that a pass has turned into a free leaf had nothing leased.
pub proof fn lemma_merged_free(before: PrettyBlock, after: PrettyBlock)
    requires
        merged(before, after),
        after.state is Available,
    ensures
        all_free(before),
{
}

/// `block` is `t` or one of the blocks below it.
pub open spec fn has_block(t: PrettyBlock, block: PrettyBlock) -> bool
    decreases t,
{
    ||| t == block
    ||| match t.state {
        PrettyState::Split(l, r) => has_block(*l, block) || has_block(*r, block),
        _ => false,
    }
}

/// In a tree of the buddy shape every block spans a power of two and lies
/// inside the tree, and the halves of every split block are adjacent, do
/// not overlap, and are each half as long as the block.
pub proof fn lemma_every_block_shaped(t: PrettyBlock, block: PrettyBlock)
    requires
        shaped(t),
        has_block(t, block),
    ensures
        shaped(block),
        is_pow2(span(block)),
        t.range.start <= block.range.start,
        block.range.end <= t.range.end,
        block.state matches PrettyState::Split(l, r) ==> {
            &&& l.range.start == block.range.start
            &&& l.range.end == r.range.start
            &&& r.range.end == block.range.end
            &&& 2 * span(*l) == span(block)
            &&& 2 * span(*r) == span(block)
        },
    decreases t,
{
    lemma_pow2_halves(span(t));
    if t != block {
        match t.state {
            PrettyState::Split(l, r) => {
                lemma_pow2_halves(span(*l));
                lemma_pow2_halves(span(*r));
                if has_block(*l, block) {
                    lemma_every_block_shaped(*l, block);
                } else {
                    lemma_every_block_shaped(*r, block);
                }
            },
            _ => {},
        }
    }
}

/// The leased ranges of a tree of the buddy shape are not empty and lie
/// inside the tree.
pub proof fn lemma_leased_inside(t: PrettyBlock, i: int)
    requires
        shaped(t),
        0 <= i < leased(t).len(),
    ensures
        t.range.start <= leased(t)[i].start < leased(t)[i].end <= t.range.end,
    decreases t,
{
    lemma_pow2_halves(span(t));
    match t.state {
        PrettyState::Split(l, r) => {
            lemma_pow2_halves(span(*l));
            lemma_pow2_halves(span(*r));
            if i < leased(*l).len() {
                lemma_leased_inside(*l, i);
            } else {
                lemma_leased_inside(*r, i - leased(*l).len());
            }
        },
        _ => {},
    }
}

/// No two leased ranges of a tree of the buddy shape overlap: from left to
/// right, each ends before the next begins.
pub proof fn lemma_leased_apart(t: PrettyBlock, i: int, j: int)
    requires
        shaped(t),
        0 <= i < j < leased(t).len(),
    ensures
        leased(t)[i].end <= leased(t)[j].start,
    decreases t,
{
    match t.state {
        PrettyState::Split(l, r) => {
            let n = leased(*l).len();
            if j < n {
                lemma_leased_apart(*l, i, j);
            } else if i >= n {
                lemma_leased_apart(*r, i - n, j - n);
            } else {
                lemma_leased_inside(*l, i);
                lemma_leased_inside(*r, j - n);
            }
        },
        _ => {},
    }
}

/// A second coalescing pass right after the first changes nothing.
pub proof fn lemma_coalesce_idempotent(t: PrettyBlock)
    ensures
        coalesce(coalesce(t)) == coalesce(t),
    decreases t,
{
    match t.state {
        PrettyState::Split(l, r) => {
            lemma_coalesce_idempotent(*l);
            lemma_coalesce_idempotent(*r);
        },
        _ => {},
    }
}

/// A tidy pass that finds nothing to hand back, right after another tidy
/// pass, leaves the tree as that pass left it.
pub proof fn lemma_tidy_twice(t: PrettyBlock, back: Seq<Range<usize>>)
    ensures
        coalesce(release_all(coalesce(release_all(t, back)), Seq::empty())) == coalesce(release_all(t, back)),
{
    lemma_coalesce_idempotent(release_all(t, back));
}

/// Coalescing keeps the buddy shape, the range of the tree and every
/// lease: a free block never merges with a buddy that holds a lease.
pub proof fn lemma_coalesce_keeps_leases(t: PrettyBlock)
    requires
        shaped(t),
    ensures
        shaped(coalesce(t)),
        coalesce(t).range == t.range,
        leased(coalesce(t)) == leased(t),
        coalesce(t).state is Available <==> all_free(t),
    decreases t,
{
    match t.state {
        PrettyState::Split(l, r) => {
            lemma_coalesce_keeps_leases(*l);
            lemma_coalesce_keeps_leases(*r);
            lemma_all_free_no_lease(*l);
            lemma_all_free_no_lease(*r);
            assert(leased(*l) + leased(*r) =~= leased(t));
        },
        _ => {},
    }
}

/// A tree without a leased leaf has no leased range.
pub proof fn lemma_all_free_no_lease(t: PrettyBlock)
    ensures
        all_free(t) <==> leased(t).len() == 0,
    decreases t,
{
    match t.state {
        PrettyState::Split(l, r) => {
            lemma_all_free_no_lease(*l);
            lemma_all_free_no_lease(*r);
        },
        _ => {},
    }
}

/// Once every lease has been handed back, one coalescing pass merges the
/// whole tree into a single free block, whatever its size.
pub proof fn lemma_coalesce_all_free(t: PrettyBlock)
    requires
        all_free(t),
    ensures
        coalesce(t) == free_leaf(t.range.start, t.range.end),
    decreases t,
{
    match t.state {
        PrettyState::Split(l, r) => {
            lemma_coalesce_all_free(*l);
            lemma_coalesce_all_free(*r);
        },
        _ => {},
    }
}

/// A pass that is cut short keeps the buddy shape, the range of the tree
/// and every lease.
pub proof fn lemma_merged_keeps_leases(before: PrettyBlock, after: PrettyBlock)
    requires
        shaped(before),
        merged(before, after),
    ensures
        shaped(after),
        after.range == before.range,
        leased(after) == leased(before),
    decreases before,
{
    match before.state {
        PrettyState::Split(l, r) => {
            match after.state {
                PrettyState::Split(l2, r2) => {
                    lemma_merged_keeps_leases(*l, *l2);
                    lemma_merged_keeps_leases(*r, *r2);
                },
                _ => {
                    lemma_all_free_no_lease(before);
                    assert(leased(before) =~= leased(after));
                },
            }
        },
        _ => {},
    }
}

/// A full pass is one of the passes that a cut-short pass can be.
pub proof fn lemma_coalesce_merged(t: PrettyBlock)
    ensures
        merged(t, coalesce(t)),
    decreases t,
{
    match t.state {
        PrettyState::Split(l, r) => {
            lemma_coalesce_merged(*l);
            lemma_coalesce_merged(*r);
            if coalesce(*l).state is Available && coalesce(*r).state is Available {
                lemma_merged_free(*l, coalesce(*l));
                lemma_merged_free(*r, coalesce(*r));
            }
        },
        _ => {},
    }
}

/// A pass with a work budget is one of the passes that a cut-short pass can
/// be, it never spends more than it has, and it reports a free tree only
/// where it leaves a free block.
pub proof fn lemma_sweep_merged(t: PrettyBlock, gas: nat)
    ensures
        merged(t, sweep(t, gas).tree),
        sweep(t, gas).gas <= gas,
        sweep(t, gas).available ==> sweep(t, gas).tree.state is Available,
    decreases t,
{
    if gas == 0 {
        lemma_merged_reflexive(t);
    } else {
        match t.state {
            PrettyState::Split(l, r) => {
                let left = sweep(*l, (gas - 1) as nat);
                lemma_sweep_merged(*l, (gas - 1) as nat);
                lemma_sweep_merged(*r, left.gas);
                if left.available && sweep(*r, left.gas).available {
                    lemma_merged_free(*l, left.tree);
                    lemma_merged_free(*r, sweep(*r, left.gas).tree);
                }
            },
            _ => {},
        }
    }
}

/// The number of blocks of a tree.
pub open spec fn blocks(t: PrettyBlock) -> nat
    decreases t,
{
    match t.state {
        PrettyState::Split(l, r) => 1 + blocks(*l) + blocks(*r),
        _ => 1,
    }
}

/// A budget of one unit for each block of the tree buys a full pass, and
/// what is left over comes back.
pub proof fn lemma_sweep_enough_gas(t: PrettyBlock, gas: nat)
    requires
        gas >= blocks(t),
    ensures
        sweep(t, gas).tree == coalesce(t),
        sweep(t, gas).gas == gas - blocks(t),
        sweep(t, gas).available == (coalesce(t).state is Available),
    decreases t,
{
    match t.state {
        PrettyState::Split(l, r) => {
            lemma_sweep_enough_gas(*l, (gas - 1) as nat);
            lemma_sweep_enough_gas(*r, (gas - 1 - blocks(*l)) as nat);
        },
        _ => {},
    }
}

/// The number of leases of `t` that lie left of the leaf in which `start`
/// falls.
pub open spec fn leases_before(t: PrettyBlock, start: usize) -> int
    decreases t,
{
    match t.state {
        PrettyState::Split(l, r) => {
            if start < r.range.start {
                leases_before(*l, start)
            } else {
                leased(*l).len() + leases_before(*r, start)
            }
        },
        _ => 0,
    }
}

/// A free block that is carved for a lease at its low end keeps its range
/// and the buddy shape, and holds that one lease.
pub proof fn lemma_carve(lo: usize, hi: usize, size: int)
    requires
        is_pow2(hi - lo),
        is_pow2(size),
        size <= hi - lo,
    ensures
        shaped(carve(lo, hi, lo, size)),
        carve(lo, hi, lo, size).range == (Range { start: lo, end: hi }),
        leased(carve(lo, hi, lo, size)) == seq![Range { start: lo, end: (lo + size) as usize }],
    decreases hi - lo,
{
    lemma_pow2_halves(hi - lo);
    lemma_pow2_halves(size);
    if hi - lo > size {
        lemma_pow2_gap(size, hi - lo);
        let mid = (lo + (hi - lo) / 2) as usize;
        lemma_carve(lo, mid, size);
        assert(leased(carve(lo, mid, lo, size)) + leased(free_leaf(mid, hi)) =~= leased(carve(lo, mid, lo, size)));
        assert(shaped(free_leaf(mid, hi)));
    }
}

/// A request that fits is served inside the tree: the tree keeps its range
/// and the buddy shape, and its leases are the leases it had and the new
/// one, in their order from left to right.
pub proof fn lemma_lease(t: PrettyBlock, size: int)
    requires
        shaped(t),
        is_pow2(size),
        fit(t, size) is Some,
    ensures
        ({
            let start = fit(t, size)->Some_0;
            let after = lease(t, start, size);
            &&& t.range.start <= start
            &&& start + size <= t.range.end
            &&& shaped(after)
            &&& after.range == t.range
            &&& 0 <= leases_before(t, start) <= leased(t).len()
            &&& leased(after) == leased(t).insert(
                leases_before(t, start),
                Range { start, end: (start + size) as usize },
            )
        }),
    decreases t,
{
    let start = fit(t, size)->Some_0;
    let fresh = Range { start, end: (start + size) as usize };
    lemma_pow2_halves(size);
    match t.state {
        PrettyState::Split(l, r) => {
            if fit(*l, size) is Some {
                lemma_lease(*l, size);
                let k = leases_before(*l, start);
                assert(leased(*l).insert(k, fresh) + leased(*r) =~= (leased(*l) + leased(*r)).insert(k, fresh));
            } else {
                lemma_lease(*r, size);
                let k = leases_before(*r, start);
                assert(leased(*l) + leased(*r).insert(k, fresh) =~= (leased(*l) + leased(*r)).insert(
                    leased(*l).len() + k,
                    fresh,
                ));
            }
        },
        PrettyState::Available => {
            lemma_carve(t.range.start, t.range.end, size);
            assert(leased(t).insert(0, fresh) =~= seq![fresh]);
        },
        PrettyState::Occupied => {},
    }
}

/// Handing a range back keeps the range of the tree and the buddy shape.
/// Where the range is a lease of the tree, the leases are the others, in
/// their order; where it is not, the tree is as it was.
pub proof fn lemma_release(t: PrettyBlock, range: Range<usize>)
    requires
        shaped(t),
    ensures
        shaped(release(t, range)),
        release(t, range).range == t.range,
        0 <= leases_before(t, range.start) <= leased(t).len(),
        ({
            let k = leases_before(t, range.start);
            if k < leased(t).len() && leased(t)[k] == range {
                leased(release(t, range)) == leased(t).remove(k)
            } else {
                release(t, range) == t && !leased(t).contains(range)
            }
        }),
    decreases t,
{
    match t.state {
        PrettyState::Split(l, r) => {
            lemma_pow2_halves(span(*l));
            lemma_pow2_halves(span(*r));
            let low = leased(*l);
            let high = leased(*r);
            assert(leased(t) == low + high);
            if range.start < r.range.start {
                lemma_release(*l, range);
                let k = leases_before(*l, range.start);
                if k < low.len() && low[k] == range {
                    assert(low.remove(k) + high =~= (low + high).remove(k));
                } else {
                    if k >= low.len() && high.len() > 0 {
                        lemma_leased_inside(*r, 0);
                    }
                    if leased(t).contains(range) {
                        let i = choose|i: int| 0 <= i < (low + high).len() && (low + high)[i] == range;
                        if i < low.len() {
                            assert(low[i] == range);
                        } else {
                            lemma_leased_inside(*r, i - low.len());
                        }
                    }
                }
            } else {
                lemma_release(*r, range);
                let k = leases_before(*r, range.start);
                if k < high.len() && high[k] == range {
                    assert(low + high.remove(k) =~= (low + high).remove(low.len() + k));
                } else if leased(t).contains(range) {
                    let i = choose|i: int| 0 <= i < (low + high).len() && (low + high)[i] == range;
                    if i < low.len() {
                        lemma_leased_inside(*l, i);
                    } else {
                        assert(high[i - low.len()] == range);
                    }
                }
            }
        },
        _ => {
            if t.state is Occupied && t.range == range {
                assert(leased(t).remove(0) =~= leased(free_leaf(range.start, range.end)));
            }
        },
    }
}

/// A pass that was cut short loses nothing: a full pass after it leaves
/// what a full pass alone leaves.
pub proof fn lemma_merged_then_coalesce(before: PrettyBlock, after: PrettyBlock)
    requires
        merged(before, after),
    ensures
        coalesce(after) == coalesce(before),
    decreases before,
{
    match before.state {
        PrettyState::Split(l, r) => {
            match after.state {
                PrettyState::Split(l2, r2) => {
                    lemma_merged_then_coalesce(*l, *l2);
                    lemma_merged_then_coalesce(*r, *r2);
                },
                _ => {
                    lemma_coalesce_all_free(before);
                },
            }
        },
        _ => {},
    }
}

/// `block` is a free leaf of `t` of at least `size` units.
pub open spec fn serves(t: PrettyBlock, block: PrettyBlock, size: int) -> bool {
    has_block(t, block) && block.state is Available && span(block) >= size
}

/// What `fit` finds: a request fits exactly where the tree has a free leaf
/// of at least the size asked for, and it lands at the start of the
/// leftmost of them.
pub proof fn lemma_fit_leftmost(t: PrettyBlock, size: int)
    requires
        shaped(t),
    ensures
        fit(t, size) is None ==> forall|b: PrettyBlock| !#[trigger] serves(t, b, size),
        fit(t, size) matches Some(start) ==> (exists|b: PrettyBlock| #[trigger]
            serves(t, b, size) && b.range.start == start) && (forall|b: PrettyBlock| #[trigger]
            serves(t, b, size) ==> start <= b.range.start),
    decreases t,
{
    lemma_pow2_halves(span(t));
    match t.state {
        PrettyState::Split(l, r) => {
            lemma_pow2_halves(span(*l));
            lemma_pow2_halves(span(*r));
            lemma_fit_leftmost(*l, size);
            lemma_fit_leftmost(*r, size);
            assert forall|b: PrettyBlock| #[trigger] serves(t, b, size) implies serves(*l, b, size) || serves(
                *r,
                b,
                size,
            ) by {}
            if span(t) <= size {
                assert forall|b: PrettyBlock| !#[trigger] serves(t, b, size) by {
                    if has_block(*l, b) {
                        lemma_every_block_shaped(*l, b);
                    }
                    if has_block(*r, b) {
                        lemma_every_block_shaped(*r, b);
                    }
                }
            } else if fit(*l, size) is Some {
                let start = fit(*l, size)->Some_0;
                let b0 = choose|b: PrettyBlock| #[trigger] serves(*l, b, size) && b.range.start == start;
                lemma_every_block_shaped(*l, b0);
                lemma_pow2_halves(span(b0));
                assert(serves(t, b0, size));
                assert forall|b: PrettyBlock| #[trigger] serves(t, b, size) implies start <= b.range.start by {
                    if serves(*r, b, size) {
                        lemma_every_block_shaped(*r, b);
                    }
                }
            } else if fit(*r, size) is Some {
                let start = fit(*r, size)->Some_0;
                let b0 = choose|b: PrettyBlock| #[trigger] serves(*r, b, size) && b.range.start == start;
                assert(serves(t, b0, size));
            }
        },
        PrettyState::Available => {
            if span(t) >= size {
                assert(serves(t, t, size));
            }
        },
        PrettyState::Occupied => {},
    }
}

/// In a tree of the buddy shape that starts at a multiple of its length,
/// every block starts at a multiple of its own length.
pub proof fn lemma_every_block_aligned(t: PrettyBlock, block: PrettyBlock)
    requires
        shaped(t),
        t.range.start as int % span(t) == 0,
        has_block(t, block),
    ensures
        block.range.start as int % span(block) == 0,
    decreases t,
{
    lemma_pow2_halves(span(t));
    if t != block {
        match t.state {
            PrettyState::Split(l, r) => {
                lemma_pow2_halves(span(*l));
                let half = span(*l);
                let start = t.range.start as int;
                let q = start / (2 * half);
                lemma_fundamental_div_mod(start, 2 * half);
                assert(start == (2 * q) * half) by (nonlinear_arith)
                    requires
                        start == (2 * half) * q,
                ;
                assert(start + half == (2 * q + 1) * half) by (nonlinear_arith)
                    requires
                        start == (2 * half) * q,
                ;
                lemma_mod_multiples_basic(2 * q, half);
                lemma_mod_multiples_basic(2 * q + 1, half);
                if has_block(*l, block) {
                    lemma_every_block_aligned(*l, block);
                } else {
                    lemma_every_block_aligned(*r, block);
                }
            },
            _ => {},
        }
    }
}

/// After a run of ranges has been handed back the tree keeps its range
/// and the buddy shape, and what is still leased was leased before and is
/// none of the ranges handed back.
pub proof fn lemma_release_all(t: PrettyBlock, back: Seq<Range<usize>>)
    requires
        shaped(t),
    ensures
        shaped(release_all(t, back)),
        release_all(t, back).range == t.range,
        forall|x: Range<usize>| #[trigger]
            leased(release_all(t, back)).contains(x) ==> leased(t).contains(x) && !back.contains(x),
    decreases back.len(),
{
    if back.len() > 0 {
        let range = back.last();
        let prev = release_all(t, back.drop_last());
        lemma_release_all(t, back.drop_last());
        lemma_release(prev, range);
        let k = leases_before(prev, range.start);
        let kept = leased(prev);
        assert forall|x: Range<usize>| #[trigger] leased(release(prev, range)).contains(x) implies leased(t).contains(x)
            && !back.contains(x) by {
            if k < kept.len() && kept[k] == range {
                let i = choose|i: int| 0 <= i < kept.remove(k).len() && kept.remove(k)[i] == x;
                let at = if i < k { i } else { i + 1 };
                assert(kept[at] == x);
                if at < k {
                    lemma_leased_apart(prev, at, k);
                    lemma_leased_inside(prev, at);
                } else {
                    lemma_leased_apart(prev, k, at);
                    lemma_leased_inside(prev, k);
                }
                assert(x != range);
            }
            assert(kept.contains(x));
            if back.contains(x) {
                let j = choose|j: int| 0 <= j < back.len() && back[j] == x;
                if j < back.len() - 1 {
                    assert(back.drop_last()[j] == x);
                }
            }
        }
    }
}

/// Once every lease has been handed back, in any order and among whatever
/// else, a coalescing pass leaves one free block over the whole tree.
pub proof fn lemma_full_reclamation(t: PrettyBlock, back: Seq<Range<usize>>)
    requires
        shaped(t),
        forall|i: int| 0 <= i < leased(t).len() ==> back.contains(#[trigger] leased(t)[i]),
    ensures
        coalesce(release_all(t, back)) == free_leaf(t.range.start, t.range.end),
{
    lemma_release_all(t, back);
    let after = release_all(t, back);
    if leased(after).len() > 0 {
        let x = leased(after)[0];
        assert(leased(after).contains(x));
        let i = choose|i: int| 0 <= i < leased(t).len() && leased(t)[i] == x;
        assert(back.contains(leased(t)[i]));
    }
    lemma_all_free_no_lease(after);
    lemma_coalesce_all_free(after);
}

/// No split block of `t` has two free leaves for halves: nothing is left
/// to merge.
pub open spec fn tight(t: PrettyBlock) -> bool
    decreases t,
{
    match t.state {
        PrettyState::Split(l, r) => !(l.state is Available && r.state is Available) && tight(*l) && tight(*r),
        _ => true,
    }
}

/// A full pass leaves nothing to merge, adds no block, and changes nothing
/// in a tree that had nothing to merge.
pub proof fn lemma_coalesce_tight(t: PrettyBlock)
    ensures
        tight(coalesce(t)),
        blocks(coalesce(t)) <= blocks(t),
        tight(t) ==> coalesce(t) == t,
    decreases t,
{
    match t.state {
        PrettyState::Split(l, r) => {
            lemma_coalesce_tight(*l);
            lemma_coalesce_tight(*r);
        },
        _ => {},
    }
}

} // verus!
