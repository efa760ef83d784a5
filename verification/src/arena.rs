//! The bookkeeping of one universe, the handles it gives out, and a
//! fixed-capacity array that is addressed by them.

use crate::buddy::{dealloc, universe, Block, BlockState, NodeId};
use crate::clock::{now, reached};
use crate::layout::{
    freed, leases_kept, lemma_block_in_picture, lemma_freed, lemma_lease_in_picture, lemma_leaves_apart,
    lemma_project_shaped, lemma_within_bounds, project, rooted, within,
};
use crate::pretty_print::PrettyBlock;
use crate::queue::{next_waiting, open_queue, share};
use crate::sizing::{best_size, block_size_for, is_pow2, lemma_pow2_halves};
use crate::store::{arena_blocks, arena_get};
use crate::tree::{
    coalesce, fit, free_leaf, has_block, lease, leased, leased_leaf, leases_before, lemma_every_block_aligned,
    lemma_leased_apart, lemma_leased_inside, lemma_merged_reflexive, lemma_release, merged, release, release_all,
    shaped, sweep,
};
use generational_arena::Arena;
use std::ops::Range;
use std::sync::mpsc::{Receiver, Sender};
use std::time::Instant;
use vstd::prelude::*;

verus! {

/// The handle of one leased block: it cannot be copied, and dropping it
/// queues the block for reclamation.
#[derive(Debug)]
pub struct Allocation {
    index: NodeId,
    range: Range<usize>,
    to_remove: Sender<NodeId>,
}

impl Allocation {
    /// The block that the handle leases.
    pub closed spec fn node(&self) -> NodeId {
        self.index
    }

    /// The range that was asked for.
    pub closed spec fn spec_range(&self) -> Range<usize> {
        self.range
    }

    /// The range that was asked for: it starts where the leased block
    /// starts and has the length of the request, not of the block.
    #[verifier::when_used_as_spec(spec_range)]
    pub fn range(&self) -> (range: Range<usize>)
        ensures
            range == self.spec_range(),
    {
        Range { start: self.range.start, end: self.range.end }
    }
}

impl Drop for Allocation {
    /// `Sender::send`: queues the block for reclamation. Where the receiver
    /// is gone the entry is lost, and that is not an error.
    #[verifier::external_body]
    fn drop(&mut self)
        opens_invariants none
        no_unwind
    {
        let _ = self.to_remove.send(self.index);
    }
}

/// The bookkeeping of one universe: the block tree in its arena, the queue
/// of blocks that wait to be handed back, and the bounds on block sizes.
pub struct BuddyBookkeeping {
    pub(crate) blocks: Arena<Block>,
    pub(crate) root: NodeId,
    pub(crate) to_remove_sender: Sender<NodeId>,
    pub(crate) to_remove_receiver: Receiver<NodeId>,
    pub(crate) min_block_size: usize,
    pub(crate) max_block_size: usize,
}

impl View for BuddyBookkeeping {
    type V = PrettyBlock;

    /// The block tree.
    closed spec fn view(&self) -> PrettyBlock {
        project(arena_blocks(self.blocks), self.root)
    }
}

impl BuddyBookkeeping {
    /// The number of units in the universe.
    pub closed spec fn size(&self) -> usize {
        arena_blocks(self.blocks)[self.root].range.end
    }

    /// The smallest block that is leased.
    pub closed spec fn min_block_size(&self) -> usize {
        self.min_block_size
    }

    /// The largest block that is leased.
    pub closed spec fn max_block_size(&self) -> usize {
        self.max_block_size
    }

    /// The invariant of the bookkeeping: the arena holds a buddy tree over
    /// the universe and nothing else, and the block sizes are in order.
    pub closed spec fn wf(&self) -> bool {
        let m = arena_blocks(self.blocks);
        &&& rooted(m, self.root)
        &&& m[self.root].range.start == 0
        &&& forall|j: NodeId| #[trigger] m.dom().contains(j) ==> within(m, self.root, j)
        &&& self.min_block_size <= self.max_block_size <= m[self.root].range.end
    }

    /// The block tree has the buddy shape and covers the universe.
    pub proof fn lemma_shaped(&self)
        requires
            self.wf(),
        ensures
            shaped(self@),
            self@.range.start == 0,
            self@.range.end == self.size(),
            is_pow2(self.size() as int),
            self.min_block_size() <= self.max_block_size() <= self.size(),
    {
        lemma_project_shaped(arena_blocks(self.blocks), self.root);
    }

    /// No two leases overlap, and every lease lies inside the universe:
    /// from left to right, each leased range ends before the next begins.
    pub proof fn lemma_leases_apart(&self, i: int, j: int)
        requires
            self.wf(),
            0 <= i < j < leased(self@).len(),
        ensures
            0 <= leased(self@)[i].start < leased(self@)[i].end <= leased(self@)[j].start,
            leased(self@)[j].start < leased(self@)[j].end <= self.size(),
    {
        self.lemma_shaped();
        lemma_leased_inside(self@, i);
        lemma_leased_inside(self@, j);
        lemma_leased_apart(self@, i, j);
    }

    /// The range of the block behind `id` where `id` names a leased block.
    pub closed spec fn leased_behind(&self, id: NodeId) -> Option<Range<usize>> {
        let m = arena_blocks(self.blocks);
        if m.dom().contains(id) && m[id].state is Occupied {
            Some(m[id].range)
        } else {
            None
        }
    }

    /// Two different leased blocks cover ranges that do not overlap, and
    /// each lies inside the universe.
    pub proof fn lemma_leased_blocks_apart(&self, a: NodeId, b: NodeId)
        requires
            self.wf(),
            a != b,
            self.leased_behind(a) is Some,
            self.leased_behind(b) is Some,
        ensures
            ({
                let first = self.leased_behind(a)->Some_0;
                let second = self.leased_behind(b)->Some_0;
                &&& first.end <= second.start || second.end <= first.start
                &&& 0 <= first.start < first.end <= self.size()
                &&& 0 <= second.start < second.end <= self.size()
            }),
    {
        let m = arena_blocks(self.blocks);
        lemma_leaves_apart(m, self.root, a, b);
        lemma_within_bounds(m, self.root, a);
        lemma_within_bounds(m, self.root, b);
    }

    /// Every leased block spans a power of two and starts at a multiple of
    /// its length, and its range is one of the leases of the tree.
    pub proof fn lemma_lease_aligned(&self, id: NodeId)
        requires
            self.wf(),
            self.leased_behind(id) is Some,
        ensures
            ({
                let lease = self.leased_behind(id)->Some_0;
                &&& is_pow2(lease.end - lease.start)
                &&& lease.start as int % (lease.end - lease.start) == 0
                &&& has_block(self@, leased_leaf(lease.start, lease.end))
                &&& leased(self@).contains(lease)
            }),
    {
        let m = arena_blocks(self.blocks);
        lemma_project_shaped(m, self.root);
        lemma_within_bounds(m, self.root, id);
        lemma_block_in_picture(m, self.root, id);
        lemma_lease_in_picture(m, self.root, id);
        lemma_pow2_halves(self@.range.end - self@.range.start);
        lemma_every_block_aligned(self@, project(m, id));
    }

    /// The tree in the arena, for the functions that walk it.
    pub(crate) proof fn lemma_rooted(&self)
        requires
            self.wf(),
        ensures
            rooted(arena_blocks(self.blocks), self.root),
            self@ == project(arena_blocks(self.blocks), self.root),
    {
    }

    /// The bookkeeping of a universe of `size` units, all of it free.
    pub fn new(size: usize, min_block_size: usize, max_block_size: usize) -> (book: BuddyBookkeeping)
        requires
            is_pow2(size as int),
            max_block_size <= size,
            min_block_size <= max_block_size,
        ensures
            book.wf(),
            book@ == free_leaf(0, size),
            book.size() == size,
            book.min_block_size() == min_block_size,
            book.max_block_size() == max_block_size,
    {
        let (new_arena, root) = universe(size);
        let (sender, receiver) = open_queue();
        let book = BuddyBookkeeping {
            to_remove_sender: sender,
            to_remove_receiver: receiver,
            blocks: new_arena,
            root,
            min_block_size,
            max_block_size,
        };
        proof {
            let m = arena_blocks(book.blocks);
            assert(m.dom() =~= set![root]);
            assert(within(m, root, root));
        }
        book
    }

    /// Leases `count` units: the leftmost block of the rounded size that is
    /// free or can be split off a larger free block. `None` means that the
    /// request is larger than the largest block, or that no block can serve
    /// it; the tree is then as it was.
    pub fn allocate(&mut self, count: usize) -> (handle: Option<Allocation>)
        requires
            old(self).wf(),
            count > 0,
            best_size(count as int, old(self).min_block_size() as int, old(self).max_block_size() as int) matches Some(
                size,
            ) ==> is_pow2(size),
        ensures
            final(self).wf(),
            final(self).size() == old(self).size(),
            final(self).min_block_size() == old(self).min_block_size(),
            final(self).max_block_size() == old(self).max_block_size(),
            count > old(self).max_block_size() ==> handle is None,
            handle is None ==> final(self)@ == old(self)@,
            handle is None <==> (best_size(
                count as int,
                old(self).min_block_size() as int,
                old(self).max_block_size() as int,
            ) matches Some(size) ==> fit(old(self)@, size) is None),
            handle matches Some(lease_of) ==> {
                let size = best_size(
                    count as int,
                    old(self).min_block_size() as int,
                    old(self).max_block_size() as int,
                )->Some_0;
                &&& fit(old(self)@, size) == Some(lease_of.range().start)
                &&& lease_of.range().end == lease_of.range().start + count
                &&& lease_of.range().end <= old(self).size()
                &&& final(self)@ == lease(old(self)@, lease_of.range().start, size)
                &&& old(self).leased_behind(lease_of.node()) is None
                &&& final(self).leased_behind(lease_of.node()) == Some(
                    Range { start: lease_of.range().start, end: (lease_of.range().start + size) as usize },
                )
            },
            forall|id: NodeId| #[trigger]
                old(self).leased_behind(id) is Some ==> final(self).leased_behind(id) == old(self).leased_behind(id),
    {
        let best_size = match block_size_for(count, self.min_block_size, self.max_block_size) {
            Some(size) => size,
            None => {
                return None;
            },
        };
        let found = crate::buddy::allocate(&mut self.blocks, self.root, best_size);
        match found {
            Some(x) => {
                proof {
                    lemma_within_bounds(arena_blocks(self.blocks), self.root, x);
                }
                let start = arena_get(&self.blocks, x).unwrap().range.start;
                Some(Allocation { index: x, range: Range { start, end: start + count }, to_remove: share(&self.to_remove_sender) })
            },
            None => None,
        }
    }

    /// What a drain has done between `before` and now, where `back` lists
    /// the ranges it handed back: each of them was a lease of `before`, and
    /// every block leased in `before` whose range is not among them is still
    /// leased, behind the same reference.
    pub open spec fn handed_back(&self, before: BuddyBookkeeping, back: Seq<Range<usize>>) -> bool {
        &&& forall|i: int| 0 <= i < back.len() ==> leased(before@).contains(#[trigger] back[i])
        &&& forall|id: NodeId| #[trigger]
            before.leased_behind(id) is Some && !back.contains(before.leased_behind(id)->Some_0)
                ==> self.leased_behind(id) == before.leased_behind(id)
    }

    /// The step of a drain for one entry of the queue: hands back the block
    /// behind `id` where `id` names a leased block, and says over which
    /// range; leaves everything as it is where it does not. No other lease
    /// is touched. The drain calls this with what the queue delivers; called
    /// for a block whose handle is still alive, it leaves that handle naming
    /// a block that is no longer leased to it.
    pub fn reclaim(&mut self, id: NodeId) -> (back: Option<Range<usize>>)
        requires
            old(self).wf(),
        ensures
            final(self).wf(),
            final(self).size() == old(self).size(),
            final(self).min_block_size() == old(self).min_block_size(),
            final(self).max_block_size() == old(self).max_block_size(),
            back == old(self).leased_behind(id),
            final(self).leased_behind(id) is None,
            forall|other: NodeId| #[trigger]
                final(self).leased_behind(other) == (if other == id {
                    None
                } else {
                    old(self).leased_behind(other)
                }),
            back is None ==> final(self)@ == old(self)@,
            back matches Some(range) ==> leased(old(self)@).contains(range) && final(self)@ == release(
                old(self)@,
                range,
            ) && leased(final(self)@).len() + 1 == leased(old(self)@).len(),
    {
        let leased_range = match arena_get(&self.blocks, id) {
            Some(block) => match block.state {
                BlockState::Occupied => Some(Range { start: block.range.start, end: block.range.end }),
                _ => None,
            },
            None => None,
        };
        match leased_range {
            Some(range) => {
                proof {
                    lemma_freed(arena_blocks(self.blocks), self.root, id);
                    lemma_lease_in_picture(arena_blocks(self.blocks), self.root, id);
                    assert(freed(arena_blocks(self.blocks), id).dom() =~= arena_blocks(self.blocks).dom());
                }
                dealloc(&mut self.blocks, id);
                Some(range)
            },
            None => None,
        }
    }

    /// One more range handed back: what the drain has done so far still
    /// holds with the range added.
    proof fn lemma_one_more(self, before: BuddyBookkeeping, drained: BuddyBookkeeping, back: Seq<Range<usize>>, id: NodeId)
        requires
            drained.wf(),
            drained.handed_back(before, back),
            forall|x: Range<usize>| leased(drained@).contains(x) ==> leased(before@).contains(x),
            drained.leased_behind(id) is Some,
            self@ == release(drained@, drained.leased_behind(id)->Some_0),
            leased(drained@).contains(drained.leased_behind(id)->Some_0),
            forall|other: NodeId| #[trigger]
                self.leased_behind(other) == (if other == id {
                    None
                } else {
                    drained.leased_behind(other)
                }),
        ensures
            self.handed_back(before, back.push(drained.leased_behind(id)->Some_0)),
            forall|x: Range<usize>| leased(self@).contains(x) ==> leased(before@).contains(x),
            release_all(before@, back.push(drained.leased_behind(id)->Some_0)) == release(
                release_all(before@, back),
                drained.leased_behind(id)->Some_0,
            ),
    {
        let range = drained.leased_behind(id)->Some_0;
        let more = back.push(range);
        assert(more.drop_last() =~= back);
        assert(more.last() == range);
        assert forall|i: int| 0 <= i < more.len() implies leased(before@).contains(#[trigger] more[i]) by {
            if i < back.len() {
                assert(more[i] == back[i]);
            }
        }
        assert forall|other: NodeId| #[trigger]
            before.leased_behind(other) is Some && !more.contains(before.leased_behind(other)->Some_0)
            implies self.leased_behind(other) == before.leased_behind(other) by {
            let r = before.leased_behind(other)->Some_0;
            if back.contains(r) {
                let i = choose|i: int| 0 <= i < back.len() && back[i] == r;
                assert(more[i] == r);
            }
            assert(more[back.len() as int] == range);
        }
        drained.lemma_shaped();
        lemma_release(drained@, range);
        assert forall|x: Range<usize>| leased(self@).contains(x) implies leased(before@).contains(x) by {
            let k = leases_before(drained@, range.start);
            let kept = leased(drained@);
            if k < kept.len() && kept[k] == range {
                let i = choose|i: int| 0 <= i < kept.remove(k).len() && kept.remove(k)[i] == x;
                if i < k {
                    assert(kept[i] == x);
                } else {
                    assert(kept[i + 1] == x);
                }
            }
        }
    }

    /// Drains the queue of dropped handles, handing back each block that it
    /// names, and then coalesces the whole tree. An entry that names no
    /// leased block ends the draining. Only blocks that the queue named are
    /// handed back.
    pub fn tidy(&mut self)
        requires
            old(self).wf(),
        ensures
            final(self).wf(),
            final(self).size() == old(self).size(),
            final(self).min_block_size() == old(self).min_block_size(),
            final(self).max_block_size() == old(self).max_block_size(),
            forall|id: NodeId| #[trigger]
                final(self).leased_behind(id) is Some ==> final(self).leased_behind(id) == old(self).leased_behind(id),
            exists|back: Seq<Range<usize>>|
                final(self).handed_back(*old(self), back) && final(self)@ == coalesce(
                    #[trigger] release_all(old(self)@, back),
                ),
    {
        let ghost mut back: Seq<Range<usize>> = Seq::empty();
        loop
            invariant
                self.wf(),
                self.size() == old(self).size(),
                self.min_block_size() == old(self).min_block_size(),
                self.max_block_size() == old(self).max_block_size(),
                self@ == release_all(old(self)@, back),
                self.handed_back(*old(self), back),
                forall|x: Range<usize>| leased(self@).contains(x) ==> leased(old(self)@).contains(x),
                forall|id: NodeId| #[trigger]
                    self.leased_behind(id) is Some ==> self.leased_behind(id) == old(self).leased_behind(id),
            decreases leased(self@).len(),
        {
            let ghost drained = *self;
            let entry = match next_waiting(&self.to_remove_receiver) {
                Some(id) => {
                    let entry = self.reclaim(id);
                    proof {
                        if entry is Some {
                            self.lemma_one_more(*old(self), drained, back, id);
                        }
                    }
                    entry
                },
                None => None,
            };
            match entry {
                Some(range) => {
                    proof {
                        back = back.push(range);
                    }
                },
                None => {
                    break ;
                },
            }
        }
        let ghost drained = *self;
        crate::buddy::tidy(&mut self.blocks, self.root);
        proof {
            self.lemma_pass_keeps(*old(self), drained, back);
        }
    }

    /// As `tidy`, within a budget of `gas` units of work: handing back one
    /// block costs one unit, and so does each block that the coalescing pass
    /// visits. What the budget does not cover waits for a later call.
    pub fn tidy_gas(&mut self, gas: usize)
        requires
            old(self).wf(),
        ensures
            final(self).wf(),
            final(self).size() == old(self).size(),
            final(self).min_block_size() == old(self).min_block_size(),
            final(self).max_block_size() == old(self).max_block_size(),
            forall|id: NodeId| #[trigger]
                final(self).leased_behind(id) is Some ==> final(self).leased_behind(id) == old(self).leased_behind(id),
            gas == 0 ==> final(self)@ == old(self)@,
            gas == 0 ==> forall|id: NodeId| #[trigger] final(self).leased_behind(id) == old(self).leased_behind(id),
            exists|back: Seq<Range<usize>>|
                back.len() <= gas && final(self).handed_back(*old(self), back) && final(self)@ == sweep(
                    #[trigger] release_all(old(self)@, back),
                    (gas - back.len()) as nat,
                ).tree,
    {
        let mut gas = gas;
        let ghost budget = gas;
        let ghost mut back: Seq<Range<usize>> = Seq::empty();
        while gas > 0
            invariant
                self.wf(),
                self.size() == old(self).size(),
                self.min_block_size() == old(self).min_block_size(),
                self.max_block_size() == old(self).max_block_size(),
                self@ == release_all(old(self)@, back),
                self.handed_back(*old(self), back),
                forall|x: Range<usize>| leased(self@).contains(x) ==> leased(old(self)@).contains(x),
                forall|id: NodeId| #[trigger]
                    self.leased_behind(id) is Some ==> self.leased_behind(id) == old(self).leased_behind(id),
                budget == 0 ==> forall|id: NodeId| #[trigger] self.leased_behind(id) == old(self).leased_behind(id),
                back.len() + gas == budget,
            decreases gas,
        {
            let ghost drained = *self;
            let entry = match next_waiting(&self.to_remove_receiver) {
                Some(id) => {
                    let entry = self.reclaim(id);
                    proof {
                        if entry is Some {
                            self.lemma_one_more(*old(self), drained, back, id);
                        }
                    }
                    entry
                },
                None => None,
            };
            match entry {
                Some(range) => {
                    proof {
                        back = back.push(range);
                    }
                    gas = gas - 1;
                },
                None => {
                    break ;
                },
            }
        }
        let ghost drained = *self;
        crate::buddy::tidy_gas(&mut self.blocks, self.root, &mut gas);
        proof {
            self.lemma_pass_keeps(*old(self), drained, back);
        }
    }

    /// As `tidy`, until `deadline`: the clock is read before each entry of
    /// the queue and before each block of the coalescing pass, and the
    /// first answer decides what `tidy_timed_visit` does. What is not done
    /// by the deadline waits for a later call.
    pub fn tidy_timed(&mut self, deadline: Instant)
        requires
            old(self).wf(),
        ensures
            final(self).wf(),
            final(self).size() == old(self).size(),
            final(self).min_block_size() == old(self).min_block_size(),
            final(self).max_block_size() == old(self).max_block_size(),
            forall|id: NodeId| #[trigger]
                final(self).leased_behind(id) is Some ==> final(self).leased_behind(id) == old(self).leased_behind(id),
            exists|back: Seq<Range<usize>>|
                final(self).handed_back(*old(self), back) && merged(
                    #[trigger] release_all(old(self)@, back),
                    final(self)@,
                ),
    {
        let late = reached(now(), deadline);
        self.tidy_timed_visit(late, deadline);
    }

    /// `tidy_timed` once the clock has been read for the first time: `late`
    /// says whether the deadline had come. Where it had, no entry of the
    /// queue is received and nothing changes. Where it had not, one entry
    /// is received and handed back, and so on after each further reading of
    /// the clock; when the queue is empty the coalescing pass runs against
    /// the same deadline.
    pub fn tidy_timed_visit(&mut self, late: bool, deadline: Instant)
        requires
            old(self).wf(),
        ensures
            final(self).wf(),
            final(self).size() == old(self).size(),
            final(self).min_block_size() == old(self).min_block_size(),
            final(self).max_block_size() == old(self).max_block_size(),
            late ==> final(self)@ == old(self)@,
            late ==> forall|id: NodeId| #[trigger] final(self).leased_behind(id) == old(self).leased_behind(id),
            forall|id: NodeId| #[trigger]
                final(self).leased_behind(id) is Some ==> final(self).leased_behind(id) == old(self).leased_behind(id),
            exists|back: Seq<Range<usize>>|
                final(self).handed_back(*old(self), back) && merged(
                    #[trigger] release_all(old(self)@, back),
                    final(self)@,
                ),
    {
        let ghost mut back: Seq<Range<usize>> = Seq::empty();
        if late {
            proof {
                lemma_merged_reflexive(self@);
                assert(self.handed_back(*old(self), back));
                assert(self@ == release_all(old(self)@, back));
            }
            return ;
        }
        loop
            invariant
                self.wf(),
                self.size() == old(self).size(),
                self.min_block_size() == old(self).min_block_size(),
                self.max_block_size() == old(self).max_block_size(),
                self@ == release_all(old(self)@, back),
                self.handed_back(*old(self), back),
                forall|x: Range<usize>| leased(self@).contains(x) ==> leased(old(self)@).contains(x),
                forall|id: NodeId| #[trigger]
                    self.leased_behind(id) is Some ==> self.leased_behind(id) == old(self).leased_behind(id),
                !late,
            decreases leased(self@).len(),
        {
            let ghost drained = *self;
            let entry = match next_waiting(&self.to_remove_receiver) {
                Some(id) => {
                    let entry = self.reclaim(id);
                    proof {
                        if entry is Some {
                            self.lemma_one_more(*old(self), drained, back, id);
                        }
                    }
                    entry
                },
                None => None,
            };
            match entry {
                Some(range) => {
                    proof {
                        back = back.push(range);
                    }
                },
                None => {
                    break ;
                },
            }
            if reached(now(), deadline) {
                proof {
                    lemma_merged_reflexive(self@);
                }
                return ;
            }
        }
        let ghost drained = *self;
        crate::buddy::tidy_timed(&mut self.blocks, self.root, deadline);
        proof {
            self.lemma_pass_keeps(*old(self), drained, back);
        }
    }

    /// A coalescing pass keeps what the drain before it has done: it
    /// touches no lease.
    proof fn lemma_pass_keeps(self, before: BuddyBookkeeping, drained: BuddyBookkeeping, back: Seq<Range<usize>>)
        requires
            drained.handed_back(before, back),
            forall|id: NodeId| #[trigger]
                drained.leased_behind(id) is Some ==> drained.leased_behind(id) == before.leased_behind(id),
            leases_kept(arena_blocks(drained.blocks), arena_blocks(self.blocks)),
            leases_kept(arena_blocks(self.blocks), arena_blocks(drained.blocks)),
        ensures
            self.handed_back(before, back),
            forall|id: NodeId| #[trigger] self.leased_behind(id) == drained.leased_behind(id),
            forall|id: NodeId| #[trigger]
                self.leased_behind(id) is Some ==> self.leased_behind(id) == before.leased_behind(id),
    {
        assert forall|id: NodeId| #[trigger] self.leased_behind(id) == drained.leased_behind(id) by {}
    }
}


/// A fixed-capacity array whose elements are leased in blocks.
pub struct BuddyArena<T> {
    elements: Vec<T>,
    bookkeeping: BuddyBookkeeping,
}

impl<T> BuddyArena<T> {
    /// The elements of the array.
    pub closed spec fn elements(&self) -> Seq<T> {
        self.elements@
    }

    /// The bookkeeping of the array.
    pub closed spec fn spec_bookkeeping(&self) -> &BuddyBookkeeping {
        &self.bookkeeping
    }

    /// The invariant of the array: its bookkeeping is in order, and the
    /// universe is the array.
    pub closed spec fn wf(&self) -> bool {
        self.bookkeeping.wf() && self.elements@.len() == self.bookkeeping.size()
    }

    /// An array of `size` default elements, none of them leased.
    pub fn new(size: usize, min_block_size: usize, max_block_size: usize) -> (arena: BuddyArena<T>) where
        T: Default,

        requires
            is_pow2(size as int),
            max_block_size <= size,
            min_block_size <= max_block_size,
        ensures
            arena.wf(),
            arena.elements().len() == size,
            arena.bookkeeping()@ == free_leaf(0, size),
            arena.bookkeeping().size() == size,
            arena.bookkeeping().min_block_size() == min_block_size,
            arena.bookkeeping().max_block_size() == max_block_size,
    {
        let mut elements_vec: Vec<T> = Vec::new();
        while elements_vec.len() < size
            invariant
                elements_vec@.len() <= size,
            decreases size - elements_vec@.len(),
        {
            elements_vec.push(T::default());
        }
        BuddyArena {
            elements: elements_vec,
            bookkeeping: BuddyBookkeeping::new(size, min_block_size, max_block_size),
        }
    }

    #[verifier::when_used_as_spec(spec_bookkeeping)]
    pub fn bookkeeping(&self) -> (book: &BuddyBookkeeping)
        ensures
            book == self.spec_bookkeeping(),
    {
        &self.bookkeeping
    }

    /// The elements that `a` leases.
    pub fn view(&self, a: &Allocation) -> (slice: &[T])
        requires
            a.range().start <= a.range().end <= self.elements().len(),
        ensures
            slice@ == self.elements().subrange(a.range().start as int, a.range().end as int),
    {
        &self.elements[a.range()]
    }

    /// The elements that `a` leases, to be changed in place. The rest of
    /// the array and the bookkeeping stay as they are.
    pub fn view_mut(&mut self, a: &Allocation) -> (slice: &mut [T])
        requires
            a.range().start <= a.range().end <= old(self).elements().len(),
        ensures
            slice@ == old(self).elements().subrange(a.range().start as int, a.range().end as int),
            final(self).elements() == old(self).elements().subrange(0, a.range().start as int) + final(slice)@
                + old(self).elements().subrange(a.range().end as int, old(self).elements().len() as int),
            final(self).bookkeeping() == old(self).bookkeeping(),
            old(self).wf() && final(slice)@.len() == slice@.len() ==> final(self).wf(),
    {
        let range = a.range();
        let (_, tail) = self.elements.as_mut_slice().split_at_mut(range.start);
        let (slice, _) = tail.split_at_mut(range.end - range.start);
        slice
    }

    /// Leases `count` elements, as the bookkeeping does; the handle fits
    /// the array.
    pub fn allocate(&mut self, count: usize) -> (handle: Option<Allocation>)
        requires
            old(self).wf(),
            count > 0,
            best_size(
                count as int,
                old(self).bookkeeping().min_block_size() as int,
                old(self).bookkeeping().max_block_size() as int,
            ) matches Some(size) ==> is_pow2(size),
        ensures
            final(self).wf(),
            final(self).elements() == old(self).elements(),
            final(self).bookkeeping().size() == old(self).bookkeeping().size(),
            final(self).bookkeeping().min_block_size() == old(self).bookkeeping().min_block_size(),
            final(self).bookkeeping().max_block_size() == old(self).bookkeeping().max_block_size(),
            count > old(self).bookkeeping().max_block_size() ==> handle is None,
            handle is None ==> final(self).bookkeeping()@ == old(self).bookkeeping()@,
            handle is None <==> (best_size(
                count as int,
                old(self).bookkeeping().min_block_size() as int,
                old(self).bookkeeping().max_block_size() as int,
            ) matches Some(size) ==> fit(old(self).bookkeeping()@, size) is None),
            handle matches Some(lease_of) ==> {
                let size = best_size(
                    count as int,
                    old(self).bookkeeping().min_block_size() as int,
                    old(self).bookkeeping().max_block_size() as int,
                )->Some_0;
                &&& fit(old(self).bookkeeping()@, size) == Some(lease_of.range().start)
                &&& lease_of.range().end == lease_of.range().start + count
                &&& lease_of.range().end <= final(self).elements().len()
                &&& final(self).bookkeeping()@ == lease(old(self).bookkeeping()@, lease_of.range().start, size)
                &&& old(self).bookkeeping().leased_behind(lease_of.node()) is None
                &&& final(self).bookkeeping().leased_behind(lease_of.node()) == Some(
                    Range { start: lease_of.range().start, end: (lease_of.range().start + size) as usize },
                )
            },
            forall|id: NodeId| #[trigger]
                old(self).bookkeeping().leased_behind(id) is Some ==> final(self).bookkeeping().leased_behind(id)
                    == old(self).bookkeeping().leased_behind(id),
    {
        self.bookkeeping.allocate(count)
    }

    /// Reclaims dropped handles and coalesces, as the bookkeeping does.
    pub fn tidy(&mut self)
        requires
            old(self).wf(),
        ensures
            final(self).wf(),
            final(self).elements() == old(self).elements(),
            final(self).bookkeeping().size() == old(self).bookkeeping().size(),
            final(self).bookkeeping().min_block_size() == old(self).bookkeeping().min_block_size(),
            final(self).bookkeeping().max_block_size() == old(self).bookkeeping().max_block_size(),
            forall|id: NodeId| #[trigger]
                final(self).bookkeeping().leased_behind(id) is Some ==> final(self).bookkeeping().leased_behind(id)
                    == old(self).bookkeeping().leased_behind(id),
            exists|back: Seq<Range<usize>>|
                final(self).bookkeeping().handed_back(*old(self).bookkeeping(), back) && final(self).bookkeeping()@
                    == coalesce(#[trigger] release_all(old(self).bookkeeping()@, back)),
    {
        self.bookkeeping.tidy();
    }

    /// Reclaims and coalesces within `gas` units of work, as the
    /// bookkeeping does.
    pub fn tidy_gas(&mut self, gas: usize)
        requires
            old(self).wf(),
        ensures
            final(self).wf(),
            final(self).elements() == old(self).elements(),
            final(self).bookkeeping().size() == old(self).bookkeeping().size(),
            final(self).bookkeeping().min_block_size() == old(self).bookkeeping().min_block_size(),
            final(self).bookkeeping().max_block_size() == old(self).bookkeeping().max_block_size(),
            forall|id: NodeId| #[trigger]
                final(self).bookkeeping().leased_behind(id) is Some ==> final(self).bookkeeping().leased_behind(id)
                    == old(self).bookkeeping().leased_behind(id),
            gas == 0 ==> final(self).bookkeeping()@ == old(self).bookkeeping()@,
            gas == 0 ==> forall|id: NodeId| #[trigger]
                final(self).bookkeeping().leased_behind(id) == old(self).bookkeeping().leased_behind(id),
            exists|back: Seq<Range<usize>>|
                back.len() <= gas && final(self).bookkeeping().handed_back(*old(self).bookkeeping(), back)
                    && final(self).bookkeeping()@ == sweep(
                    #[trigger] release_all(old(self).bookkeeping()@, back),
                    (gas - back.len()) as nat,
                ).tree,
    {
        self.bookkeeping.tidy_gas(gas);
    }

    /// Reclaims and coalesces until `deadline`, as the bookkeeping does.
    pub fn tidy_timed(&mut self, deadline: Instant)
        requires
            old(self).wf(),
        ensures
            final(self).wf(),
            final(self).elements() == old(self).elements(),
            final(self).bookkeeping().size() == old(self).bookkeeping().size(),
            final(self).bookkeeping().min_block_size() == old(self).bookkeeping().min_block_size(),
            final(self).bookkeeping().max_block_size() == old(self).bookkeeping().max_block_size(),
            forall|id: NodeId| #[trigger]
                final(self).bookkeeping().leased_behind(id) is Some ==> final(self).bookkeeping().leased_behind(id)
                    == old(self).bookkeeping().leased_behind(id),
            exists|back: Seq<Range<usize>>|
                final(self).bookkeeping().handed_back(*old(self).bookkeeping(), back) && merged(
                    #[trigger] release_all(old(self).bookkeeping()@, back),
                    final(self).bookkeeping()@,
                ),
    {
        self.bookkeeping.tidy_timed(deadline);
    }

    /// `tidy_timed` once the clock has been read for the first time, as the
    /// bookkeeping does it: where `late` holds nothing changes.
    pub fn tidy_timed_visit(&mut self, late: bool, deadline: Instant)
        requires
            old(self).wf(),
        ensures
            final(self).wf(),
            final(self).elements() == old(self).elements(),
            final(self).bookkeeping().size() == old(self).bookkeeping().size(),
            final(self).bookkeeping().min_block_size() == old(self).bookkeeping().min_block_size(),
            final(self).bookkeeping().max_block_size() == old(self).bookkeeping().max_block_size(),
            late ==> final(self).bookkeeping()@ == old(self).bookkeeping()@,
            late ==> forall|id: NodeId| #[trigger]
                final(self).bookkeeping().leased_behind(id) == old(self).bookkeeping().leased_behind(id),
            forall|id: NodeId| #[trigger]
                final(self).bookkeeping().leased_behind(id) is Some ==> final(self).bookkeeping().leased_behind(id)
                    == old(self).bookkeeping().leased_behind(id),
            exists|back: Seq<Range<usize>>|
                final(self).bookkeeping().handed_back(*old(self).bookkeeping(), back) && merged(
                    #[trigger] release_all(old(self).bookkeeping()@, back),
                    final(self).bookkeeping()@,
                ),
    {
        self.bookkeeping.tidy_timed_visit(late, deadline);
    }
}

} // verus!
