//! How a block tree lies in an arena: which blocks form the tree below a
//! given block, when they form a buddy tree, and the picture they give.

use crate::buddy::{Block, BlockState, NodeId};
use crate::pretty_print::{PrettyBlock, PrettyState};
use crate::sizing::{is_pow2, lemma_pow2_halves};
use crate::tree::{
    coalesce, has_block, leased, lemma_coalesce_idempotent, lemma_merged_then_coalesce, merged, release, shaped,
};
use std::ops::Range;
use vstd::prelude::*;

verus! {

/// The number of units that a block covers.
pub open spec fn extent(block: Block) -> int {
    block.range.end - block.range.start
}

/// `left` and `right` are the two halves of `parent`: equal, adjacent, and
/// together covering it.
pub open spec fn halves(parent: Block, left: Block, right: Block) -> bool {
    &&& left.range.start == parent.range.start
    &&& left.range.end == right.range.start
    &&& right.range.end == parent.range.end
    &&& extent(left) == extent(right)
    &&& 0 < extent(left)
}

/// The blocks of `m` below and including `id` form a buddy tree: each of
/// them resolves, spans a power of two, and is a leaf or split into its two
/// halves, which are roots of buddy trees themselves.
pub open spec fn rooted(m: Map<NodeId, Block>, id: NodeId) -> bool
    decreases extent(m[id]),
{
    &&& m.dom().contains(id)
    &&& is_pow2(extent(m[id]))
    &&& match m[id].state {
        BlockState::Split(l, r) => {
            &&& halves(m[id], m[l], m[r])
            &&& rooted(m, l)
            &&& rooted(m, r)
        },
        _ => true,
    }
}

/// `node` is one of the blocks of the tree below and including `id`.
pub open spec fn within(m: Map<NodeId, Block>, id: NodeId, node: NodeId) -> bool
    decreases extent(m[id]),
{
    ||| id == node
    ||| match m[id].state {
        BlockState::Split(l, r) => {
            &&& halves(m[id], m[l], m[r])
            &&& (within(m, l, node) || within(m, r, node))
        },
        _ => false,
    }
}

/// The picture of the tree below and including `id`.
pub open spec fn project(m: Map<NodeId, Block>, id: NodeId) -> PrettyBlock
    decreases extent(m[id]),
{
    PrettyBlock {
        range: m[id].range,
        state: match m[id].state {
            BlockState::Split(l, r) => {
                if halves(m[id], m[l], m[r]) {
                    PrettyState::Split(Box::new(project(m, l)), Box::new(project(m, r)))
                } else {
                    PrettyState::Available
                }
            },
            BlockState::Available => PrettyState::Available,
            BlockState::Occupied => PrettyState::Occupied,
        },
    }
}

/// The picture of a buddy tree in the arena has the buddy shape.
pub proof fn lemma_project_shaped(m: Map<NodeId, Block>, id: NodeId)
    requires
        rooted(m, id),
    ensures
        shaped(project(m, id)),
        project(m, id).range == m[id].range,
    decreases extent(m[id]),
{
    match m[id].state {
        BlockState::Split(l, r) => {
            lemma_project_shaped(m, l);
            lemma_project_shaped(m, r);
        },
        _ => {},
    }
}

/// A block of a buddy tree resolves, roots a buddy tree itself, and lies
/// inside the root's range; below the root it is smaller than the root.
pub proof fn lemma_within_bounds(m: Map<NodeId, Block>, id: NodeId, node: NodeId)
    requires
        rooted(m, id),
        within(m, id, node),
    ensures
        m.dom().contains(node),
        rooted(m, node),
        m[id].range.start <= m[node].range.start,
        m[node].range.end <= m[id].range.end,
        1 <= extent(m[node]),
        node != id ==> extent(m[node]) < extent(m[id]),
    decreases extent(m[id]),
{
    lemma_pow2_halves(extent(m[id]));
    if node != id {
        match m[id].state {
            BlockState::Split(l, r) => {
                if within(m, l, node) {
                    lemma_within_bounds(m, l, node);
                } else {
                    lemma_within_bounds(m, r, node);
                }
            },
            _ => {},
        }
    }
}

/// The two halves of a split block share no block, and neither holds the
/// split block itself.
pub proof fn lemma_halves_apart(m: Map<NodeId, Block>, id: NodeId, node: NodeId)
    requires
        rooted(m, id),
        m[id].state is Split,
    ensures
        !(within(m, m[id].state->Split_0, node) && within(m, m[id].state->Split_1, node)),
        within(m, m[id].state->Split_0, node) || within(m, m[id].state->Split_1, node) ==> node != id
            && within(m, id, node),
{
    let l = m[id].state->Split_0;
    let r = m[id].state->Split_1;
    if within(m, l, node) {
        lemma_within_bounds(m, l, node);
    }
    if within(m, r, node) {
        lemma_within_bounds(m, r, node);
    }
}

/// A buddy tree is the same tree in every map that holds the same blocks
/// behind its references.
pub proof fn lemma_frame(m: Map<NodeId, Block>, m2: Map<NodeId, Block>, id: NodeId)
    requires
        rooted(m, id),
        forall|j: NodeId| #[trigger] within(m, id, j) ==> m2.dom().contains(j) && m2[j] == m[j],
    ensures
        rooted(m2, id),
        project(m2, id) == project(m, id),
        forall|j: NodeId| #[trigger] within(m2, id, j) == within(m, id, j),
    decreases extent(m[id]),
{
    assert(within(m, id, id));
    match m[id].state {
        BlockState::Split(l, r) => {
            assert forall|j: NodeId| #[trigger] within(m, l, j) implies m2.dom().contains(j) && m2[j] == m[j] by {
                lemma_halves_apart(m, id, j);
            }
            assert forall|j: NodeId| #[trigger] within(m, r, j) implies m2.dom().contains(j) && m2[j] == m[j] by {
                lemma_halves_apart(m, id, j);
            }
            assert(within(m, l, l));
            assert(within(m, r, r));
            lemma_frame(m, m2, l);
            lemma_frame(m, m2, r);
            assert forall|j: NodeId| #[trigger] within(m2, id, j) == within(m, id, j) by {
                assert(within(m2, l, j) == within(m, l, j));
                assert(within(m2, r, j) == within(m, r, j));
            }
        },
        _ => {
            assert forall|j: NodeId| #[trigger] within(m2, id, j) == within(m, id, j) by {
                assert(within(m, id, j) == (id == j));
            }
        },
    }
}

/// Two different leaves of a buddy tree cover ranges that do not overlap.
pub proof fn lemma_leaves_apart(m: Map<NodeId, Block>, id: NodeId, a: NodeId, b: NodeId)
    requires
        rooted(m, id),
        within(m, id, a),
        within(m, id, b),
        a != b,
        !(m[a].state is Split),
        !(m[b].state is Split),
    ensures
        m[a].range.end <= m[b].range.start || m[b].range.end <= m[a].range.start,
    decreases extent(m[id]),
{
    match m[id].state {
        BlockState::Split(l, r) => {
            if within(m, l, a) && within(m, l, b) {
                lemma_leaves_apart(m, l, a, b);
            } else if within(m, r, a) && within(m, r, b) {
                lemma_leaves_apart(m, r, a, b);
            } else {
                let (low, high) = if within(m, l, a) { (a, b) } else { (b, a) };
                lemma_within_bounds(m, l, low);
                lemma_within_bounds(m, r, high);
            }
        },
        _ => {},
    }
}

/// Outside the tree below `id` the two maps hold the same blocks: a block
/// outside the tree in one of them is outside the tree in the other, and is
/// the same block.
pub open spec fn same_outside(before: Map<NodeId, Block>, after: Map<NodeId, Block>, id: NodeId) -> bool {
    forall|j: NodeId|
        #![trigger before.dom().contains(j)]
        #![trigger after.dom().contains(j)]
        #![trigger within(before, id, j)]
        #![trigger within(after, id, j)]
        {
            &&& (before.dom().contains(j) && !within(before, id, j)) == (after.dom().contains(j) && !within(
                after,
                id,
                j,
            ))
            &&& before.dom().contains(j) && !within(before, id, j) ==> after[j] == before[j]
        }
}

/// Every leased block of `before` is in `after`, behind the same reference
/// and unchanged.
pub open spec fn leases_kept(before: Map<NodeId, Block>, after: Map<NodeId, Block>) -> bool {
    forall|j: NodeId|
        #![trigger before.dom().contains(j)]
        #![trigger after.dom().contains(j)]
        #![trigger before[j]]
        #![trigger after[j]]
        before.dom().contains(j) && before[j].state is Occupied ==> after.dom().contains(j) && after[j] == before[j]
}

/// A change that stays inside one half of a split block stays inside the
/// split block: the block itself and its other half are as they were.
pub proof fn lemma_half_changed(m: Map<NodeId, Block>, m2: Map<NodeId, Block>, id: NodeId, left: bool)
    requires
        rooted(m, id),
        m[id].state is Split,
        ({
            let half = if left { m[id].state->Split_0 } else { m[id].state->Split_1 };
            rooted(m2, half) && m2[half].range == m[half].range && same_outside(m, m2, half)
        }),
    ensures
        rooted(m2, id),
        m2[id] == m[id],
        same_outside(m, m2, id),
        left ==> project(m2, m[id].state->Split_1) == project(m, m[id].state->Split_1),
        !left ==> project(m2, m[id].state->Split_0) == project(m, m[id].state->Split_0),
        forall|j: NodeId|
            within(m2, id, j) == (j == id || within(m2, m[id].state->Split_0, j) || within(
                m2,
                m[id].state->Split_1,
                j,
            )),
{
    let half = if left { m[id].state->Split_0 } else { m[id].state->Split_1 };
    let other = if left { m[id].state->Split_1 } else { m[id].state->Split_0 };
    assert(within(m, half, half));
    assert(within(m, other, other));
    lemma_halves_apart(m, id, half);
    lemma_halves_apart(m, id, other);
    lemma_within_bounds(m, id, half);
    lemma_within_bounds(m, id, other);
    assert(!within(m, half, id)) by {
        if within(m, half, id) {
            lemma_within_bounds(m, half, id);
        }
    }
    assert forall|j: NodeId| #[trigger] within(m, other, j) implies m2.dom().contains(j) && m2[j] == m[j] by {
        lemma_halves_apart(m, id, j);
        lemma_within_bounds(m, other, j);
    }
    lemma_frame(m, m2, other);
    assert forall|j: NodeId|
        within(m2, id, j) == (j == id || within(m2, m[id].state->Split_0, j) || within(
            m2,
            m[id].state->Split_1,
            j,
        )) by {}
    assert forall|j: NodeId|
        #![trigger m.dom().contains(j)]
        #![trigger m2.dom().contains(j)]
        #![trigger within(m, id, j)]
        #![trigger within(m2, id, j)]
        {
            &&& (m.dom().contains(j) && !within(m, id, j)) == (m2.dom().contains(j) && !within(m2, id, j))
            &&& m.dom().contains(j) && !within(m, id, j) ==> m2[j] == m[j]
        } by {
        assert(within(m2, other, j) == within(m, other, j));
        assert(within(m, id, j) == (j == id || within(m, half, j) || within(m, other, j)));
        assert(within(m2, id, j) == (j == id || within(m2, half, j) || within(m2, other, j)));
        if within(m, other, j) {
            lemma_halves_apart(m, id, j);
            lemma_within_bounds(m, other, j);
        }
    }
}

/// The blocks below a split block whose halves are leaves are the block
/// and its two halves, three different blocks.
pub proof fn lemma_merge_halves(m: Map<NodeId, Block>, id: NodeId)
    requires
        rooted(m, id),
        m[id].state is Split,
        !(m[m[id].state->Split_0].state is Split),
        !(m[m[id].state->Split_1].state is Split),
    ensures
        m[id].state->Split_0 != id,
        m[id].state->Split_1 != id,
        m[id].state->Split_0 != m[id].state->Split_1,
        m.dom().contains(m[id].state->Split_0),
        m.dom().contains(m[id].state->Split_1),
        forall|j: NodeId|
            #[trigger] within(m, id, j) == (j == id || j == m[id].state->Split_0 || j == m[id].state->Split_1),
{
    let l = m[id].state->Split_0;
    let r = m[id].state->Split_1;
    assert(within(m, l, l));
    assert(within(m, r, r));
    lemma_halves_apart(m, id, l);
    lemma_halves_apart(m, id, r);
    lemma_within_bounds(m, id, l);
    lemma_within_bounds(m, id, r);
    assert forall|j: NodeId| #[trigger]
        within(m, id, j) == (j == id || j == m[id].state->Split_0 || j == m[id].state->Split_1) by {
        assert(within(m, l, j) == (j == l));
        assert(within(m, r, j) == (j == r));
    }
}

/// The picture of a block shows the state of the block.
pub proof fn lemma_project_state(m: Map<NodeId, Block>, id: NodeId)
    requires
        rooted(m, id),
    ensures
        project(m, id).range == m[id].range,
        project(m, id).state is Available == m[id].state is Available,
        project(m, id).state is Occupied == m[id].state is Occupied,
        project(m, id).state is Split == m[id].state is Split,
        m[id].state matches BlockState::Split(l, r) ==> project(m, id).state == PrettyState::Split(
            Box::new(project(m, l)),
            Box::new(project(m, r)),
        ) && rooted(m, l) && rooted(m, r),
{
}

/// The map in which the leased block behind `id` is free again.
pub open spec fn freed(m: Map<NodeId, Block>, id: NodeId) -> Map<NodeId, Block> {
    m.insert(id, Block { range: m[id].range, state: BlockState::Available })
}

/// Freeing a leased block of a buddy tree gives the tree in which the leaf
/// over its range is released: the same blocks, one leased leaf fewer.
pub proof fn lemma_freed(m: Map<NodeId, Block>, root: NodeId, id: NodeId)
    requires
        rooted(m, root),
        within(m, root, id),
        m[id].state is Occupied,
    ensures
        rooted(freed(m, id), root),
        freed(m, id)[root].range == m[root].range,
        same_outside(m, freed(m, id), root),
        forall|j: NodeId| #[trigger] within(freed(m, id), root, j) == within(m, root, j),
        project(freed(m, id), root) == release(project(m, root), m[id].range),
        leased(project(freed(m, id), root)).len() + 1 == leased(project(m, root)).len(),
    decreases extent(m[root]),
{
    let m2 = freed(m, id);
    if root == id {
        assert forall|j: NodeId| #[trigger] within(m2, root, j) == within(m, root, j) by {
            assert(within(m, root, j) == (j == root));
        }
    } else {
        let l = m[root].state->Split_0;
        let r = m[root].state->Split_1;
        let left = within(m, l, id);
        let half = if left { l } else { r };
        let other = if left { r } else { l };
        lemma_freed(m, half, id);
        lemma_half_changed(m, m2, root, left);
        lemma_within_bounds(m, half, id);
        lemma_project_state(m, root);
        lemma_project_state(m2, root);
        assert forall|j: NodeId| #[trigger] within(m2, root, j) == within(m, root, j) by {
            lemma_halves_apart(m, root, id);
            assert forall|k: NodeId| #[trigger] within(m, other, k) implies m2.dom().contains(k) && m2[k] == m[k] by {
                lemma_halves_apart(m, root, k);
                lemma_within_bounds(m, other, k);
            }
            lemma_frame(m, m2, other);
            assert(within(m2, other, j) == within(m, other, j));
            assert(within(m2, half, j) == within(m, half, j));
        }
        assert(leased(project(m, root)) == leased(project(m, l)) + leased(project(m, r)));
        assert(leased(project(m2, root)) == leased(project(m2, l)) + leased(project(m2, r)));
    }
}

/// A block of a block of a tree is a block of the tree.
pub proof fn lemma_within_transitive(m: Map<NodeId, Block>, a: NodeId, b: NodeId, c: NodeId)
    requires
        rooted(m, a),
        within(m, a, b),
        within(m, b, c),
    ensures
        within(m, a, c),
    decreases extent(m[a]),
{
    if a != b {
        match m[a].state {
            BlockState::Split(l, r) => {
                if within(m, l, b) {
                    lemma_within_transitive(m, l, b, c);
                } else {
                    lemma_within_transitive(m, r, b, c);
                }
            },
            _ => {},
        }
    }
}

/// The block behind `id` with its state set to free.
pub open spec fn as_free(m: Map<NodeId, Block>, id: NodeId) -> Block {
    Block { range: m[id].range, state: BlockState::Available }
}

/// `node` left the tree below `id` by a merge: it lay strictly below a
/// split block of `before` that is a free leaf of `after`.
pub open spec fn swallowed(before: Map<NodeId, Block>, after: Map<NodeId, Block>, id: NodeId, node: NodeId) -> bool {
    exists|k: NodeId|
        #![trigger within(after, id, k)]
        within(after, id, k) && k != node && within(before, k, node) && before[k].state is Split
            && after[k].state is Available
}

/// Below `id`, `after` is `before` in which some split blocks have become
/// free leaves and nothing else has happened: every block of the tree of
/// `after` is a block of the tree of `before`, behind the same reference,
/// and it is the same block with the same halves unless it was split and
/// is now free; and every block that no longer resolves lay strictly
/// below such a block.
pub open spec fn settled(before: Map<NodeId, Block>, after: Map<NodeId, Block>, id: NodeId) -> bool {
    &&& forall|j: NodeId| #[trigger]
        within(after, id, j) ==> within(before, id, j) && (after[j] == before[j] || (before[j].state is Split
            && after[j] == as_free(before, j)))
    &&& forall|j: NodeId| #[trigger]
        within(before, id, j) && !after.dom().contains(j) ==> swallowed(before, after, id, j)
}

/// Apart from the free block that holds `lease`, `after` holds every block
/// of `before` behind the same reference and unchanged; that one block
/// keeps its range.
pub open spec fn kept_but(before: Map<NodeId, Block>, after: Map<NodeId, Block>, lease: Range<usize>) -> bool {
    forall|j: NodeId| #[trigger]
        before.dom().contains(j) ==> after.dom().contains(j) && (after[j] == before[j] || (before[j].state
            is Available && after[j].range == before[j].range && before[j].range.start <= lease.start && lease.end
            <= before[j].range.end))
}

/// A tree in which nothing has happened is settled.
pub proof fn lemma_settled_reflexive(m: Map<NodeId, Block>, id: NodeId)
    requires
        rooted(m, id),
    ensures
        settled(m, m, id),
{
    assert forall|j: NodeId| #[trigger] within(m, id, j) && !m.dom().contains(j) implies swallowed(m, m, id, j) by {
        lemma_within_bounds(m, id, j);
    }
}

/// Where first the low half of a split block has settled and then the high
/// half, the split block has settled.
pub proof fn lemma_halves_settled(
    m: Map<NodeId, Block>,
    m1: Map<NodeId, Block>,
    m2: Map<NodeId, Block>,
    id: NodeId,
)
    requires
        rooted(m, id),
        m[id].state is Split,
        ({
            let l = m[id].state->Split_0;
            let r = m[id].state->Split_1;
            &&& rooted(m1, l) && m1[l].range == m[l].range && same_outside(m, m1, l) && settled(m, m1, l)
            &&& rooted(m2, r) && m2[r].range == m1[r].range && same_outside(m1, m2, r) && settled(m1, m2, r)
        }),
    ensures
        rooted(m2, id),
        m2[id] == m[id],
        same_outside(m, m2, id),
        settled(m, m2, id),
{
    let l = m[id].state->Split_0;
    let r = m[id].state->Split_1;
    lemma_half_changed(m, m1, id, true);
    lemma_half_changed(m1, m2, id, false);
    assert(within(m, l, l));
    assert(within(m, r, r));
    lemma_halves_apart(m, id, l);
    lemma_halves_apart(m, id, r);
    lemma_within_bounds(m, id, l);
    lemma_within_bounds(m, id, r);
    // The high half is the same in m and m1, the low half the same in m1 and m2.
    assert forall|x: NodeId| #[trigger] within(m, r, x) implies m1.dom().contains(x) && m1[x] == m[x] by {
        lemma_halves_apart(m, id, x);
        lemma_within_bounds(m, r, x);
    }
    lemma_frame(m, m1, r);
    assert(within(m1, l, l));
    assert(within(m1, r, r));
    lemma_halves_apart(m1, id, l);
    lemma_halves_apart(m1, id, r);
    assert forall|x: NodeId| #[trigger] within(m1, l, x) implies m2.dom().contains(x) && m2[x] == m1[x] by {
        lemma_halves_apart(m1, id, x);
        lemma_within_bounds(m1, l, x);
    }
    lemma_frame(m1, m2, l);
    assert forall|j: NodeId| #[trigger] within(m2, id, j) implies within(m, id, j) && (m2[j] == m[j] || (m[j].state
        is Split && m2[j] == as_free(m, j))) by {
        if j == id {
        } else if within(m2, l, j) {
            assert(within(m1, l, j));
            assert(within(m, l, j));
            lemma_halves_apart(m, id, j);
        } else {
            assert(within(m2, r, j));
            assert(within(m1, r, j));
            assert(within(m, r, j));
            lemma_halves_apart(m, id, j);
        }
    }
    assert forall|j: NodeId| #[trigger] within(m, id, j) && !m2.dom().contains(j) implies swallowed(m, m2, id, j) by {
        assert(j != id);
        if within(m, l, j) {
            lemma_within_bounds(m, l, j);
            if m1.dom().contains(j) {
                assert(within(m1, l, j));
                assert(within(m2, l, j) == within(m1, l, j));
                lemma_within_bounds(m2, l, j);
            }
            assert(swallowed(m, m1, l, j));
            let k = choose|k: NodeId|
                #![trigger within(m1, l, k)]
                within(m1, l, k) && k != j && within(m, k, j) && m[k].state is Split && m1[k].state is Available;
            assert(within(m2, l, k) == within(m1, l, k));
            assert(within(m2, id, k));
        } else {
            assert(within(m, r, j));
            assert(within(m1, r, j));
            assert(swallowed(m1, m2, r, j));
            let k = choose|k: NodeId|
                #![trigger within(m2, r, k)]
                within(m2, r, k) && k != j && within(m1, k, j) && m1[k].state is Split && m2[k].state is Available;
            assert(within(m1, r, k));
            assert(within(m, r, k));
            lemma_within_bounds(m, r, k);
            assert forall|x: NodeId| #[trigger] within(m, k, x) implies m1.dom().contains(x) && m1[x] == m[x] by {
                lemma_within_transitive(m, r, k, x);
            }
            lemma_frame(m, m1, k);
            assert(within(m1, k, j) == within(m, k, j));
            assert(within(m2, id, k));
        }
    }
}

/// Where both halves of a split block have settled into free leaves and
/// the block then merges, the block has settled.
pub proof fn lemma_merged_settled(
    m: Map<NodeId, Block>,
    m2: Map<NodeId, Block>,
    m3: Map<NodeId, Block>,
    id: NodeId,
)
    requires
        rooted(m, id),
        m[id].state is Split,
        rooted(m2, id),
        m2[id] == m[id],
        same_outside(m, m2, id),
        m3 == m2.remove(m[id].state->Split_0).remove(m[id].state->Split_1).insert(id, as_free(m2, id)),
    ensures
        settled(m, m3, id),
{
    assert(within(m, id, id));
    assert forall|j: NodeId| #[trigger] within(m3, id, j) implies within(m, id, j) && (m3[j] == m[j] || (m[j].state
        is Split && m3[j] == as_free(m, j))) by {
        assert(within(m3, id, j) == (j == id));
    }
    assert forall|j: NodeId| #[trigger] within(m, id, j) && !m3.dom().contains(j) implies swallowed(m, m3, id, j) by {
        assert(within(m3, id, id));
    }
}

/// In a settled tree a block that stayed has below it only blocks that
/// were below it before.
pub proof fn lemma_settled_below(
    before: Map<NodeId, Block>,
    after: Map<NodeId, Block>,
    id: NodeId,
    k: NodeId,
    node: NodeId,
)
    requires
        rooted(after, id),
        settled(before, after, id),
        within(after, id, k),
        within(after, k, node),
    ensures
        within(before, k, node),
    decreases extent(after[k]),
{
    lemma_within_bounds(after, id, k);
    if k != node {
        match after[k].state {
            BlockState::Split(l, r) => {
                assert(within(after, l, l));
                assert(within(after, r, r));
                lemma_halves_apart(after, k, l);
                lemma_halves_apart(after, k, r);
                lemma_within_transitive(after, id, k, l);
                lemma_within_transitive(after, id, k, r);
                assert(before[l].range == after[l].range);
                assert(before[r].range == after[r].range);
                if within(after, l, node) {
                    lemma_settled_below(before, after, id, l, node);
                } else {
                    lemma_settled_below(before, after, id, r, node);
                }
            },
            _ => {},
        }
    }
}

/// Settling in two steps is settling.
pub proof fn lemma_settled_transitive(
    m0: Map<NodeId, Block>,
    m1: Map<NodeId, Block>,
    m2: Map<NodeId, Block>,
    id: NodeId,
)
    requires
        rooted(m0, id),
        rooted(m1, id),
        rooted(m2, id),
        same_outside(m0, m1, id),
        same_outside(m1, m2, id),
        settled(m0, m1, id),
        settled(m1, m2, id),
    ensures
        same_outside(m0, m2, id),
        settled(m0, m2, id),
{
    assert forall|j: NodeId| #[trigger] within(m2, id, j) implies within(m0, id, j) && (m2[j] == m0[j] || (
    m0[j].state is Split && m2[j] == as_free(m0, j))) by {
        assert(within(m1, id, j));
    }
    assert forall|j: NodeId| #[trigger] within(m0, id, j) && !m2.dom().contains(j) implies swallowed(m0, m2, id, j) by {
        if !m1.dom().contains(j) {
            let k = choose|k: NodeId|
                #![trigger within(m1, id, k)]
                within(m1, id, k) && k != j && within(m0, k, j) && m0[k].state is Split && m1[k].state is Available;
            if m2.dom().contains(k) {
                assert(within(m2, id, k));
            } else {
                let k2 = choose|k2: NodeId|
                    #![trigger within(m2, id, k2)]
                    within(m2, id, k2) && k2 != k && within(m1, k2, k) && m1[k2].state is Split && m2[k2].state
                        is Available;
                assert(within(m1, id, k2));
                lemma_settled_below(m0, m1, id, k2, k);
                lemma_within_bounds(m0, id, k2);
                lemma_within_transitive(m0, k2, k, j);
                lemma_within_bounds(m1, id, k2);
            }
        } else {
            assert(within(m1, id, j));
            let k = choose|k: NodeId|
                #![trigger within(m2, id, k)]
                within(m2, id, k) && k != j && within(m1, k, j) && m1[k].state is Split && m2[k].state is Available;
            assert(within(m1, id, k));
            lemma_settled_below(m0, m1, id, k, j);
        }
    }
}

/// Two settled trees of the same tree that give the same picture hold the
/// same blocks behind the same references.
pub proof fn lemma_settled_same_blocks(
    m: Map<NodeId, Block>,
    a: Map<NodeId, Block>,
    b: Map<NodeId, Block>,
    root: NodeId,
    id: NodeId,
)
    requires
        rooted(a, root),
        rooted(b, root),
        settled(m, a, root),
        settled(m, b, root),
        within(a, root, id),
        within(b, root, id),
        project(a, id) == project(b, id),
    ensures
        forall|j: NodeId| #[trigger] within(a, id, j) ==> within(b, id, j) && a[j] == b[j],
    decreases extent(a[id]),
{
    lemma_within_bounds(a, root, id);
    lemma_within_bounds(b, root, id);
    lemma_project_state(a, id);
    lemma_project_state(b, id);
    match a[id].state {
        BlockState::Split(l, r) => {
            assert(a[id] == m[id]);
            assert(b[id] == m[id]);
            assert(within(a, l, l));
            assert(within(a, r, r));
            assert(within(b, l, l));
            assert(within(b, r, r));
            lemma_halves_apart(a, id, l);
            lemma_halves_apart(a, id, r);
            lemma_halves_apart(b, id, l);
            lemma_halves_apart(b, id, r);
            lemma_within_transitive(a, root, id, l);
            lemma_within_transitive(a, root, id, r);
            lemma_within_transitive(b, root, id, l);
            lemma_within_transitive(b, root, id, r);
            lemma_settled_same_blocks(m, a, b, root, l);
            lemma_settled_same_blocks(m, a, b, root, r);
            assert forall|j: NodeId| #[trigger] within(a, id, j) implies within(b, id, j) && a[j] == b[j] by {
                if j != id {
                    if within(a, l, j) {
                        assert(within(b, l, j));
                    } else {
                        assert(within(a, r, j));
                        assert(within(b, r, j));
                    }
                }
            }
        },
        _ => {
            assert forall|j: NodeId| #[trigger] within(a, id, j) implies within(b, id, j) && a[j] == b[j] by {
                assert(j == id);
            }
        },
    }
}

/// What is left of a tree after a pass is fixed by the picture it gives:
/// two settled arenas of the same arena with the same picture are equal.
pub proof fn lemma_settled_determined(
    m: Map<NodeId, Block>,
    a: Map<NodeId, Block>,
    b: Map<NodeId, Block>,
    id: NodeId,
)
    requires
        rooted(a, id),
        rooted(b, id),
        same_outside(m, a, id),
        same_outside(m, b, id),
        settled(m, a, id),
        settled(m, b, id),
        project(a, id) == project(b, id),
    ensures
        a == b,
{
    assert(within(a, id, id));
    assert(within(b, id, id));
    lemma_settled_same_blocks(m, a, b, id, id);
    lemma_settled_same_blocks(m, b, a, id, id);
    assert forall|j: NodeId| a.dom().contains(j) implies b.dom().contains(j) && a[j] == b[j] by {
        if within(a, id, j) {
            lemma_within_bounds(b, id, j);
        }
    }
    assert forall|j: NodeId| b.dom().contains(j) implies a.dom().contains(j) by {
        if within(b, id, j) {
            lemma_within_bounds(a, id, j);
        }
    }
    assert(a =~= b);
}

/// The range of a leased block of a tree is one of the leases in its
/// picture.
pub proof fn lemma_lease_in_picture(m: Map<NodeId, Block>, id: NodeId, node: NodeId)
    requires
        rooted(m, id),
        within(m, id, node),
        m[node].state is Occupied,
    ensures
        leased(project(m, id)).contains(m[node].range),
    decreases extent(m[id]),
{
    if id == node {
        assert(leased(project(m, id))[0] == m[node].range);
    } else {
        let l = m[id].state->Split_0;
        let r = m[id].state->Split_1;
        let low = leased(project(m, l));
        let high = leased(project(m, r));
        assert(leased(project(m, id)) == low + high);
        if within(m, l, node) {
            lemma_lease_in_picture(m, l, node);
            let i = choose|i: int| 0 <= i < low.len() && low[i] == m[node].range;
            assert((low + high)[i] == m[node].range);
        } else {
            lemma_lease_in_picture(m, r, node);
            let i = choose|i: int| 0 <= i < high.len() && high[i] == m[node].range;
            assert((low + high)[low.len() + i] == m[node].range);
        }
    }
}

/// The picture of a block of a tree is a block of the picture of the tree.
pub proof fn lemma_block_in_picture(m: Map<NodeId, Block>, id: NodeId, node: NodeId)
    requires
        rooted(m, id),
        within(m, id, node),
    ensures
        has_block(project(m, id), project(m, node)),
    decreases extent(m[id]),
{
    if id != node {
        let l = m[id].state->Split_0;
        let r = m[id].state->Split_1;
        if within(m, l, node) {
            lemma_block_in_picture(m, l, node);
        } else {
            lemma_block_in_picture(m, r, node);
        }
    }
}

/// A full coalescing pass right after a full coalescing pass leaves the
/// arena as it found it.
pub proof fn lemma_full_pass_twice(m: Map<NodeId, Block>, a: Map<NodeId, Block>, b: Map<NodeId, Block>, id: NodeId)
    requires
        rooted(a, id),
        project(a, id) == coalesce(project(m, id)),
        rooted(b, id),
        same_outside(a, b, id),
        settled(a, b, id),
        project(b, id) == coalesce(project(a, id)),
    ensures
        b == a,
{
    lemma_coalesce_idempotent(project(m, id));
    lemma_settled_reflexive(a, id);
    assert(same_outside(a, a, id));
    lemma_settled_determined(a, a, b, id);
}

/// A pass that was cut short only defers merges: a full pass after it
/// leaves the arena that a full pass alone leaves.
pub proof fn lemma_full_pass_after_any(
    m: Map<NodeId, Block>,
    cut: Map<NodeId, Block>,
    last: Map<NodeId, Block>,
    full: Map<NodeId, Block>,
    id: NodeId,
)
    requires
        rooted(m, id),
        rooted(cut, id),
        same_outside(m, cut, id),
        settled(m, cut, id),
        merged(project(m, id), project(cut, id)),
        rooted(last, id),
        same_outside(cut, last, id),
        settled(cut, last, id),
        project(last, id) == coalesce(project(cut, id)),
        rooted(full, id),
        same_outside(m, full, id),
        settled(m, full, id),
        project(full, id) == coalesce(project(m, id)),
    ensures
        last == full,
{
    lemma_merged_then_coalesce(project(m, id), project(cut, id));
    lemma_settled_transitive(m, cut, last, id);
    lemma_settled_determined(m, last, full, id);
}

} // verus!
