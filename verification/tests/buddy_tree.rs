use buddy_arena::buddy::{
    allocate, dealloc, tidy, tidy_gas, tidy_timed, tidy_timed_visit, Block, BlockState, NodeId,
};
use generational_arena::{Arena, Index};
use std::time::{Duration, Instant};

fn id_of(index: Index) -> NodeId {
    let (slot, generation) = index.into_raw_parts();
    NodeId { slot, generation }
}

fn index_of(id: NodeId) -> Index {
    Index::from_raw_parts(id.slot, id.generation)
}

fn universe(size: usize) -> (Arena<Block>, NodeId) {
    buddy_arena::buddy::universe(size)
}

fn snapshot(arena: &Arena<Block>) -> Vec<(Index, String)> {
    let mut all: Vec<(Index, String)> = arena.iter().map(|(index, block)| (index, format!("{:?}", block))).collect();
    all.sort();
    all
}

fn draw(arena: &Arena<Block>, id: NodeId) -> String {
    let block = &arena[index_of(id)];
    match block.state {
        BlockState::Split(left, right) => format!("[{} {}]", draw(arena, left), draw(arena, right)),
        BlockState::Available => format!("{}..{}:free", block.range.start, block.range.end),
        BlockState::Occupied => format!("{}..{}:leased", block.range.start, block.range.end),
    }
}

#[test]
fn allocate_splits_down_to_the_size() {
    let (mut arena, root) = universe(64);
    let found = allocate(&mut arena, root, 16).unwrap();
    assert_ne!(found, root);
    assert_eq!(arena[index_of(found)].range, 0..16);
    assert!(matches!(arena[index_of(found)].state, BlockState::Occupied));
    assert_eq!(draw(&arena, root), "[[0..16:leased 16..32:free] 32..64:free]");
    assert_eq!(arena.len(), 5);
}

#[test]
fn allocate_takes_an_exact_free_block() {
    let (mut arena, root) = universe(64);
    let found = allocate(&mut arena, root, 64).unwrap();
    assert_eq!(found, root);
    assert_eq!(draw(&arena, root), "0..64:leased");
    assert_eq!(arena.len(), 1);
}

#[test]
fn allocate_fails_on_a_block_too_small() {
    let (mut arena, root) = universe(64);
    assert!(allocate(&mut arena, root, 128).is_none());
    assert_eq!(draw(&arena, root), "0..64:free");
    assert_eq!(arena.len(), 1);
}

#[test]
fn allocate_does_not_split_a_leased_block() {
    let (mut arena, root) = universe(64);
    allocate(&mut arena, root, 64).unwrap();
    assert!(allocate(&mut arena, root, 32).is_none());
    assert!(allocate(&mut arena, root, 64).is_none());
    assert_eq!(draw(&arena, root), "0..64:leased");
    assert_eq!(arena.len(), 1);
}

#[test]
fn allocate_tries_left_then_right() {
    let (mut arena, root) = universe(64);
    let a = allocate(&mut arena, root, 32).unwrap();
    let b = allocate(&mut arena, root, 16).unwrap();
    let c = allocate(&mut arena, root, 32);
    let d = allocate(&mut arena, root, 16).unwrap();
    assert_eq!(arena[index_of(a)].range, 0..32);
    assert_eq!(arena[index_of(b)].range, 32..48);
    assert!(c.is_none());
    assert_eq!(arena[index_of(d)].range, 48..64);
    assert_eq!(draw(&arena, root), "[0..32:leased [32..48:leased 48..64:leased]]");
    assert!(allocate(&mut arena, root, 1).is_none());
    assert_eq!(arena.len(), 5);
}

#[test]
fn allocate_below_a_subtree_leaves_the_rest() {
    let (mut arena, root) = universe(64);
    allocate(&mut arena, root, 16).unwrap();
    let right = match arena[index_of(root)].state {
        BlockState::Split(_, right) => right,
        _ => unreachable!(),
    };
    let found = allocate(&mut arena, right, 8).unwrap();
    assert_eq!(arena[index_of(found)].range, 32..40);
    assert_eq!(
        draw(&arena, root),
        "[[0..16:leased 16..32:free] [[32..40:leased 40..48:free] 48..64:free]]"
    );
}

#[test]
fn dealloc_frees_without_merging() {
    let (mut arena, root) = universe(64);
    let found = allocate(&mut arena, root, 16).unwrap();
    dealloc(&mut arena, found);
    assert_eq!(draw(&arena, root), "[[0..16:free 16..32:free] 32..64:free]");
    assert_eq!(arena.len(), 5);
}

#[test]
fn tidy_merges_free_buddies_to_the_root() {
    let (mut arena, root) = universe(64);
    let found = allocate(&mut arena, root, 16).unwrap();
    dealloc(&mut arena, found);
    assert!(tidy(&mut arena, root).0);
    assert_eq!(draw(&arena, root), "0..64:free");
    assert_eq!(arena.len(), 1);
    assert!(!arena.contains(index_of(found)));
}

#[test]
fn tidy_stops_at_a_leased_buddy() {
    let (mut arena, root) = universe(64);
    let a = allocate(&mut arena, root, 8).unwrap();
    let b = allocate(&mut arena, root, 8).unwrap();
    let c = allocate(&mut arena, root, 16).unwrap();
    assert_eq!(draw(&arena, root), "[[[0..8:leased 8..16:leased] 16..32:leased] 32..64:free]");
    dealloc(&mut arena, a);
    assert!(!tidy(&mut arena, root).0);
    assert_eq!(draw(&arena, root), "[[[0..8:free 8..16:leased] 16..32:leased] 32..64:free]");
    dealloc(&mut arena, b);
    assert!(!tidy(&mut arena, root).0);
    assert_eq!(draw(&arena, root), "[[0..16:free 16..32:leased] 32..64:free]");
    assert_eq!(arena.len(), 5);
    let again = allocate(&mut arena, root, 16).unwrap();
    assert_eq!(arena[index_of(again)].range, 0..16);
    assert_eq!(arena.len(), 5);
    dealloc(&mut arena, c);
    dealloc(&mut arena, again);
    assert!(tidy(&mut arena, root).0);
    assert_eq!(draw(&arena, root), "0..64:free");
}

#[test]
fn tidy_on_leaves() {
    let (mut arena, root) = universe(8);
    assert!(tidy(&mut arena, root).0);
    allocate(&mut arena, root, 8).unwrap();
    assert!(!tidy(&mut arena, root).0);
    assert_eq!(draw(&arena, root), "0..8:leased");
}

#[test]
fn tidy_gas_counts_each_visit() {
    let (mut arena, root) = universe(256);
    let found = allocate(&mut arena, root, 64).unwrap();
    dealloc(&mut arena, found);
    let mut gas = 10;
    assert!(tidy_gas(&mut arena, root, &mut gas).0);
    assert_eq!(gas, 5);
    assert_eq!(draw(&arena, root), "0..256:free");
    assert!(tidy_gas(&mut arena, root, &mut gas).0);
    assert_eq!(gas, 4);
}

#[test]
fn tidy_gas_without_gas_reports_not_free() {
    let (mut arena, root) = universe(256);
    let mut gas = 0;
    assert!(!tidy_gas(&mut arena, root, &mut gas).0);
    assert_eq!(gas, 0);
    assert_eq!(draw(&arena, root), "0..256:free");
}

#[test]
fn tidy_gas_keeps_partial_merges() {
    let (mut arena, root) = universe(256);
    let found = allocate(&mut arena, root, 64).unwrap();
    dealloc(&mut arena, found);
    let mut gas = 4;
    assert!(!tidy_gas(&mut arena, root, &mut gas).0);
    assert_eq!(gas, 0);
    assert_eq!(draw(&arena, root), "[0..128:free 128..256:free]");
    let mut gas = 2;
    assert!(!tidy_gas(&mut arena, root, &mut gas).0);
    assert_eq!(gas, 0);
    assert_eq!(draw(&arena, root), "[0..128:free 128..256:free]");
    let mut gas = 3;
    assert!(tidy_gas(&mut arena, root, &mut gas).0);
    assert_eq!(gas, 0);
    assert_eq!(draw(&arena, root), "0..256:free");
}

#[test]
fn tidy_timed_past_deadline_reports_not_free() {
    let (mut arena, root) = universe(64);
    let found = allocate(&mut arena, root, 16).unwrap();
    dealloc(&mut arena, found);
    assert!(!tidy_timed(&mut arena, root, Instant::now()).0);
    assert_eq!(draw(&arena, root), "[[0..16:free 16..32:free] 32..64:free]");
}

#[test]
fn tidy_timed_with_time_left_merges() {
    let (mut arena, root) = universe(64);
    let found = allocate(&mut arena, root, 16).unwrap();
    dealloc(&mut arena, found);
    assert!(tidy_timed(&mut arena, root, Instant::now() + Duration::from_secs(3600)).0);
    assert_eq!(draw(&arena, root), "0..64:free");
    assert_eq!(arena.len(), 1);
}

#[test]
fn universe_holds_one_free_block() {
    let (arena, root) = buddy_arena::buddy::universe(64);
    assert_eq!(arena.len(), 1);
    assert_eq!(arena[index_of(root)].range, 0..64);
    assert!(matches!(arena[index_of(root)].state, BlockState::Available));
    let mut by_hand = Arena::new();
    let same = by_hand.insert(Block { range: 0..64, state: BlockState::Available });
    assert_eq!(id_of(same), root);
}

#[test]
fn allocate_keeps_every_reference() {
    let (mut arena, root) = universe(64);
    let a = allocate(&mut arena, root, 16).unwrap();
    let before: Vec<(Index, std::ops::Range<usize>)> = arena.iter().map(|(i, b)| (i, b.range.clone())).collect();
    let kept = snapshot(&arena);
    let b = allocate(&mut arena, root, 8).unwrap();
    assert_eq!(arena[index_of(b)].range, 16..24);
    for (index, range) in before {
        assert_eq!(arena[index].range, range);
    }
    let after = snapshot(&arena);
    let changed: Vec<_> = kept.iter().filter(|entry| !after.contains(entry)).collect();
    assert_eq!(changed.len(), 1);
    assert!(changed[0].1.contains("16..32") && changed[0].1.contains("Available"));
    assert_eq!(arena.len(), 7);
    assert!(matches!(arena[index_of(a)].state, BlockState::Occupied));
    let none = snapshot(&arena);
    assert!(allocate(&mut arena, root, 64).is_none());
    assert_eq!(snapshot(&arena), none);
}

#[test]
fn tidy_keeps_the_references_of_what_stays() {
    let (mut arena, root) = universe(16);
    let x = allocate(&mut arena, root, 8).unwrap();
    let y = allocate(&mut arena, root, 8).unwrap();
    dealloc(&mut arena, x);
    assert!(!tidy(&mut arena, root).0);
    assert_eq!(arena.len(), 3);
    match arena[index_of(root)].state {
        BlockState::Split(left, right) => {
            assert_eq!(left, x);
            assert_eq!(right, y);
        }
        _ => unreachable!(),
    }
    assert!(matches!(arena[index_of(x)].state, BlockState::Available));
    assert!(matches!(arena[index_of(y)].state, BlockState::Occupied));
    assert_eq!(arena[index_of(x)].range, 0..8);
    assert_eq!(arena[index_of(y)].range, 8..16);
}

#[test]
fn second_tidy_leaves_the_arena_as_it_is() {
    let (mut arena, root) = universe(64);
    let a = allocate(&mut arena, root, 8).unwrap();
    let _b = allocate(&mut arena, root, 8).unwrap();
    let c = allocate(&mut arena, root, 16).unwrap();
    dealloc(&mut arena, a);
    dealloc(&mut arena, c);
    let first = tidy(&mut arena, root).0;
    let once = snapshot(&arena);
    let second = tidy(&mut arena, root).0;
    assert_eq!(first, second);
    assert_eq!(snapshot(&arena), once);
}

#[test]
fn tidy_gas_without_gas_leaves_the_arena_as_it_is() {
    let (mut arena, root) = universe(64);
    let a = allocate(&mut arena, root, 8).unwrap();
    dealloc(&mut arena, a);
    let before = snapshot(&arena);
    let mut gas = 0;
    assert!(!tidy_gas(&mut arena, root, &mut gas).0);
    assert_eq!(gas, 0);
    assert_eq!(snapshot(&arena), before);
}

#[test]
fn cut_short_pass_then_full_pass_is_a_full_pass() {
    let (mut arena, root) = universe(256);
    let (mut other, other_root) = universe(256);
    assert_eq!(root, other_root);
    for tree in [&mut arena, &mut other] {
        let a = allocate(tree, root, 64).unwrap();
        let _b = allocate(tree, root, 32).unwrap();
        let c = allocate(tree, root, 32).unwrap();
        dealloc(tree, a);
        dealloc(tree, c);
    }
    let mut gas = 4;
    tidy_gas(&mut arena, root, &mut gas);
    let cut = tidy(&mut arena, root).0;
    let full = tidy(&mut other, root).0;
    assert_eq!(cut, full);
    assert_eq!(snapshot(&arena), snapshot(&other));
    let mut plenty = 100;
    let (mut third, _) = universe(256);
    let a = allocate(&mut third, root, 64).unwrap();
    let _b = allocate(&mut third, root, 32).unwrap();
    let c = allocate(&mut third, root, 32).unwrap();
    dealloc(&mut third, a);
    dealloc(&mut third, c);
    tidy_gas(&mut third, root, &mut plenty);
    assert_eq!(snapshot(&third), snapshot(&other));
}

#[test]
fn late_visit_leaves_the_block_alone() {
    let (mut arena, root) = universe(64);
    let found = allocate(&mut arena, root, 16).unwrap();
    dealloc(&mut arena, found);
    let before = snapshot(&arena);
    let far = Instant::now() + Duration::from_secs(3600);
    assert!(!tidy_timed_visit(&mut arena, root, true, far).0);
    assert_eq!(snapshot(&arena), before);
    let (mut leaf, leaf_root) = universe(8);
    assert!(!tidy_timed_visit(&mut leaf, leaf_root, true, far).0);
}

#[test]
fn visit_in_time_reports_a_leaf_as_it_is() {
    let past = Instant::now();
    let (mut arena, root) = universe(8);
    assert!(tidy_timed_visit(&mut arena, root, false, past).0);
    allocate(&mut arena, root, 8).unwrap();
    assert!(!tidy_timed_visit(&mut arena, root, false, past).0);
    assert_eq!(draw(&arena, root), "0..8:leased");
}

#[test]
fn visit_in_time_reads_the_clock_for_the_halves() {
    let (mut arena, root) = universe(64);
    let found = allocate(&mut arena, root, 16).unwrap();
    dealloc(&mut arena, found);
    let before = snapshot(&arena);
    assert!(!tidy_timed_visit(&mut arena, root, false, Instant::now()).0);
    assert_eq!(snapshot(&arena), before);
    assert!(tidy_timed_visit(&mut arena, root, false, Instant::now() + Duration::from_secs(3600)).0);
    assert_eq!(draw(&arena, root), "0..64:free");
}
