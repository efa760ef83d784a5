use buddy_arena::arena::{Allocation, BuddyBookkeeping};
use buddy_arena::buddy::NodeId;
use buddy_arena::pretty_print::{prettify, PrettyBlock, PrettyState};
use std::time::{Duration, Instant};

fn draw(block: &PrettyBlock) -> String {
    match &block.state {
        PrettyState::Split(left, right) => format!("[{} {}]", draw(left), draw(right)),
        PrettyState::Available => format!("{}..{}:free", block.range.start, block.range.end),
        PrettyState::Occupied => format!("{}..{}:leased", block.range.start, block.range.end),
    }
}

fn picture(book: &BuddyBookkeeping) -> String {
    draw(&prettify(book))
}

fn six_handles(book: &mut BuddyBookkeeping) -> Vec<Allocation> {
    let mut handles = Vec::new();
    for count in [64usize, 24, 2, 7, 31, 60] {
        handles.push(book.allocate(count).unwrap());
    }
    handles
}

#[test]
fn new_universe_is_one_free_block() {
    let book = BuddyBookkeeping::new(2048, 8, 256);
    assert_eq!(picture(&book), "0..2048:free");
    let block = prettify(&book);
    assert_eq!(block.range, 0..2048);
    assert!(matches!(block.state, PrettyState::Available));
}

#[test]
fn requests_land_leftmost_first() {
    let mut book = BuddyBookkeeping::new(2048, 8, 256);
    let handles = six_handles(&mut book);
    let ranges: Vec<_> = handles.iter().map(|h| h.range()).collect();
    assert_eq!(ranges, vec![0..64, 64..88, 96..98, 104..111, 128..159, 192..252]);
    assert_eq!(
        picture(&book),
        "[[[[[0..64:leased [64..96:leased [[96..104:leased 104..112:leased] 112..128:free]]] \
         [[128..160:leased 160..192:free] 192..256:leased]] 256..512:free] 512..1024:free] 1024..2048:free]"
    );
}

#[test]
fn handle_shows_the_request_not_the_block() {
    let mut book = BuddyBookkeeping::new(512, 1, 512);
    let handle = book.allocate(6).unwrap();
    assert_eq!(handle.range(), 0..6);
    assert_eq!(handle.range().len(), 6);
    assert_eq!(
        picture(&book),
        "[[[[[[0..8:leased 8..16:free] 16..32:free] 32..64:free] 64..128:free] 128..256:free] 256..512:free]"
    );
}

#[test]
fn small_request_is_raised_to_the_smallest_block() {
    let mut book = BuddyBookkeeping::new(64, 16, 64);
    let handle = book.allocate(1).unwrap();
    assert_eq!(handle.range(), 0..1);
    assert_eq!(picture(&book), "[[0..16:leased 16..32:free] 32..64:free]");
}

#[test]
fn whole_universe_can_be_leased() {
    let mut book = BuddyBookkeeping::new(64, 1, 64);
    let handle = book.allocate(64).unwrap();
    assert_eq!(handle.range(), 0..64);
    assert_eq!(picture(&book), "0..64:leased");
    assert!(book.allocate(1).is_none());
    assert_eq!(picture(&book), "0..64:leased");
}

#[test]
fn full_universe_fails_without_a_trace() {
    let mut book = BuddyBookkeeping::new(16, 8, 8);
    let _a = book.allocate(8).unwrap();
    let _b = book.allocate(8).unwrap();
    let before = format!("{:?}", prettify(&book));
    assert!(book.allocate(8).is_none());
    assert_eq!(format!("{:?}", prettify(&book)), before);
    assert_eq!(picture(&book), "[0..8:leased 8..16:leased]");
}

#[test]
fn oversize_request_leaves_no_trace() {
    let mut book = BuddyBookkeeping::new(2048, 8, 256);
    let _held = book.allocate(24).unwrap();
    let before = format!("{:?}", prettify(&book));
    assert!(book.allocate(257).is_none());
    assert!(book.allocate(2048).is_none());
    assert!(book.allocate(usize::MAX).is_none());
    assert_eq!(format!("{:?}", prettify(&book)), before);
    let mut fresh = BuddyBookkeeping::new(2048, 8, 256);
    assert!(fresh.allocate(300).is_none());
    assert_eq!(picture(&fresh), "0..2048:free");
}

#[test]
fn largest_block_is_served() {
    let mut book = BuddyBookkeeping::new(2048, 8, 256);
    let handle = book.allocate(256).unwrap();
    assert_eq!(handle.range(), 0..256);
    let next = book.allocate(129).unwrap();
    assert_eq!(next.range(), 256..385);
}

#[test]
fn full_reclamation() {
    let mut book = BuddyBookkeeping::new(2048, 8, 256);
    let handles = six_handles(&mut book);
    assert_eq!(handles.len(), 6);
    drop(handles);
    book.tidy();
    assert_eq!(picture(&book), "0..2048:free");
    let block = prettify(&book);
    assert_eq!(block.range, 0..2048);
    assert!(matches!(block.state, PrettyState::Available));
    let largest = book.allocate(256).unwrap();
    assert_eq!(largest.range(), 0..256);
}

#[test]
fn dropped_handle_waits_for_tidy() {
    let mut book = BuddyBookkeeping::new(32, 8, 32);
    let handle = book.allocate(8).unwrap();
    let leased = picture(&book);
    assert_eq!(leased, "[[0..8:leased 8..16:free] 16..32:free]");
    drop(handle);
    assert_eq!(picture(&book), leased);
    let next = book.allocate(8).unwrap();
    assert_eq!(next.range(), 8..16);
}

#[test]
fn tidy_twice_changes_nothing_more() {
    let mut book = BuddyBookkeeping::new(2048, 8, 256);
    let mut handles = six_handles(&mut book);
    let kept = handles.split_off(3);
    drop(handles);
    book.tidy();
    let once = format!("{:?}", prettify(&book));
    book.tidy();
    assert_eq!(format!("{:?}", prettify(&book)), once);
    assert_eq!(
        picture(&book),
        "[[[[[0..64:free [64..96:free [[96..104:free 104..112:leased] 112..128:free]]] \
         [[128..160:leased 160..192:free] 192..256:leased]] 256..512:free] 512..1024:free] 1024..2048:free]"
    );
    drop(kept);
}

#[test]
fn tidy_without_drops_keeps_leases() {
    let mut book = BuddyBookkeeping::new(64, 8, 64);
    let _a = book.allocate(8).unwrap();
    book.tidy();
    assert_eq!(picture(&book), "[[[0..8:leased 8..16:free] 16..32:free] 32..64:free]");
}

#[test]
fn sibling_blocked_coalescing() {
    let mut book = BuddyBookkeeping::new(64, 32, 64);
    let first = book.allocate(32).unwrap();
    let second = book.allocate(32).unwrap();
    assert_eq!(first.range(), 0..32);
    assert_eq!(second.range(), 32..64);
    assert_eq!(picture(&book), "[0..32:leased 32..64:leased]");
    drop(first);
    book.tidy();
    assert_eq!(picture(&book), "[0..32:free 32..64:leased]");
    let again = book.allocate(32).unwrap();
    assert_eq!(again.range(), 0..32);
    assert_eq!(picture(&book), "[0..32:leased 32..64:leased]");
    drop(second);
    drop(again);
    book.tidy();
    assert_eq!(picture(&book), "0..64:free");
}

#[test]
fn zero_gas_does_nothing() {
    let mut book = BuddyBookkeeping::new(256, 8, 256);
    let handle = book.allocate(64).unwrap();
    drop(handle);
    let before = format!("{:?}", prettify(&book));
    book.tidy_gas(0);
    assert_eq!(format!("{:?}", prettify(&book)), before);
    assert_eq!(picture(&book), "[[0..64:leased 64..128:free] 128..256:free]");
    // The dropped handle still waits in the queue.
    book.tidy();
    assert_eq!(picture(&book), "0..256:free");
}

#[test]
fn gas_pays_for_the_drain_first() {
    let mut book = BuddyBookkeeping::new(256, 8, 256);
    drop(book.allocate(64).unwrap());
    book.tidy_gas(1);
    assert_eq!(picture(&book), "[[0..64:free 64..128:free] 128..256:free]");
}

#[test]
fn gas_runs_out_in_the_middle_of_a_pass() {
    let mut book = BuddyBookkeeping::new(256, 8, 256);
    drop(book.allocate(64).unwrap());
    book.tidy_gas(5);
    assert_eq!(picture(&book), "[0..128:free 128..256:free]");
    book.tidy_gas(2);
    assert_eq!(picture(&book), "[0..128:free 128..256:free]");
    book.tidy_gas(3);
    assert_eq!(picture(&book), "0..256:free");
}

#[test]
fn enough_gas_is_a_full_pass() {
    let mut book = BuddyBookkeeping::new(256, 8, 256);
    drop(book.allocate(64).unwrap());
    book.tidy_gas(6);
    assert_eq!(picture(&book), "0..256:free");
}

#[test]
fn gas_drains_only_what_it_can_pay() {
    let mut book = BuddyBookkeeping::new(32, 8, 32);
    let a = book.allocate(8).unwrap();
    let b = book.allocate(8).unwrap();
    let c = book.allocate(8).unwrap();
    drop(a);
    drop(b);
    drop(c);
    book.tidy_gas(2);
    assert_eq!(picture(&book), "[[0..8:free 8..16:free] [16..24:leased 24..32:free]]");
    book.tidy();
    assert_eq!(picture(&book), "0..32:free");
}

#[test]
fn past_deadline_does_nothing() {
    let mut book = BuddyBookkeeping::new(256, 8, 256);
    drop(book.allocate(64).unwrap());
    let before = format!("{:?}", prettify(&book));
    book.tidy_timed(Instant::now());
    assert_eq!(format!("{:?}", prettify(&book)), before);
    book.tidy();
    assert_eq!(picture(&book), "0..256:free");
}

#[test]
fn far_deadline_is_a_full_pass() {
    let mut book = BuddyBookkeeping::new(2048, 8, 256);
    let handles = six_handles(&mut book);
    drop(handles);
    book.tidy_timed(Instant::now() + Duration::from_secs(3600));
    assert_eq!(picture(&book), "0..2048:free");
}

#[test]
fn handle_outlives_the_bookkeeping() {
    let mut book = BuddyBookkeeping::new(64, 8, 64);
    let handle = book.allocate(8).unwrap();
    drop(book);
    assert_eq!(handle.range(), 0..8);
    drop(handle);
}

fn check_halves(block: &PrettyBlock) {
    let len = block.range.end - block.range.start;
    assert!(len.is_power_of_two());
    if let PrettyState::Split(left, right) = &block.state {
        assert_eq!(left.range.start, block.range.start);
        assert_eq!(left.range.end, right.range.start);
        assert_eq!(right.range.end, block.range.end);
        assert_eq!(left.range.len(), len / 2);
        assert_eq!(right.range.len(), len / 2);
        check_halves(left);
        check_halves(right);
    }
}

fn collect_leases(block: &PrettyBlock, into: &mut Vec<std::ops::Range<usize>>) {
    match &block.state {
        PrettyState::Split(left, right) => {
            collect_leases(left, into);
            collect_leases(right, into);
        }
        PrettyState::Available => {}
        PrettyState::Occupied => into.push(block.range.clone()),
    }
}

#[test]
fn every_block_is_halved_exactly() {
    let mut book = BuddyBookkeeping::new(2048, 8, 256);
    check_halves(&prettify(&book));
    let mut handles = six_handles(&mut book);
    check_halves(&prettify(&book));
    let kept = handles.split_off(2);
    drop(handles);
    book.tidy_gas(3);
    check_halves(&prettify(&book));
    book.tidy();
    check_halves(&prettify(&book));
    drop(kept);
    book.tidy_timed(Instant::now() + Duration::from_secs(3600));
    check_halves(&prettify(&book));
}

#[test]
fn leases_do_not_overlap() {
    let mut book = BuddyBookkeeping::new(2048, 8, 256);
    let handles = six_handles(&mut book);
    let mut leases = Vec::new();
    collect_leases(&prettify(&book), &mut leases);
    assert_eq!(leases, vec![0..64, 64..96, 96..104, 104..112, 128..160, 192..256]);
    for pair in leases.windows(2) {
        assert!(pair[0].start < pair[0].end);
        assert!(pair[0].end <= pair[1].start);
    }
    assert!(leases.last().unwrap().end <= 2048);
    for (handle, lease) in handles.iter().zip(leases.iter()) {
        assert_eq!(handle.range().start, lease.start);
        assert!(handle.range().end <= lease.end);
    }
}

#[test]
fn reclaim_hands_back_a_leased_block_only() {
    let mut book = BuddyBookkeeping::new(16, 8, 16);
    let handle = book.allocate(8).unwrap();
    assert_eq!(picture(&book), "[0..8:leased 8..16:free]");
    // The root is split, the high half is free, and slot 99 holds nothing.
    assert_eq!(book.reclaim(NodeId { slot: 0, generation: 0 }), None);
    assert_eq!(book.reclaim(NodeId { slot: 2, generation: 0 }), None);
    assert_eq!(book.reclaim(NodeId { slot: 99, generation: 0 }), None);
    assert_eq!(book.reclaim(NodeId { slot: 1, generation: 7 }), None);
    assert_eq!(picture(&book), "[0..8:leased 8..16:free]");
    assert_eq!(book.reclaim(NodeId { slot: 1, generation: 0 }), Some(0..8));
    assert_eq!(picture(&book), "[0..8:free 8..16:free]");
    assert_eq!(book.reclaim(NodeId { slot: 1, generation: 0 }), None);
    // The handle's own entry now names no leased block: it ends the drain
    // and does no harm.
    drop(handle);
    book.tidy();
    assert_eq!(picture(&book), "0..16:free");
}

#[test]
fn drain_hands_back_only_what_was_dropped() {
    let mut book = BuddyBookkeeping::new(32, 8, 32);
    let a = book.allocate(8).unwrap();
    let b = book.allocate(8).unwrap();
    let c = book.allocate(8).unwrap();
    drop(b);
    book.tidy();
    assert_eq!(picture(&book), "[[0..8:leased 8..16:free] [16..24:leased 24..32:free]]");
    drop(a);
    book.tidy_gas(100);
    assert_eq!(picture(&book), "[0..16:free [16..24:leased 24..32:free]]");
    book.tidy_timed(Instant::now() + Duration::from_secs(3600));
    assert_eq!(picture(&book), "[0..16:free [16..24:leased 24..32:free]]");
    assert_eq!(c.range(), 16..24);
}

#[test]
fn late_drain_receives_nothing() {
    let mut book = BuddyBookkeeping::new(256, 8, 256);
    drop(book.allocate(64).unwrap());
    let before = format!("{:?}", prettify(&book));
    book.tidy_timed_visit(true, Instant::now() + Duration::from_secs(3600));
    assert_eq!(format!("{:?}", prettify(&book)), before);
    // The entry still waits.
    book.tidy_timed_visit(false, Instant::now() + Duration::from_secs(3600));
    assert_eq!(picture(&book), "0..256:free");
}

#[test]
fn drain_in_time_stops_when_the_clock_runs_out() {
    let mut book = BuddyBookkeeping::new(32, 8, 32);
    let a = book.allocate(8).unwrap();
    let b = book.allocate(8).unwrap();
    drop(a);
    drop(b);
    // In time for the first entry, late for everything after it.
    book.tidy_timed_visit(false, Instant::now());
    assert_eq!(picture(&book), "[[0..8:free 8..16:leased] 16..32:free]");
    book.tidy();
    assert_eq!(picture(&book), "0..32:free");
}

#[test]
fn leased_blocks_are_aligned() {
    let mut book = BuddyBookkeeping::new(2048, 8, 256);
    let _handles = six_handles(&mut book);
    let mut leases = Vec::new();
    collect_leases(&prettify(&book), &mut leases);
    for lease in leases {
        assert!(lease.len().is_power_of_two());
        assert_eq!(lease.start % lease.len(), 0);
    }
}
