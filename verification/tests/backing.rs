use buddy_arena::arena::BuddyArena;
use buddy_arena::pretty_print::prettify;

#[test]
fn test() {
    let mut arena: BuddyArena<u8> = BuddyArena::new(2048, 8, 256);

    let a1 = arena.allocate(64).unwrap();
    let a2 = arena.allocate(24).unwrap();
    let a3 = arena.allocate(2).unwrap();
    let a4 = arena.allocate(7).unwrap();
    let a5 = arena.allocate(31).unwrap();
    let a6 = arena.allocate(60).unwrap();

    println!("{:#?}", prettify(arena.bookkeeping()));

    let string = "foobar";

    let a = arena.allocate(string.bytes().len()).unwrap();
    let view = arena.view_mut(&a);

    view.copy_from_slice(string.as_bytes());

    let str_view = std::str::from_utf8(view).unwrap();

    println!("{}", str_view);
    assert_eq!(str_view, "foobar");
    assert_eq!(a.range(), 112..118);
    assert_eq!(a1.range(), 0..64);
    assert_eq!(a2.range(), 64..88);
    assert_eq!(a3.range(), 96..98);
    assert_eq!(a4.range(), 104..111);
    assert_eq!(a5.range(), 128..159);
    assert_eq!(a6.range(), 192..252);
}

#[test]
fn byte_round_trip() {
    let mut arena: BuddyArena<u8> = BuddyArena::new(512, 1, 512);
    let handle = arena.allocate(6).unwrap();
    assert_eq!(handle.range(), 0..6);
    assert_eq!(arena.view(&handle), &[0u8; 6]);
    arena.view_mut(&handle).copy_from_slice(b"foobar");
    assert_eq!(arena.view(&handle), b"foobar");
    assert_eq!(std::str::from_utf8(arena.view(&handle)).unwrap(), "foobar");
    let block = prettify(arena.bookkeeping());
    assert_eq!(block.range, 0..512);
}

#[test]
fn views_do_not_overlap() {
    let mut arena: BuddyArena<u32> = BuddyArena::new(16, 4, 16);
    let a = arena.allocate(3).unwrap();
    let b = arena.allocate(4).unwrap();
    assert_eq!(a.range(), 0..3);
    assert_eq!(b.range(), 4..8);
    arena.view_mut(&a).copy_from_slice(&[1, 2, 3]);
    arena.view_mut(&b).copy_from_slice(&[4, 5, 6, 7]);
    assert_eq!(arena.view(&a), &[1, 2, 3]);
    assert_eq!(arena.view(&b), &[4, 5, 6, 7]);
    arena.view_mut(&a)[1] = 9;
    assert_eq!(arena.view(&a), &[1, 9, 3]);
    assert_eq!(arena.view(&b), &[4, 5, 6, 7]);
}

#[test]
fn array_delegates_to_its_bookkeeping() {
    let mut arena: BuddyArena<u8> = BuddyArena::new(64, 8, 64);
    let a = arena.allocate(8).unwrap();
    let b = arena.allocate(8).unwrap();
    assert_eq!(format!("{:?}", prettify(arena.bookkeeping()).range), "0..64");
    drop(a);
    arena.tidy_gas(0);
    assert!(matches!(
        prettify(arena.bookkeeping()).state,
        buddy_arena::pretty_print::PrettyState::Split(_, _)
    ));
    drop(b);
    arena.tidy_timed(std::time::Instant::now() + std::time::Duration::from_secs(3600));
    assert!(matches!(
        prettify(arena.bookkeeping()).state,
        buddy_arena::pretty_print::PrettyState::Available
    ));
    assert!(arena.allocate(65).is_none());
    let whole = arena.allocate(64).unwrap();
    assert_eq!(arena.view(&whole).len(), 64);
    drop(whole);
    arena.tidy();
    assert!(matches!(
        prettify(arena.bookkeeping()).state,
        buddy_arena::pretty_print::PrettyState::Available
    ));
}

#[test]
fn array_visit_follows_the_clock_answer() {
    let mut arena: BuddyArena<u8> = BuddyArena::new(64, 8, 64);
    drop(arena.allocate(8).unwrap());
    let far = std::time::Instant::now() + std::time::Duration::from_secs(3600);
    arena.tidy_timed_visit(true, far);
    assert!(matches!(
        prettify(arena.bookkeeping()).state,
        buddy_arena::pretty_print::PrettyState::Split(_, _)
    ));
    arena.tidy_timed_visit(false, far);
    assert!(matches!(
        prettify(arena.bookkeeping()).state,
        buddy_arena::pretty_print::PrettyState::Available
    ));
}
