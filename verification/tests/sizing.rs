use buddy_arena::buddy::is_pow_of_two;
use buddy_arena::sizing::block_size_for;

#[test]
fn powers_of_two_are_recognised() {
    assert!(!is_pow_of_two(0));
    assert!(is_pow_of_two(1));
    assert!(is_pow_of_two(2));
    assert!(!is_pow_of_two(3));
    assert!(is_pow_of_two(4));
    assert!(!is_pow_of_two(6));
    assert!(is_pow_of_two(2048));
    assert!(!is_pow_of_two(2047));
    assert!(!is_pow_of_two(2049));
    assert!(is_pow_of_two(1usize << (usize::BITS - 1)));
    assert!(!is_pow_of_two(usize::MAX));
}

#[test]
fn request_is_rounded_up() {
    assert_eq!(block_size_for(64, 8, 256), Some(64));
    assert_eq!(block_size_for(24, 8, 256), Some(32));
    assert_eq!(block_size_for(31, 8, 256), Some(32));
    assert_eq!(block_size_for(60, 8, 256), Some(64));
    assert_eq!(block_size_for(65, 8, 256), Some(128));
    assert_eq!(block_size_for(129, 8, 256), Some(256));
    assert_eq!(block_size_for(256, 8, 256), Some(256));
}

#[test]
fn request_is_raised_to_the_minimum() {
    assert_eq!(block_size_for(1, 8, 256), Some(8));
    assert_eq!(block_size_for(2, 8, 256), Some(8));
    assert_eq!(block_size_for(7, 8, 256), Some(8));
    assert_eq!(block_size_for(8, 8, 256), Some(8));
    assert_eq!(block_size_for(9, 8, 256), Some(16));
    assert_eq!(block_size_for(1, 1, 512), Some(1));
    assert_eq!(block_size_for(6, 1, 512), Some(8));
}

#[test]
fn request_above_the_maximum_is_rejected() {
    assert_eq!(block_size_for(257, 8, 256), None);
    assert_eq!(block_size_for(2048, 8, 256), None);
    assert_eq!(block_size_for(usize::MAX, 8, 256), None);
    assert_eq!(block_size_for(1, 0, 0), None);
}

#[test]
fn cap_decides_where_rounding_overshoots() {
    assert_eq!(block_size_for(70, 8, 100), Some(100));
    assert_eq!(block_size_for(usize::MAX, 1, usize::MAX), Some(usize::MAX));
    assert_eq!(block_size_for(usize::MAX / 2 + 2, 1, usize::MAX), Some(usize::MAX));
    let top = 1usize << (usize::BITS - 1);
    assert_eq!(block_size_for(top, 1, usize::MAX), Some(top));
    assert_eq!(block_size_for(top - 1, 1, usize::MAX), Some(top));
}

#[test]
fn zero_request_rounds_to_one() {
    assert_eq!(block_size_for(0, 0, 16), Some(1));
    assert_eq!(block_size_for(0, 4, 16), Some(4));
}
