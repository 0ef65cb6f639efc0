use cache_sim::cache::CacheSet;
use cache_sim::utils::{is_power_of_two, min_bits_required};

#[test]
fn powers_of_two_are_told_apart() {
    assert!(!is_power_of_two(0));
    assert!(is_power_of_two(1));
    assert!(is_power_of_two(2));
    assert!(!is_power_of_two(3));
    assert!(is_power_of_two(4));
    assert!(!is_power_of_two(6));
    assert!(is_power_of_two(1024));
    assert!(!is_power_of_two(1023));
    assert!(is_power_of_two(1usize << (usize::BITS - 1)));
    assert!(!is_power_of_two(usize::MAX));
}

#[test]
fn single_option_takes_no_bits() {
    assert_eq!(min_bits_required(1), 0);
    assert_eq!(min_bits_required(2), 1);
}

#[test]
fn no_option_is_given_one_bit() {
    assert_eq!(min_bits_required(0), 1);
}

#[test]
fn min_bits_rounds_up_to_the_next_power_of_two() {
    assert_eq!(min_bits_required(3), 2);
    assert_eq!(min_bits_required(4), 2);
    assert_eq!(min_bits_required(5), 3);
    assert_eq!(min_bits_required(8), 3);
    assert_eq!(min_bits_required(9), 4);
    assert_eq!(min_bits_required(1024), 10);
    assert_eq!(min_bits_required(1025), 11);
    assert_eq!(min_bits_required(usize::MAX), usize::BITS as usize);
}

#[test]
fn fresh_set_fills_its_first_block_first() {
    let set = CacheSet::new(4, 8);
    assert_eq!(set.least_recently_used(), 0);
    assert_eq!(set.position_of(0), None);
    assert!(set.can_age(0, 1));
    assert!(set.can_age(3, usize::MAX));
}

#[test]
fn set_without_blocks_names_block_zero() {
    let set = CacheSet::new(4, 0);
    assert_eq!(set.least_recently_used(), 0);
}

#[test]
fn ageing_leaves_room_for_one_step_less() {
    let mut set = CacheSet::new(1, 2);
    set.use_block(0);
    assert!(set.can_age(0, usize::MAX - 1));
    assert!(!set.can_age(0, usize::MAX));
    assert!(set.can_age(1, usize::MAX));
    // Every block ages where the index names none of them.
    set.use_block(7);
    assert!(!set.can_age(1, usize::MAX));
    assert!(!set.can_age(0, usize::MAX - 1));
    assert!(set.can_age(0, usize::MAX - 2));
}
