use cache_sim::cache::Cache;

#[test]
fn address_splits_into_tag_set_and_offset() {
    // Blocks of 4 words, 8 sets: two offset bits, three set bits.
    let cache = Cache::new(4, 8, 2);
    let address = 0b1011_101_10;
    assert_eq!(cache.get_block_offset(address), 0b10);
    assert_eq!(cache.get_set_index(address), 0b101);
    assert_eq!(cache.get_tag(address), 0b1011);
    assert_eq!(cache.get_block_bounds(address), (address - 2, address + 1));
}

#[test]
fn block_of_one_word_has_no_offset() {
    let cache = Cache::new(1, 4, 1);
    for address in 0..64 {
        assert_eq!(cache.get_block_offset(address), 0);
        assert_eq!(cache.get_set_index(address), address % 4);
        assert_eq!(cache.get_tag(address), address / 4);
        assert_eq!(cache.get_block_bounds(address), (address, address));
    }
}

#[test]
fn single_set_has_index_zero() {
    let cache = Cache::new(8, 1, 4);
    for address in 0..64 {
        assert_eq!(cache.get_block_offset(address), address % 8);
        assert_eq!(cache.get_set_index(address), 0);
        assert_eq!(cache.get_tag(address), address / 8);
    }
}

#[test]
fn one_word_one_set_keeps_the_whole_address_as_tag() {
    let cache = Cache::new(1, 1, 2);
    for address in [0usize, 1, 2, 3, 1000, usize::MAX] {
        assert_eq!(cache.get_block_offset(address), 0);
        assert_eq!(cache.get_set_index(address), 0);
        assert_eq!(cache.get_tag(address), address);
    }
}

#[test]
fn fields_are_in_range_and_tell_addresses_apart() {
    let cache = Cache::new(4, 2, 1);
    let mut seen = Vec::new();
    for address in 0..256usize {
        let offset = cache.get_block_offset(address);
        let set = cache.get_set_index(address);
        let tag = cache.get_tag(address);
        assert!(offset < 4);
        assert!(set < 2);
        assert_eq!((tag * 2 + set) * 4 + offset, address);
        assert!(!seen.contains(&(tag, set, offset)));
        seen.push((tag, set, offset));
    }
}

#[test]
fn bounds_hold_the_address_and_span_one_block() {
    let cache = Cache::new(16, 4, 2);
    for address in [0usize, 1, 15, 16, 17, 255, 4096, 65535, usize::MAX] {
        let (low, high) = cache.get_block_bounds(address);
        assert!(low <= address && address <= high);
        assert_eq!(high - low + 1, 16);
        assert_eq!(low % 16, 0);
        assert_eq!(low + cache.get_block_offset(address), address);
    }
    assert_eq!(cache.get_block_bounds(37), (32, 47));
    assert_eq!(
        cache.get_block_bounds(usize::MAX),
        (usize::MAX - 15, usize::MAX)
    );
}

#[test]
fn wide_fields_leave_the_high_bits_to_the_tag() {
    let cache = Cache::new(1 << 16, 1 << 4, 1);
    let address = (0xABC << 20) | (0x7 << 16) | 0x1234;
    assert_eq!(cache.get_block_offset(address), 0x1234);
    assert_eq!(cache.get_set_index(address), 0x7);
    assert_eq!(cache.get_tag(address), 0xABC);
    assert_eq!(cache.get_tag(usize::MAX), usize::MAX >> 20);
    assert_eq!(cache.get_set_index(usize::MAX), 15);
    assert_eq!(cache.get_block_offset(usize::MAX), 0xFFFF);
}
