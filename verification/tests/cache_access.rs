use cache_sim::cache::{Action, Cache, Transfer};

fn moved(address: usize, size: usize, action: Action) -> Transfer {
    Transfer {
        address,
        size,
        action,
    }
}

#[test]
fn two_way_set_keeps_the_block_that_was_written() {
    let mut cache = Cache::new(1, 1, 2);
    let mut memory = vec![10, 20, 30];

    assert_eq!(cache.get_value(0, &mut memory), 10);
    assert_eq!(
        cache.take_transfers(),
        vec![
            moved(0, 1, Action::MemoryToCache),
            moved(0, 1, Action::CacheToProcessor)
        ]
    );
    assert_eq!(cache.get_value(1, &mut memory), 20);
    assert_eq!(
        cache.take_transfers(),
        vec![
            moved(1, 1, Action::MemoryToCache),
            moved(1, 1, Action::CacheToProcessor)
        ]
    );
    cache.set_value(0, &mut memory, 99);
    assert_eq!(
        cache.take_transfers(),
        vec![moved(0, 1, Action::ProcessorToCache)]
    );
    assert_eq!(memory, vec![10, 20, 30]);

    // The set is full; the block of address 1 went longest without use and
    // was never written to.
    assert_eq!(cache.get_value(2, &mut memory), 30);
    assert_eq!(
        cache.take_transfers(),
        vec![
            moved(1, 1, Action::CacheToNowhere),
            moved(2, 1, Action::MemoryToCache),
            moved(2, 1, Action::CacheToProcessor)
        ]
    );
    assert_eq!(memory, vec![10, 20, 30]);

    assert_eq!(cache.get_value(0, &mut memory), 99);
    assert_eq!(
        cache.take_transfers(),
        vec![moved(0, 1, Action::CacheToProcessor)]
    );
}

#[test]
fn two_way_set_puts_out_the_block_read_before_the_last_hit() {
    let mut cache = Cache::new(1, 1, 2);
    let mut memory = vec![10, 20, 30];
    cache.get_value(0, &mut memory);
    cache.get_value(1, &mut memory);
    cache.set_value(0, &mut memory, 99);
    cache.get_value(2, &mut memory);
    cache.get_value(0, &mut memory);
    cache.take_transfers();

    // Address 0 was used last, so the block of address 2 makes room.
    assert_eq!(cache.get_value(1, &mut memory), 20);
    assert_eq!(
        cache.take_transfers(),
        vec![
            moved(2, 1, Action::CacheToNowhere),
            moved(1, 1, Action::MemoryToCache),
            moved(1, 1, Action::CacheToProcessor)
        ]
    );
    assert_eq!(memory, vec![10, 20, 30]);
    assert_eq!(cache.get_value(0, &mut memory), 99);
}

#[test]
fn written_word_comes_back_after_its_block_was_put_out() {
    // One set of one block of two words: every other block puts it out.
    let mut cache = Cache::new(2, 1, 1);
    let mut memory = vec![1, 2, 3, 4, 5, 6];

    cache.set_value(3, &mut memory, 77);
    assert_eq!(memory, vec![1, 2, 3, 4, 5, 6]);
    assert_eq!(cache.get_value(3, &mut memory), 77);

    assert_eq!(cache.get_value(4, &mut memory), 5);
    assert_eq!(memory, vec![1, 2, 3, 77, 5, 6]);

    assert_eq!(cache.get_value(3, &mut memory), 77);
    assert_eq!(cache.get_value(2, &mut memory), 3);
    assert_eq!(
        cache.take_transfers(),
        vec![
            moved(2, 2, Action::MemoryToCache),
            moved(3, 1, Action::ProcessorToCache),
            moved(3, 1, Action::CacheToProcessor),
            moved(2, 2, Action::CacheToMemory),
            moved(4, 2, Action::MemoryToCache),
            moved(4, 1, Action::CacheToProcessor),
            moved(4, 2, Action::CacheToNowhere),
            moved(2, 2, Action::MemoryToCache),
            moved(3, 1, Action::CacheToProcessor),
            moved(2, 1, Action::CacheToProcessor),
        ]
    );
}

#[test]
fn dirty_block_is_written_to_where_it_came_from() {
    let mut cache = Cache::new(4, 2, 1);
    let mut memory: Vec<i32> = (0..32).collect();

    // Addresses 8..12 and 16..20 share set 0.
    cache.set_value(9, &mut memory, -1);
    cache.set_value(11, &mut memory, -3);
    let untouched: Vec<i32> = (0..32).collect();
    assert_eq!(memory, untouched);

    assert_eq!(cache.get_value(18, &mut memory), 18);
    let mut expected: Vec<i32> = (0..32).collect();
    expected[9] = -1;
    expected[11] = -3;
    assert_eq!(memory, expected);
}

#[test]
fn clean_block_leaves_memory_as_it_is() {
    let mut cache = Cache::new(4, 2, 1);
    let mut memory: Vec<i32> = (0..32).collect();
    assert_eq!(cache.get_value(9, &mut memory), 9);
    // Memory changes behind the cache's back; the clean copy is dropped.
    memory[9] = 1000;
    assert_eq!(cache.get_value(9, &mut memory), 9);
    assert_eq!(cache.get_value(18, &mut memory), 18);
    assert_eq!(memory[9], 1000);
    assert_eq!(cache.get_value(9, &mut memory), 1000);
    assert_eq!(
        cache.take_transfers(),
        vec![
            moved(8, 4, Action::MemoryToCache),
            moved(9, 1, Action::CacheToProcessor),
            moved(9, 1, Action::CacheToProcessor),
            moved(8, 4, Action::CacheToNowhere),
            moved(16, 4, Action::MemoryToCache),
            moved(18, 1, Action::CacheToProcessor),
            moved(16, 4, Action::CacheToNowhere),
            moved(8, 4, Action::MemoryToCache),
            moved(9, 1, Action::CacheToProcessor),
        ]
    );
}

#[test]
fn full_set_puts_out_the_block_used_least_recently() {
    // Four blocks of one word in the only set.
    let mut cache = Cache::new(1, 1, 4);
    let mut memory: Vec<i32> = (100..110).collect();
    for address in 0..4 {
        assert_eq!(cache.get_value(address, &mut memory), 100 + address as i32);
    }
    // Four misses, each into a block to spare.
    let filled = cache.take_transfers();
    assert_eq!(filled.len(), 8);
    assert!(filled
        .iter()
        .all(|t| t.action == Action::MemoryToCache || t.action == Action::CacheToProcessor));

    assert_eq!(cache.get_value(4, &mut memory), 104);
    assert_eq!(
        cache.take_transfers(),
        vec![
            moved(0, 1, Action::CacheToNowhere),
            moved(4, 1, Action::MemoryToCache),
            moved(4, 1, Action::CacheToProcessor)
        ]
    );
}

#[test]
fn a_hit_saves_a_block_from_being_put_out() {
    let mut cache = Cache::new(1, 1, 4);
    let mut memory: Vec<i32> = (100..110).collect();
    for address in 0..4 {
        cache.get_value(address, &mut memory);
    }
    // Use 0 and 1 again: 2 is now the one used least recently, then 3.
    cache.get_value(0, &mut memory);
    cache.set_value(1, &mut memory, -5);
    cache.take_transfers();

    cache.get_value(5, &mut memory);
    assert_eq!(
        cache.take_transfers()[0],
        moved(2, 1, Action::CacheToNowhere)
    );
    cache.get_value(6, &mut memory);
    assert_eq!(
        cache.take_transfers()[0],
        moved(3, 1, Action::CacheToNowhere)
    );
    cache.get_value(7, &mut memory);
    assert_eq!(
        cache.take_transfers()[0],
        moved(0, 1, Action::CacheToNowhere)
    );
    cache.get_value(8, &mut memory);
    assert_eq!(
        cache.take_transfers()[0],
        moved(1, 1, Action::CacheToMemory)
    );
    assert_eq!(memory[1], -5);
}

#[test]
fn sets_do_not_disturb_each_other() {
    // Two sets of one block of one word: even addresses in set 0, odd in set 1.
    let mut cache = Cache::new(1, 2, 1);
    let mut memory = vec![5, 6, 7, 8];
    cache.set_value(0, &mut memory, 50);
    cache.set_value(1, &mut memory, 60);
    assert_eq!(cache.get_value(3, &mut memory), 8);
    assert_eq!(memory, vec![5, 60, 7, 8]);
    assert_eq!(cache.get_value(0, &mut memory), 50);
    assert_eq!(cache.get_value(2, &mut memory), 7);
    assert_eq!(memory, vec![50, 60, 7, 8]);
}

#[test]
fn take_transfers_empties_the_record() {
    let mut cache = Cache::new(2, 2, 2);
    let mut memory = vec![0; 16];
    assert!(cache.take_transfers().is_empty());
    cache.get_value(0, &mut memory);
    assert_eq!(cache.take_transfers().len(), 2);
    assert!(cache.take_transfers().is_empty());
}

#[test]
fn fresh_cache_has_headroom_everywhere() {
    let cache = Cache::new(2, 4, 2);
    assert!(cache.has_headroom(0));
    assert!(cache.has_headroom(12345));
    assert!(cache.has_headroom(usize::MAX));
}

#[test]
fn cache_reads_what_a_plain_memory_holds() {
    for (block_size, sets, ways) in [(1, 1, 1), (1, 1, 4), (2, 2, 2), (4, 2, 1), (8, 4, 2), (16, 1, 2)]
    {
        let mut cache = Cache::new(block_size, sets, ways);
        let mut memory: Vec<i32> = (0..256).map(|x| x * 3 - 100).collect();
        let mut plain = memory.clone();
        let mut seed: u32 = 12345;
        for round in 0..4000 {
            seed = seed.wrapping_mul(1664525).wrapping_add(1013904223);
            let address = ((seed >> 8) % 256) as usize;
            if (seed >> 20) % 3 == 0 {
                cache.set_value(address, &mut memory, round);
                plain[address] = round;
            } else {
                assert_eq!(cache.get_value(address, &mut memory), plain[address]);
            }
        }
        // Reading every word through the cache gives the plain memory.
        for address in 0..256 {
            assert_eq!(cache.get_value(address, &mut memory), plain[address]);
        }
    }
}

#[test]
fn every_transfer_of_a_block_starts_at_a_block_bound() {
    let mut cache = Cache::new(8, 4, 2);
    let mut memory: Vec<i32> = vec![0; 1024];
    let mut seed: u32 = 99;
    for round in 0..2000 {
        seed = seed.wrapping_mul(1664525).wrapping_add(1013904223);
        let address = ((seed >> 8) % 1024) as usize;
        if round % 2 == 0 {
            cache.set_value(address, &mut memory, round);
        } else {
            cache.get_value(address, &mut memory);
        }
        let transfers = cache.take_transfers();
        let last = transfers[transfers.len() - 1];
        assert_eq!((last.address, last.size), (address, 1));
        for transfer in &transfers[..transfers.len() - 1] {
            assert_eq!(transfer.size, 8);
            assert_eq!(transfer.address % 8, 0);
        }
        if transfers.len() > 1 {
            let brought = transfers[transfers.len() - 2];
            assert_eq!(brought.action, Action::MemoryToCache);
            assert_eq!(
                (brought.address, brought.address + 7),
                cache.get_block_bounds(address)
            );
        }
    }
}

#[test]
fn hit_does_not_reach_for_memory() {
    let mut cache = Cache::new(2, 1, 2);
    let mut memory = vec![7, 8, 9, 10];
    cache.set_value(2, &mut memory, 90);
    assert_eq!(cache.get_value(3, &mut memory), 10);
    // The block is resident: no word of memory is needed for the access.
    let mut none: Vec<i32> = Vec::new();
    assert_eq!(cache.get_value(2, &mut none), 90);
    cache.set_value(3, &mut none, 100);
    assert_eq!(cache.get_value(3, &mut none), 100);
    assert_eq!(memory, vec![7, 8, 9, 10]);
}
