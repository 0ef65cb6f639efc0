use cache_sim::cache::{Action, Cache};
use cache_sim::utils::{print_action, print_state};
use cache_sim::State;

#[test]
fn transfer_line_names_range_and_direction() {
    assert_eq!(
        print_action(0, 1, Action::CacheToProcessor),
        "@@@ transferring word [0-0] from the cache to the processor\n"
    );
    assert_eq!(
        print_action(7, 1, Action::ProcessorToCache),
        "@@@ transferring word [7-7] from the processor to the cache\n"
    );
    assert_eq!(
        print_action(8, 4, Action::MemoryToCache),
        "@@@ transferring word [8-11] from the memory to the cache\n"
    );
    assert_eq!(
        print_action(65520, 16, Action::CacheToMemory),
        "@@@ transferring word [65520-65535] from the cache to the memory\n"
    );
    assert_eq!(
        print_action(100, 10, Action::CacheToNowhere),
        "@@@ transferring word [100-109] from the cache to nowhere\n"
    );
}

#[test]
fn transfer_line_of_the_largest_address() {
    assert_eq!(
        print_action(usize::MAX, 0, Action::CacheToNowhere),
        format!(
            "@@@ transferring word [{}-{}] from the cache to nowhere\n",
            usize::MAX,
            usize::MAX - 1
        )
    );
    assert_eq!(
        print_action(1, usize::MAX - 1, Action::MemoryToCache),
        format!(
            "@@@ transferring word [1-{}] from the memory to the cache\n",
            usize::MAX - 1
        )
    );
}

#[test]
fn state_report_lists_program_words_and_registers() {
    let state = State::new(&[8454149, -5, 0]);
    assert_eq!(
        print_state(&state),
        "\n@@@\nstate:\n\tpc 0\n\tmemory:\n\t\tmem[ 0 ] 8454149\n\t\tmem[ 1 ] -5\n\t\tmem[ 2 ] 0\n\
         \tregisters:\n\t\treg[ 0 ] 0\n\t\treg[ 1 ] 0\n\t\treg[ 2 ] 0\n\t\treg[ 3 ] 0\n\
         \t\treg[ 4 ] 0\n\t\treg[ 5 ] 0\n\t\treg[ 6 ] 0\n\t\treg[ 7 ] 0\nend state\n"
    );
}

#[test]
fn state_report_of_an_empty_program() {
    let state = State::new(&[]);
    assert_eq!(
        print_state(&state),
        "\n@@@\nstate:\n\tpc 0\n\tmemory:\n\tregisters:\n\t\treg[ 0 ] 0\n\t\treg[ 1 ] 0\n\
         \t\treg[ 2 ] 0\n\t\treg[ 3 ] 0\n\t\treg[ 4 ] 0\n\t\treg[ 5 ] 0\n\t\treg[ 6 ] 0\n\
         \t\treg[ 7 ] 0\nend state\n"
    );
}

#[test]
fn state_report_shows_extreme_words() {
    // reg1 = the least word, reg2 = the greatest.
    let lw1 = (2 << 22) | (1 << 16) | 3;
    let lw2 = (2 << 22) | (2 << 16) | 4;
    let mut state = State::new(&[lw1, lw2, 6 << 22, i32::MIN, i32::MAX]);
    let mut cache = Cache::new(1, 1, 1);
    state.step(&mut cache);
    state.step(&mut cache);
    let report = print_state(&state);
    assert!(report.starts_with("\n@@@\nstate:\n\tpc 2\n\tmemory:\n"));
    assert!(report.contains("\t\tmem[ 3 ] -2147483648\n\t\tmem[ 4 ] 2147483647\n"));
    assert!(report.contains("\t\treg[ 1 ] -2147483648\n\t\treg[ 2 ] 2147483647\n"));
    assert!(report.ends_with("\t\treg[ 7 ] 0\nend state\n"));
}

#[test]
fn cache_report_lists_every_word() {
    let mut cache = Cache::new(2, 2, 1);
    let mut memory = vec![5, -6, 7, 8];
    cache.set_value(1, &mut memory, -60);
    cache.get_value(2, &mut memory);
    assert_eq!(
        cache.print_cache(),
        "--- --- --- Cache --- --- ---\n\
         block_size:       2\n\
         set_bit_count:    1\n\
         offset_bit_count: 1\n\
         set_count:        2\n\
         --- --- --- Sets  --- --- ---\n\
         \tSet #0\n\
         \t\tBlock #0 -- V D\n\
         \t\t\tRow #0's Data: 5\n\
         \t\t\tRow #1's Data: -60\n\
         \tSet #1\n\
         \t\tBlock #0 -- V C\n\
         \t\t\tRow #0's Data: 7\n\
         \t\t\tRow #1's Data: 8\n"
    );
}

#[test]
fn cache_report_of_a_fresh_cache() {
    let cache = Cache::new(1, 1, 2);
    assert_eq!(
        cache.print_cache(),
        "--- --- --- Cache --- --- ---\n\
         block_size:       1\n\
         set_bit_count:    0\n\
         offset_bit_count: 0\n\
         set_count:        1\n\
         --- --- --- Sets  --- --- ---\n\
         \tSet #0\n\
         \t\tBlock #0 -- N C\n\
         \t\t\tRow #0's Data: 0\n\
         \t\tBlock #1 -- N C\n\
         \t\t\tRow #0's Data: 0\n"
    );
}
