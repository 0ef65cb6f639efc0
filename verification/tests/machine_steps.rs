use cache_sim::cache::{Action, Cache, Transfer};
use cache_sim::machine::{Fault, Outcome, NUM_MEMORY, NUM_REGISTER};
use cache_sim::State;

fn word(opcode: i32, reg_a: i32, reg_b: i32, low: i32) -> i32 {
    (opcode << 22) | (reg_a << 19) | (reg_b << 16) | (low & 0xFFFF)
}

fn add(a: i32, b: i32, dest: i32) -> i32 {
    word(0, a, b, dest)
}

fn nand(a: i32, b: i32, dest: i32) -> i32 {
    word(1, a, b, dest)
}

fn lw(a: i32, b: i32, offset: i32) -> i32 {
    word(2, a, b, offset)
}

fn sw(a: i32, b: i32, offset: i32) -> i32 {
    word(3, a, b, offset)
}

fn beq(a: i32, b: i32, offset: i32) -> i32 {
    word(4, a, b, offset)
}

const HALT: i32 = 6 << 22;
const NOOP: i32 = 7 << 22;
const UNUSED: i32 = 5 << 22;

fn run(state: &mut State, cache: &mut Cache, limit: usize) -> (Outcome, usize) {
    let mut count = 0;
    for _ in 0..limit {
        match state.step(cache) {
            Outcome::Executed => count += 1,
            Outcome::Skipped => {}
            Outcome::Halted => return (Outcome::Halted, count + 1),
            other => return (other, count),
        }
    }
    panic!("the program did not end");
}

#[test]
fn machine_starts_on_its_program() {
    let state = State::new(&[HALT, 7, -9]);
    assert_eq!(state.pc(), 0);
    assert_eq!(state.num_memory(), 3);
    assert_eq!(state.word(0), HALT);
    assert_eq!(state.word(1), 7);
    assert_eq!(state.word(2), -9);
    assert_eq!(state.word(3), 0);
    assert_eq!(state.word(NUM_MEMORY - 1), 0);
    for index in 0..NUM_REGISTER {
        assert_eq!(state.register(index), 0);
    }
}

#[test]
fn load_add_store_halt() {
    let program = [lw(0, 1, 5), lw(0, 2, 6), add(1, 2, 3), sw(0, 3, 7), HALT, 10, 32, 0];
    let mut state = State::new(&program);
    // One block of two words: every other block puts it out.
    let mut cache = Cache::new(2, 1, 1);

    assert_eq!(state.step(&mut cache), Outcome::Executed);
    assert_eq!(state.pc(), 1);
    assert_eq!(state.register(1), 10);
    assert_eq!(
        cache.take_transfers(),
        vec![
            Transfer { address: 0, size: 2, action: Action::MemoryToCache },
            Transfer { address: 0, size: 1, action: Action::CacheToProcessor },
            Transfer { address: 0, size: 2, action: Action::CacheToNowhere },
            Transfer { address: 4, size: 2, action: Action::MemoryToCache },
            Transfer { address: 5, size: 1, action: Action::CacheToProcessor },
        ]
    );

    assert_eq!(state.step(&mut cache), Outcome::Executed);
    assert_eq!(state.register(2), 32);
    assert_eq!(state.step(&mut cache), Outcome::Executed);
    assert_eq!(state.register(3), 42);
    assert_eq!(state.step(&mut cache), Outcome::Executed);
    assert_eq!(state.pc(), 4);
    // The word was stored in the cache only.
    assert_eq!(state.word(7), 0);
    assert_eq!(state.step(&mut cache), Outcome::Halted);
    assert_eq!(state.pc(), 5);
    // Fetching the halt put the written block out.
    assert_eq!(state.word(7), 42);
    assert_eq!(state.register(0), 0);
}

#[test]
fn nand_of_two_registers() {
    let program = [lw(0, 1, 3), nand(1, 1, 2), HALT, 0b1100];
    let mut state = State::new(&program);
    let mut cache = Cache::new(4, 1, 1);
    assert_eq!(run(&mut state, &mut cache, 10), (Outcome::Halted, 3));
    assert_eq!(state.register(1), 0b1100);
    assert_eq!(state.register(2), !0b1100);
}

#[test]
fn branch_counts_down() {
    // reg1 = 3, reg2 = -1; loop: reg1 += reg2 until reg1 == 0.
    let program = [
        lw(0, 1, 6),
        lw(0, 2, 7),
        beq(0, 1, 2),
        add(1, 2, 1),
        beq(0, 0, -3),
        HALT,
        3,
        -1,
    ];
    let mut state = State::new(&program);
    let mut cache = Cache::new(1, 4, 2);
    // Two loads, three rounds of three instructions, the last branch, halt.
    assert_eq!(run(&mut state, &mut cache, 100), (Outcome::Halted, 13));
    assert_eq!(state.register(1), 0);
    assert_eq!(state.register(2), -1);
    assert_eq!(state.pc(), 6);
}

#[test]
fn instructions_that_do_nothing_are_not_counted() {
    let program = [NOOP, UNUSED, NOOP, HALT];
    let mut state = State::new(&program);
    let mut cache = Cache::new(1, 1, 1);
    assert_eq!(state.step(&mut cache), Outcome::Skipped);
    assert_eq!(state.step(&mut cache), Outcome::Skipped);
    assert_eq!(state.pc(), 2);
    assert_eq!(run(&mut state, &mut cache, 10), (Outcome::Halted, 1));
    assert_eq!(state.pc(), 4);
}

#[test]
fn sum_that_does_not_fit_is_a_fault() {
    let program = [lw(0, 1, 3), add(1, 1, 2), HALT, i32::MAX];
    let mut state = State::new(&program);
    let mut cache = Cache::new(1, 1, 1);
    assert_eq!(state.step(&mut cache), Outcome::Executed);
    assert_eq!(state.step(&mut cache), Outcome::Fault(Fault::Overflow));
    assert_eq!(state.register(2), 0);
    assert_eq!(state.pc(), 2);
}

#[test]
fn address_outside_memory_is_a_fault() {
    // reg1 = 65535; a load from 65535 + 1 leaves memory.
    let program = [lw(0, 1, 4), lw(1, 2, 0), lw(1, 2, 1), HALT, 65535];
    let mut state = State::new(&program);
    let mut cache = Cache::new(1, 1, 1);
    assert_eq!(state.step(&mut cache), Outcome::Executed);
    assert_eq!(state.step(&mut cache), Outcome::Executed);
    assert_eq!(state.register(2), 0);
    cache.take_transfers();
    assert_eq!(state.step(&mut cache), Outcome::Fault(Fault::Address));
    // The instruction was fetched, the word was not.
    assert_eq!(state.pc(), 3);
    assert_eq!(
        cache.take_transfers(),
        vec![
            Transfer { address: 65535, size: 1, action: Action::CacheToNowhere },
            Transfer { address: 2, size: 1, action: Action::MemoryToCache },
            Transfer { address: 2, size: 1, action: Action::CacheToProcessor },
        ]
    );
}

#[test]
fn address_below_zero_is_a_fault() {
    let program = [lw(0, 1, -1), HALT];
    let mut state = State::new(&program);
    let mut cache = Cache::new(1, 1, 1);
    assert_eq!(state.step(&mut cache), Outcome::Fault(Fault::Address));

    let program = [sw(0, 1, -32768), HALT];
    let mut state = State::new(&program);
    assert_eq!(state.step(&mut cache), Outcome::Fault(Fault::Address));
}

#[test]
fn address_sum_that_does_not_fit_is_a_fault() {
    let program = [lw(0, 1, 3), sw(1, 0, 1), HALT, i32::MAX];
    let mut state = State::new(&program);
    let mut cache = Cache::new(1, 1, 1);
    assert_eq!(state.step(&mut cache), Outcome::Executed);
    assert_eq!(state.step(&mut cache), Outcome::Fault(Fault::Overflow));
}

#[test]
fn block_larger_than_what_is_left_of_memory_is_a_fault() {
    let program = [HALT];
    let mut state = State::new(&program);
    // One block of this cache is twice the memory.
    let mut cache = Cache::new(2 * NUM_MEMORY, 1, 1);
    assert_eq!(state.step(&mut cache), Outcome::Fault(Fault::Address));
    assert_eq!(state.pc(), 0);
    assert!(cache.take_transfers().is_empty());
}

#[test]
fn branch_below_zero_stops_the_machine() {
    let program = [beq(0, 0, -2), HALT];
    let mut state = State::new(&program);
    let mut cache = Cache::new(1, 1, 1);
    assert_eq!(state.step(&mut cache), Outcome::Executed);
    assert_eq!(state.pc(), u32::MAX);
    cache.take_transfers();
    assert_eq!(state.step(&mut cache), Outcome::Stopped);
    assert_eq!(state.pc(), u32::MAX);
    assert!(cache.take_transfers().is_empty());
}

#[test]
fn counter_at_the_end_of_memory_is_a_fault() {
    // A branch from the last but one word to one past the end of memory.
    let mut program = vec![NOOP; NUM_MEMORY];
    program[0] = beq(0, 0, 32767);
    program[32768] = beq(0, 0, 32767);
    let mut state = State::new(&program);
    let mut cache = Cache::new(1, 1, 1);
    assert_eq!(state.step(&mut cache), Outcome::Executed);
    assert_eq!(state.pc(), 32768);
    assert_eq!(state.step(&mut cache), Outcome::Executed);
    assert_eq!(state.pc(), 65536);
    assert_eq!(state.step(&mut cache), Outcome::Fault(Fault::Address));
}

#[test]
fn branch_not_taken_moves_on() {
    let program = [lw(0, 1, 3), beq(0, 1, 5), HALT, 1];
    let mut state = State::new(&program);
    let mut cache = Cache::new(4, 1, 1);
    assert_eq!(run(&mut state, &mut cache, 10), (Outcome::Halted, 3));
    assert_eq!(state.pc(), 3);
}

#[test]
fn store_then_load_goes_through_the_cache() {
    let program = [lw(0, 1, 5), sw(0, 1, 6), lw(0, 2, 6), HALT, 0, 1234, 0];
    let mut state = State::new(&program);
    let mut cache = Cache::new(8, 1, 1);
    assert_eq!(run(&mut state, &mut cache, 10), (Outcome::Halted, 4));
    assert_eq!(state.register(2), 1234);
    // One block holds the whole program: nothing was written back.
    assert_eq!(state.word(6), 0);
}
