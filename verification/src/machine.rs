//! The register machine: eight registers, a program counter and a memory of
//! words, which it reaches through the cache only.

use vstd::prelude::*;
use crate::cache::{Action, Cache, Transfer};
use crate::model::CacheView;
use crate::wellformed::lemma_fits_memory_holds;
use crate::parser::{decode, parse_instruction};
use crate::types::{IType, ITypeOpcode, OType, OTypeOpcode, OpType, RType, RTypeOpcode};

verus! {

/// The number of words of memory.
pub const NUM_MEMORY: usize = 65536;

/// The number of registers.
pub const NUM_REGISTER: usize = 8;

/// Why the machine cannot go on.
#[derive(Clone, Copy, Debug, PartialEq, Eq)]
pub enum Fault {
    /// An address whose block does not lie within memory.
    Address,
    /// A sum that does not fit a word.
    Overflow,
    /// A recency counter of the cache that cannot advance.
    Recency,
}

/// How one step of the machine ended.
#[derive(Clone, Copy, Debug, PartialEq, Eq)]
pub enum Outcome {
    /// An instruction was carried out.
    Executed,
    /// An instruction that does nothing was passed over.
    Skipped,
    /// The instruction that halts the machine was carried out.
    Halted,
    /// The program counter has left memory: nothing was done.
    Stopped,
    /// The step was given up.
    Fault(Fault),
}

/// The machine's registers and memory.
pub struct State {
    pc: u32,
    mem: Vec<i32>,
    reg: Vec<i32>,
    num_memory: u32,
}

/// The machine as a mathematical value.
pub struct StateView {
    pub pc: nat,
    pub mem: Seq<i32>,
    pub reg: Seq<i32>,
    /// The number of words that the program takes up.
    pub num_memory: nat,
}

/// What one step makes of the machine and the cache.
pub struct Stepped {
    pub state: StateView,
    pub cache: CacheView,
    pub outcome: Outcome,
    /// The transfers that the step made, in order.
    pub transfers: Seq<Transfer>,
}

impl StateView {
    /// The machine as it starts on `program`: the program at the bottom of
    /// memory, zeros above it and in every register.
    pub open spec fn loaded(program: Seq<i32>) -> StateView {
        StateView {
            pc: 0,
            mem: Seq::new(
                NUM_MEMORY as nat,
                |i: int|
                    if i < program.len() {
                        program[i]
                    } else {
                        0i32
                    },
            ),
            reg: Seq::new(NUM_REGISTER as nat, |i: int| 0i32),
            num_memory: program.len(),
        }
    }

    /// Memory and registers have their sizes.
    pub open spec fn wf(self) -> bool {
        &&& self.mem.len() == NUM_MEMORY
        &&& self.reg.len() == NUM_REGISTER
        &&& self.num_memory <= NUM_MEMORY
    }
}

/// Why an access to `address` cannot be made, if it cannot.
pub open spec fn access_fault(cache: CacheView, address: int) -> Option<Fault> {
    if address < 0 || cache.geometry.block_high(address as nat) >= NUM_MEMORY {
        Some(Fault::Address)
    } else if !cache.can_age(address as nat, usize::MAX as nat) {
        Some(Fault::Recency)
    } else {
        None
    }
}

/// Where a branch by `offset` leads from `pc`: below zero the counter wraps
/// round, which takes it out of memory.
pub open spec fn branch_target(pc: nat, offset: int) -> nat {
    if pc + offset >= 0 {
        (pc + offset) as nat
    } else {
        (pc + offset + 0x1_0000_0000) as nat
    }
}

/// The step with `outcome` in place of its own.
pub open spec fn ended(m: Stepped, outcome: Outcome) -> Stepped {
    Stepped { outcome, ..m }
}

/// The step after `value` was put in register `index`.
pub open spec fn with_register(m: Stepped, index: int, value: i32) -> Stepped {
    Stepped { state: StateView { reg: m.state.reg.update(index, value), ..m.state }, ..m }
}

/// The step after an access to the word at `address`: a read into register
/// `register`, or a write of `store`.
pub open spec fn accessed(m: Stepped, address: int, register: int, store: Option<i32>) -> Stepped {
    match access_fault(m.cache, address) {
        Some(fault) => ended(m, Outcome::Fault(fault)),
        None => {
            let a = address as nat;
            let mem = m.cache.memory_after(m.state.mem, a);
            match store {
                Some(value) => Stepped {
                    state: StateView { mem, ..m.state },
                    cache: m.cache.after_write(m.state.mem, a, value),
                    outcome: Outcome::Executed,
                    transfers: m.transfers + m.cache.transfers(a, Action::ProcessorToCache),
                },
                None => Stepped {
                    state: StateView {
                        mem,
                        reg: m.state.reg.update(register, m.cache.word(m.state.mem, a)),
                        ..m.state
                    },
                    cache: m.cache.after_read(m.state.mem, a),
                    outcome: Outcome::Executed,
                    transfers: m.transfers + m.cache.transfers(a, Action::CacheToProcessor),
                },
            }
        },
    }
}

/// The step after an instruction without operands.
pub open spec fn o_type_done(m: Stepped, o: OType) -> Stepped {
    match o.code {
        OTypeOpcode::Halt => ended(m, Outcome::Halted),
        OTypeOpcode::NoOp => ended(m, Outcome::Skipped),
        OTypeOpcode::X => ended(m, Outcome::Skipped),
    }
}

/// The step after an instruction on registers: the sum, or the nand, of
/// two registers goes to a third. A sum that does not fit a word is given
/// up.
pub open spec fn r_type_done(m: Stepped, r: RType) -> Stepped {
    let a = m.state.reg[r.register_a as int];
    let b = m.state.reg[r.register_b as int];
    match r.code {
        RTypeOpcode::Add => if i32::MIN <= a + b <= i32::MAX {
            with_register(m, r.destination as int, (a + b) as i32)
        } else {
            ended(m, Outcome::Fault(Fault::Overflow))
        },
        RTypeOpcode::Nand => with_register(m, r.destination as int, !(a & b)),
    }
}

/// The step after an instruction with an offset: a load from, or a store
/// to, the address that is the first register plus the offset, or a branch
/// by the offset where the two registers are equal. An address that does
/// not fit a word is given up.
pub open spec fn i_type_done(m: Stepped, i: IType) -> Stepped {
    let a = m.state.reg[i.register_a as int];
    let b = m.state.reg[i.register_b as int];
    match i.code {
        ITypeOpcode::LoadWord => if i32::MIN <= i.offset + a <= i32::MAX {
            accessed(m, i.offset + a, i.register_b as int, None)
        } else {
            ended(m, Outcome::Fault(Fault::Overflow))
        },
        ITypeOpcode::StoreWord => if i32::MIN <= a + i.offset <= i32::MAX {
            accessed(m, a + i.offset, i.register_b as int, Some(b))
        } else {
            ended(m, Outcome::Fault(Fault::Overflow))
        },
        ITypeOpcode::BranchEq => if a == b {
            Stepped {
                state: StateView { pc: branch_target(m.state.pc, i.offset as int), ..m.state },
                ..m
            }
        } else {
            m
        },
    }
}

/// The step after `op` was carried out on a machine whose program counter
/// has moved on already.
pub open spec fn executed(m: Stepped, op: OpType) -> Stepped {
    match op {
        OpType::O(o) => o_type_done(m, o),
        OpType::R(r) => r_type_done(m, r),
        OpType::I(i) => i_type_done(m, i),
    }
}

/// One step of the machine: where the program counter is within memory,
/// the word there is read through the cache, the counter moves on, and the
/// instruction that the word stands for is carried out.
pub open spec fn stepped(state: StateView, cache: CacheView) -> Stepped {
    let still = Stepped { state, cache, outcome: Outcome::Stopped, transfers: Seq::empty() };
    if state.pc > NUM_MEMORY {
        still
    } else {
        match access_fault(cache, state.pc as int) {
            Some(fault) => ended(still, Outcome::Fault(fault)),
            None => executed(
                Stepped {
                    state: StateView {
                        pc: state.pc + 1,
                        mem: cache.memory_after(state.mem, state.pc),
                        ..state
                    },
                    cache: cache.after_read(state.mem, state.pc),
                    outcome: Outcome::Executed,
                    transfers: cache.transfers(state.pc, Action::CacheToProcessor),
                },
                decode(cache.word(state.mem, state.pc)),
            ),
        }
    }
}

impl View for State {
    type V = StateView;

    closed spec fn view(&self) -> StateView {
        StateView {
            pc: self.pc as nat,
            mem: self.mem@,
            reg: self.reg@,
            num_memory: self.num_memory as nat,
        }
    }
}

/// Why an access to `address` cannot be made, if it cannot.
fn access_fault_of(cache: &Cache, address: usize) -> (fault: Option<Fault>)
    requires
        cache.wf(),
    ensures
        fault == access_fault(cache@, address as int),
{
    let (_, high) = cache.get_block_bounds(address);
    if high >= NUM_MEMORY {
        Some(Fault::Address)
    } else if !cache.has_headroom(address) {
        Some(Fault::Recency)
    } else {
        None
    }
}

impl State {
    /// The invariant of the machine.
    pub open spec fn wf(&self) -> bool {
        self@.wf()
    }

    /// The machine as it starts on `program`.
    pub fn new(program: &[i32]) -> (state: State)
        requires
            program@.len() <= NUM_MEMORY,
        ensures
            state.wf(),
            state@ == StateView::loaded(program@),
    {
        let n = program.len();
        let mut mem: Vec<i32> = Vec::new();
        let mut i: usize = 0;
        while i < NUM_MEMORY
            invariant
                i <= NUM_MEMORY,
                n == program@.len(),
                mem@.len() == i,
                forall|j: int|
                    0 <= j < i ==> #[trigger] mem@[j] == if j < n {
                        program@[j]
                    } else {
                        0i32
                    },
            decreases NUM_MEMORY - i,
        {
            if i < n {
                mem.push(program[i]);
            } else {
                mem.push(0);
            }
            i += 1;
        }
        let mut reg: Vec<i32> = Vec::new();
        let mut k: usize = 0;
        while k < NUM_REGISTER
            invariant
                k <= NUM_REGISTER,
                reg@.len() == k,
                forall|j: int| 0 <= j < k ==> #[trigger] reg@[j] == 0i32,
            decreases NUM_REGISTER - k,
        {
            reg.push(0);
            k += 1;
        }
        let state = State { pc: 0, mem, reg, num_memory: n as u32 };
        assert(state@.mem =~= StateView::loaded(program@).mem);
        assert(state@.reg =~= StateView::loaded(program@).reg);
        state
    }

    /// The program counter.
    pub fn pc(&self) -> (pc: u32)
        ensures
            pc == self@.pc,
    {
        self.pc
    }

    /// The number of words that the program takes up.
    pub fn num_memory(&self) -> (count: u32)
        ensures
            count == self@.num_memory,
    {
        self.num_memory
    }

    /// The word of memory at `address`, as memory holds it: what the cache
    /// holds of it is not looked at.
    pub fn word(&self, address: usize) -> (word: i32)
        requires
            address < self@.mem.len(),
        ensures
            word == self@.mem[address as int],
    {
        self.mem[address]
    }

    /// The value of register `index`.
    pub fn register(&self, index: usize) -> (value: i32)
        requires
            index < self@.reg.len(),
        ensures
            value == self@.reg[index as int],
    {
        self.reg[index]
    }

    /// Reads the word at `address` into register `register`, or writes
    /// `store` to it, through the cache; does nothing where the access
    /// cannot be made.
    fn access(
        &mut self,
        cache: &mut Cache,
        address: i32,
        register: usize,
        store: Option<i32>,
        Ghost(m): Ghost<Stepped>,
        Ghost(base): Ghost<Seq<Transfer>>,
    ) -> (outcome: Outcome)
        requires
            old(self).wf(),
            old(cache).wf(),
            old(cache)@.fits(NUM_MEMORY as nat),
            register < NUM_REGISTER,
            old(self)@ == m.state,
            old(cache)@ == m.cache,
            old(cache).pending() == base + m.transfers,
        ensures
            final(self).wf(),
            final(cache).wf(),
            final(cache)@.fits(NUM_MEMORY as nat),
            final(self)@ == accessed(m, address as int, register as int, store).state,
            final(cache)@ == accessed(m, address as int, register as int, store).cache,
            outcome == accessed(m, address as int, register as int, store).outcome,
            final(cache).pending() == base + accessed(
                m,
                address as int,
                register as int,
                store,
            ).transfers,
    {
        if address < 0 {
            return Outcome::Fault(Fault::Address);
        }
        let address = address as usize;
        match access_fault_of(cache, address) {
            Some(fault) => Outcome::Fault(fault),
            None => {
                match store {
                    Some(value) => {
                        proof {
                            lemma_fits_memory_holds(cache@, NUM_MEMORY as nat, address as nat);
                        }
                        cache.set_value(address, self.mem.as_mut_slice(), value);
                        assert(cache.pending() =~= base + (m.transfers + m.cache.transfers(
                            address as nat,
                            Action::ProcessorToCache,
                        )));
                    },
                    None => {
                        proof {
                            lemma_fits_memory_holds(cache@, NUM_MEMORY as nat, address as nat);
                        }
                        let value = cache.get_value(address, self.mem.as_mut_slice());
                        self.reg[register] = value;
                        assert(cache.pending() =~= base + (m.transfers + m.cache.transfers(
                            address as nat,
                            Action::CacheToProcessor,
                        )));
                    },
                }
                Outcome::Executed
            },
        }
    }

    /// Carries out an instruction on registers.
    fn execute_r(&mut self, r_type: RType, Ghost(m): Ghost<Stepped>) -> (outcome: Outcome)
        requires
            old(self).wf(),
            old(self)@ == m.state,
            m.outcome == Outcome::Executed,
            r_type.register_a < NUM_REGISTER,
            r_type.register_b < NUM_REGISTER,
            r_type.destination < NUM_REGISTER,
        ensures
            final(self).wf(),
            final(self)@ == r_type_done(m, r_type).state,
            outcome == r_type_done(m, r_type).outcome,
            r_type_done(m, r_type).cache == m.cache,
            r_type_done(m, r_type).transfers == m.transfers,
    {
        let reg_a = self.reg[r_type.register_a as usize];
        let reg_b = self.reg[r_type.register_b as usize];
        match r_type.code {
            RTypeOpcode::Add => match reg_a.checked_add(reg_b) {
                Some(sum) => {
                    self.reg[r_type.destination as usize] = sum;
                    Outcome::Executed
                },
                None => Outcome::Fault(Fault::Overflow),
            },
            RTypeOpcode::Nand => {
                self.reg[r_type.destination as usize] = !(reg_a & reg_b);
                Outcome::Executed
            },
        }
    }

    /// Carries out an instruction with an offset.
    fn execute_i(
        &mut self,
        cache: &mut Cache,
        i_type: IType,
        Ghost(m): Ghost<Stepped>,
        Ghost(base): Ghost<Seq<Transfer>>,
    ) -> (outcome: Outcome)
        requires
            old(self).wf(),
            old(cache).wf(),
            old(cache)@.fits(NUM_MEMORY as nat),
            old(self)@ == m.state,
            old(cache)@ == m.cache,
            old(cache).pending() == base + m.transfers,
            m.outcome == Outcome::Executed,
            m.state.pc <= NUM_MEMORY + 1,
            i_type.register_a < NUM_REGISTER,
            i_type.register_b < NUM_REGISTER,
        ensures
            final(self).wf(),
            final(cache).wf(),
            final(cache)@.fits(NUM_MEMORY as nat),
            final(self)@ == i_type_done(m, i_type).state,
            final(cache)@ == i_type_done(m, i_type).cache,
            outcome == i_type_done(m, i_type).outcome,
            final(cache).pending() == base + i_type_done(m, i_type).transfers,
    {
        let reg_a = self.reg[i_type.register_a as usize];
        let reg_b = self.reg[i_type.register_b as usize];
        match i_type.code {
            ITypeOpcode::LoadWord => match (i_type.offset as i32).checked_add(reg_a) {
                Some(address) => self.access(
                    cache,
                    address,
                    i_type.register_b as usize,
                    None,
                    Ghost(m),
                    Ghost(base),
                ),
                None => Outcome::Fault(Fault::Overflow),
            },
            ITypeOpcode::StoreWord => match reg_a.checked_add(i_type.offset as i32) {
                Some(address) => self.access(
                    cache,
                    address,
                    i_type.register_b as usize,
                    Some(reg_b),
                    Ghost(m),
                    Ghost(base),
                ),
                None => Outcome::Fault(Fault::Overflow),
            },
            ITypeOpcode::BranchEq => {
                if reg_a == reg_b {
                    let target: i32 = self.pc as i32 + i_type.offset as i32;
                    assert(target >= 0 ==> target as u32 == target) by (bit_vector);
                    assert(target < 0 ==> target as u32 == target + 0x1_0000_0000)
                        by (bit_vector);
                    self.pc = #[verifier::truncate]
                    (target as u32);
                }
                Outcome::Executed
            },
        }
    }

    /// Carries out one step: reads the word at the program counter through
    /// `cache`, moves the counter on, and does what the word stands for.
    /// Nothing is done where the counter has left memory, and a step that
    /// cannot go on is given up where it stands.
    pub fn step(&mut self, cache: &mut Cache) -> (outcome: Outcome)
        requires
            old(self).wf(),
            old(cache).wf(),
            old(cache)@.fits(NUM_MEMORY as nat),
        ensures
            final(self).wf(),
            final(cache).wf(),
            final(cache)@.fits(NUM_MEMORY as nat),
            final(self)@ == stepped(old(self)@, old(cache)@).state,
            final(cache)@ == stepped(old(self)@, old(cache)@).cache,
            outcome == stepped(old(self)@, old(cache)@).outcome,
            final(cache).pending() == old(cache).pending() + stepped(
                old(self)@,
                old(cache)@,
            ).transfers,
    {
        let ghost base = cache.pending();
        if self.pc as usize > NUM_MEMORY {
            assert(base =~= base + Seq::<Transfer>::empty());
            return Outcome::Stopped;
        }
        let address = self.pc as usize;
        match access_fault_of(cache, address) {
            Some(fault) => {
                assert(base =~= base + Seq::<Transfer>::empty());
                return Outcome::Fault(fault);
            },
            None => {},
        }
        proof {
            lemma_fits_memory_holds(cache@, NUM_MEMORY as nat, address as nat);
        }
        let word = cache.get_value(address, self.mem.as_mut_slice());
        self.pc += 1;
        let ghost m = Stepped {
            state: self@,
            cache: cache@,
            outcome: Outcome::Executed,
            transfers: old(cache)@.transfers(address as nat, Action::CacheToProcessor),
        };
        assert(stepped(old(self)@, old(cache)@) == executed(m, decode(word)));
        match parse_instruction(word) {
            OpType::O(o_type) => match o_type.code {
                OTypeOpcode::Halt => Outcome::Halted,
                OTypeOpcode::NoOp => Outcome::Skipped,
                // Left without a meaning: passed over.
                OTypeOpcode::X => Outcome::Skipped,
            },
            OpType::R(r_type) => self.execute_r(r_type, Ghost(m)),
            OpType::I(i_type) => self.execute_i(cache, i_type, Ghost(m), Ghost(base)),
        }
    }
}

} // verus!
