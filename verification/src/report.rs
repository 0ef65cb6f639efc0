//! What the reports of transfers, of the machine and of the cache say.

use vstd::prelude::*;
use vstd::arithmetic::power2::{lemma_pow2_strictly_increases, pow2};
use crate::cache::Action;
use crate::machine::StateView;
use crate::model::{BlockView, CacheView};
use crate::text::{decimal, signed_decimal};

verus! {

/// The words that name the direction `action`.
pub open spec fn direction(action: Action) -> Seq<char> {
    match action {
        Action::CacheToProcessor => "from the cache to the processor"@,
        Action::ProcessorToCache => "from the processor to the cache"@,
        Action::MemoryToCache => "from the memory to the cache"@,
        Action::CacheToMemory => "from the cache to the memory"@,
        Action::CacheToNowhere => "from the cache to nowhere"@,
    }
}

/// The line that reports a transfer of `size` words from `address` on.
pub open spec fn action_line(address: nat, size: nat, action: Action) -> Seq<char> {
    "@@@ transferring word ["@ + decimal(address) + "-"@ + decimal((address + size - 1) as nat)
        + "] "@ + direction(action) + "\n"@
}

/// The lines that report the first `count` words of `mem`.
pub open spec fn memory_lines(mem: Seq<i32>, count: nat) -> Seq<char>
    decreases count,
{
    if count == 0 {
        Seq::empty()
    } else {
        memory_lines(mem, (count - 1) as nat) + "\t\tmem[ "@ + decimal((count - 1) as nat) + " ] "@
            + signed_decimal(mem[count - 1] as int) + "\n"@
    }
}

/// The lines that report the first `count` registers of `reg`.
pub open spec fn register_lines(reg: Seq<i32>, count: nat) -> Seq<char>
    decreases count,
{
    if count == 0 {
        Seq::empty()
    } else {
        register_lines(reg, (count - 1) as nat) + "\t\treg[ "@ + decimal((count - 1) as nat)
            + " ] "@ + signed_decimal(reg[count - 1] as int) + "\n"@
    }
}

/// The report of a machine's state: the program counter, the words that
/// the program takes up, and the registers.
pub open spec fn state_report(state: StateView) -> Seq<char> {
    "\n@@@\nstate:\n\tpc "@ + decimal(state.pc) + "\n\tmemory:\n"@ + memory_lines(
        state.mem,
        state.num_memory,
    ) + "\tregisters:\n"@ + register_lines(state.reg, state.reg.len()) + "end state\n"@
}

/// The exponent of the power of two `n`.
pub open spec fn exponent_of(n: nat) -> nat {
    choose|e: nat| pow2(e) == n
}

/// A power of two has one exponent.
pub proof fn lemma_exponent_of_pow2(e: nat)
    ensures
        exponent_of(pow2(e)) == e,
{
    let f = exponent_of(pow2(e));
    assert(pow2(f) == pow2(e));
    if f < e {
        lemma_pow2_strictly_increases(f, e);
    } else if e < f {
        lemma_pow2_strictly_increases(e, f);
    }
}

/// The line that reports word `index` of a block.
pub open spec fn row_line(index: nat, word: i32) -> Seq<char> {
    "\t\t\tRow #"@ + decimal(index) + "'s Data: "@ + signed_decimal(word as int) + "\n"@
}

/// The lines that report the first `count` words of a block.
pub open spec fn row_lines(data: Seq<i32>, count: nat) -> Seq<char>
    decreases count,
{
    if count == 0 {
        Seq::empty()
    } else {
        row_lines(data, (count - 1) as nat) + row_line((count - 1) as nat, data[count - 1])
    }
}

/// The letter for a block's validity: V for valid, N for not.
pub open spec fn valid_letter(block: BlockView) -> Seq<char> {
    if block.valid {
        "V"@
    } else {
        "N"@
    }
}

/// The letter for a block's state: D for dirty, C for clean.
pub open spec fn dirty_letter(block: BlockView) -> Seq<char> {
    if block.dirty {
        "D"@
    } else {
        "C"@
    }
}

/// The line that heads the report of block `index` of a set.
pub open spec fn block_head(index: nat, block: BlockView) -> Seq<char> {
    "\t\tBlock #"@ + decimal(index) + " -- "@ + valid_letter(block) + " "@ + dirty_letter(block)
        + "\n"@
}

/// The lines that report the first `count` blocks of a set, each with its
/// words.
pub open spec fn block_lines(set: Seq<BlockView>, count: nat) -> Seq<char>
    decreases count,
{
    if count == 0 {
        Seq::empty()
    } else {
        let block = set[count - 1];
        block_lines(set, (count - 1) as nat) + block_head((count - 1) as nat, block) + row_lines(
            block.data,
            block.data.len(),
        )
    }
}

/// The lines that report the first `count` sets, each with its blocks.
pub open spec fn set_lines(sets: Seq<Seq<BlockView>>, count: nat) -> Seq<char>
    decreases count,
{
    if count == 0 {
        Seq::empty()
    } else {
        set_lines(sets, (count - 1) as nat) + "\tSet #"@ + decimal((count - 1) as nat) + "\n"@
            + block_lines(sets[count - 1], sets[count - 1].len())
    }
}

/// The report of a cache: its sizes and the bits that they take up of an
/// address, then every set, block and word.
pub open spec fn cache_report(cache: CacheView) -> Seq<char> {
    "--- --- --- Cache --- --- ---\nblock_size:       "@ + decimal(cache.geometry.block_size)
        + "\nset_bit_count:    "@ + decimal(exponent_of(cache.geometry.set_count))
        + "\noffset_bit_count: "@ + decimal(exponent_of(cache.geometry.block_size))
        + "\nset_count:        "@ + decimal(cache.sets.len())
        + "\n--- --- --- Sets  --- --- ---\n"@ + set_lines(cache.sets, cache.sets.len())
}

} // verus!
