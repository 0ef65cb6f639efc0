//! Powers of two and bit counts, and the reports of transfers and of the
//! machine's state.

use vstd::prelude::*;
use vstd::string::StringExecFns;
use crate::cache::Action;
use crate::machine::{State, NUM_REGISTER};
use crate::report::{action_line, memory_lines, register_lines, state_report};
use crate::text::{append_decimal, append_signed};
use vstd::arithmetic::power::pow;
use vstd::arithmetic::power2::{
    is_pow2, is_pow2_equiv, lemma2_to64, lemma2_to64_rest, lemma_pow2, lemma_pow2_pos,
    lemma_pow2_strictly_increases, lemma_pow2_unfold, pow2,
};

verus! {

/// The bit trick peels off one binary digit at a time, as the recursive
/// definition of a power of two does.
proof fn lemma_single_bit_halves(n: usize)
    by (bit_vector)
    requires
        n >= 2,
    ensures
        (n & ((n - 1) as usize)) == 0 <==> (n % 2 == 0 && ((n / 2) & ((n / 2 - 1) as usize)) == 0),
{
}

/// A non-zero word with a single bit set is a power of two, and conversely.
pub proof fn lemma_single_bit_is_pow2(n: usize)
    ensures
        (n != 0 && (n & ((n - 1) as usize)) == 0) <==> is_pow2(n as int),
    decreases n,
{
    reveal(is_pow2);
    if n == 0 {
    } else if n == 1 {
        assert(1usize & 0usize == 0) by (bit_vector);
    } else {
        lemma_single_bit_halves(n);
        lemma_single_bit_is_pow2(n / 2);
    }
}

/// Whether `n` is a power of two.
pub fn is_power_of_two(n: usize) -> (r: bool)
    ensures
        r == is_pow2(n as int),
{
    proof {
        lemma_single_bit_is_pow2(n);
    }
    n != 0 && (n & (n - 1)) == 0
}

/// Halving a quotient by a power of two gives the quotient by the next power.
proof fn lemma_halve_quotient(x: nat, k: nat)
    ensures
        pow2(k) > 0,
        pow2(k + 1) == 2 * pow2(k),
        (x / pow2(k)) / 2 == x / pow2(k + 1),
{
    lemma_pow2_pos(k);
    lemma_pow2_unfold(k + 1);
    let d = pow2(k) as int;
    assert((x as int / d) / 2 == x as int / (d * 2)) by (nonlinear_arith)
        requires
            d > 0,
            x >= 0,
    ;
}

/// The least number of bits whose patterns can tell `num` options apart:
/// the least `r` with `num <= pow2(r)`, which is none for a single option.
/// Where there is no option at all, the answer is one bit.
pub fn min_bits_required(num: usize) -> (r: usize)
    ensures
        r <= usize::BITS,
        num == 0 ==> r == 1,
        num == 1 ==> r == 0,
        num >= 1 ==> num <= pow2(r as nat),
        num >= 1 && r > 0 ==> pow2((r - 1) as nat) < num,
{
    if num == 0 {
        return 1;
    }
    let ghost top: nat = (num - 1) as nat;
    // One less than the number of options is the greatest pattern needed.
    let mut rest: usize = num - 1;
    let mut count: usize = 0;
    proof {
        lemma2_to64();
    }
    while rest != 0
        invariant
            top == num - 1,
            count <= usize::BITS,
            rest == top / pow2(count as nat),
            count > 0 ==> pow2((count - 1) as nat) <= top,
        decreases rest,
    {
        proof {
            let d = pow2(count as nat) as int;
            lemma_halve_quotient(top, count as nat);
            assert(d <= top) by (nonlinear_arith)
                requires
                    d > 0,
                    top as int / d >= 1,
            ;
            if count >= usize::BITS {
                lemma_usize_max_below_pow2(count as nat);
            }
            assert(rest >> 1 == rest / 2) by (bit_vector);
        }
        rest = rest >> 1;
        count += 1;
    }
    proof {
        let d = pow2(count as nat) as int;
        lemma_pow2_pos(count as nat);
        if count > 0 {
            lemma_pow2_pos((count - 1) as nat);
        }
        assert(top < d) by (nonlinear_arith)
            requires
                d > 0,
                top as int / d == 0,
                top >= 0,
        ;
    }
    count
}

/// Every machine word lies below each power of two from the word's width on.
pub proof fn lemma_usize_max_below_pow2(k: nat)
    requires
        k >= usize::BITS,
    ensures
        usize::MAX < pow2(k),
{
    lemma2_to64();
    lemma2_to64_rest();
    if k > 64 {
        lemma_pow2_strictly_increases(64, k);
    }
    if usize::BITS == 32 && k > 32 {
        lemma_pow2_strictly_increases(32, k);
    }
}

/// The line that reports a transfer of `size` words from `address` on in
/// the direction `action`, with its line end.
pub fn print_action(address: usize, size: usize, action: Action) -> (line: String)
    requires
        1 <= address + size <= usize::MAX,
    ensures
        line@ == action_line(address as nat, size as nat, action),
{
    let mut line = String::from_str("@@@ transferring word [");
    append_decimal(&mut line, address);
    line.append("-");
    append_decimal(&mut line, address + size - 1);
    line.append("] ");
    match action {
        Action::CacheToProcessor => line.append("from the cache to the processor"),
        Action::ProcessorToCache => line.append("from the processor to the cache"),
        Action::MemoryToCache => line.append("from the memory to the cache"),
        Action::CacheToMemory => line.append("from the cache to the memory"),
        Action::CacheToNowhere => line.append("from the cache to nowhere"),
    }
    line.append("\n");
    line
}

/// The report of the machine's state, line by line.
pub fn print_state(state: &State) -> (report: String)
    requires
        state.wf(),
    ensures
        report@ == state_report(state@),
{
    let mut report = String::from_str("\n@@@\nstate:\n\tpc ");
    append_decimal(&mut report, state.pc() as usize);
    report.append("\n\tmemory:\n");
    let ghost head = report@;
    let count = state.num_memory() as usize;
    let mut idx: usize = 0;
    while idx < count
        invariant
            state.wf(),
            count == state@.num_memory,
            idx <= count,
            report@ == head + memory_lines(state@.mem, idx as nat),
        decreases count - idx,
    {
        report.append("\t\tmem[ ");
        append_decimal(&mut report, idx);
        report.append(" ] ");
        append_signed(&mut report, state.word(idx));
        report.append("\n");
        idx += 1;
        assert(report@ =~= head + memory_lines(state@.mem, idx as nat));
    }
    report.append("\tregisters:\n");
    let ghost head = report@;
    let mut idx: usize = 0;
    while idx < NUM_REGISTER
        invariant
            state.wf(),
            idx <= NUM_REGISTER,
            report@ == head + register_lines(state@.reg, idx as nat),
        decreases NUM_REGISTER - idx,
    {
        report.append("\t\treg[ ");
        append_decimal(&mut report, idx);
        report.append(" ] ");
        append_signed(&mut report, state.register(idx));
        report.append("\n");
        idx += 1;
        assert(report@ =~= head + register_lines(state@.reg, idx as nat));
    }
    report.append("end state\n");
    assert(report@ =~= state_report(state@));
    report
}

/// A power of two that takes `r` bits and no fewer to tell its options
/// apart is the `r`-th power of two.
pub proof fn lemma_bits_of_pow2(n: nat, r: nat)
    requires
        is_pow2(n as int),
        n <= pow2(r),
        r > 0 ==> pow2((r - 1) as nat) < n,
    ensures
        n == pow2(r),
{
    is_pow2_equiv(n as int);
    let k = choose|k: nat| pow(2, k) == n as int;
    lemma_pow2(k);
    if k < r {
        if k < r - 1 {
            lemma_pow2_strictly_increases(k, (r - 1) as nat);
        }
    } else if k > r {
        lemma_pow2_strictly_increases(r, k);
    }
}

} // verus!
