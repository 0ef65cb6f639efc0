//! How a word address splits into a tag, a set index and an offset within
//! its block, and which aligned range of addresses its block covers.

use vstd::prelude::*;
use vstd::arithmetic::div_mod::{
    lemma_div_denominator, lemma_fundamental_div_mod, lemma_fundamental_div_mod_converse,
};

verus! {

/// The shape of a cache as far as addresses are concerned: the number of
/// words in a block and the number of sets.
pub struct Geometry {
    pub block_size: nat,
    pub set_count: nat,
}

impl Geometry {
    /// Both counts are positive.
    pub open spec fn wf(self) -> bool {
        self.block_size > 0 && self.set_count > 0
    }

    /// The position of `address` within its block: its lowest digits in
    /// base `block_size`.
    pub open spec fn block_offset(self, address: nat) -> nat {
        address % self.block_size
    }

    /// The set that `address` belongs to: the digits above the offset.
    pub open spec fn set_index(self, address: nat) -> nat {
        (address / self.block_size) % self.set_count
    }

    /// What tells the blocks of one set apart: everything above the set index.
    pub open spec fn tag(self, address: nat) -> nat {
        address / (self.block_size * self.set_count)
    }

    /// The first address of the block that holds `address`.
    pub open spec fn block_low(self, address: nat) -> nat {
        (address / self.block_size) * self.block_size
    }

    /// The last address of the block that holds `address`.
    pub open spec fn block_high(self, address: nat) -> nat {
        (self.block_low(address) + self.block_size - 1) as nat
    }

    /// The first address of the block with the given tag in the given set.
    pub open spec fn block_start(self, tag: nat, set_index: nat) -> nat {
        (tag * self.set_count + set_index) * self.block_size
    }
}

/// An address is its tag, set index and offset written one after the other.
pub proof fn lemma_recompose(g: Geometry, address: nat)
    requires
        g.wf(),
    ensures
        address == g.block_start(g.tag(address), g.set_index(address)) + g.block_offset(address),
        g.block_low(address) == g.block_start(g.tag(address), g.set_index(address)),
{
    let b = g.block_size as int;
    let s = g.set_count as int;
    let q = address as int / b;
    lemma_fundamental_div_mod(address as int, b);
    lemma_fundamental_div_mod(q, s);
    lemma_div_denominator(address as int, b, s);
    assert(q >= 0) by (nonlinear_arith)
        requires
            q == address as int / b,
            b > 0,
            address >= 0,
    ;
    assert(s * (q / s) == (q / s) * s) by (nonlinear_arith);
    assert(b * q == q * b) by (nonlinear_arith);
}

/// The offset lies within the block and the set index within the sets.
pub proof fn lemma_fields_in_range(g: Geometry, address: nat)
    requires
        g.wf(),
    ensures
        g.block_offset(address) < g.block_size,
        g.set_index(address) < g.set_count,
{
}

/// Two addresses with the same tag, set index and offset are one address.
pub proof fn lemma_decomposition_injective(g: Geometry, a: nat, b: nat)
    requires
        g.wf(),
        g.tag(a) == g.tag(b),
        g.set_index(a) == g.set_index(b),
        g.block_offset(a) == g.block_offset(b),
    ensures
        a == b,
{
    lemma_recompose(g, a);
    lemma_recompose(g, b);
}

/// A block's range holds the address it was computed from, spans exactly
/// one block, and starts where the address's offset is taken away.
pub proof fn lemma_block_bounds(g: Geometry, address: nat)
    requires
        g.wf(),
    ensures
        g.block_low(address) <= address <= g.block_high(address),
        g.block_high(address) - g.block_low(address) + 1 == g.block_size,
        g.block_low(address) + g.block_offset(address) == address,
{
    lemma_recompose(g, address);
    lemma_fields_in_range(g, address);
}

/// Reading the fields back from the `k`-th word of the block with tag `tag`
/// in set `set_index` gives `tag`, `set_index` and `k`.
pub proof fn lemma_fields_of_block_word(g: Geometry, tag: nat, set_index: nat, k: nat)
    requires
        g.wf(),
        set_index < g.set_count,
        k < g.block_size,
    ensures
        g.tag(g.block_start(tag, set_index) + k) == tag,
        g.set_index(g.block_start(tag, set_index) + k) == set_index,
        g.block_offset(g.block_start(tag, set_index) + k) == k,
        g.block_low(g.block_start(tag, set_index) + k) == g.block_start(tag, set_index),
{
    let b = g.block_size as int;
    let s = g.set_count as int;
    let q = tag * s + set_index;
    let x = q * b + k;
    lemma_fundamental_div_mod_converse(x, b, q, k as int);
    lemma_fundamental_div_mod_converse(q, s, tag as int, set_index as int);
    lemma_div_denominator(x, b, s);
}

/// Two addresses lie in the same block exactly if they agree in tag and
/// set index.
pub proof fn lemma_same_block(g: Geometry, a: nat, b: nat)
    requires
        g.wf(),
    ensures
        g.block_low(a) == g.block_low(b) <==> (g.tag(a) == g.tag(b) && g.set_index(a)
            == g.set_index(b)),
{
    lemma_recompose(g, a);
    lemma_recompose(g, b);
    if g.block_low(a) == g.block_low(b) {
        lemma_fields_in_range(g, a);
        lemma_fields_in_range(g, b);
        lemma_fields_of_block_word(g, g.tag(a), g.set_index(a), 0);
        lemma_fields_of_block_word(g, g.tag(b), g.set_index(b), 0);
    }
}

} // verus!
