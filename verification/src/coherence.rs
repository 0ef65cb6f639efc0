//! Cache and memory together behave as one memory: a word that was written
//! is the word that is read, wherever it is held in between.

use vstd::prelude::*;
use crate::address::{
    lemma_block_bounds, lemma_decomposition_injective, lemma_fields_in_range,
    lemma_fields_of_block_word, lemma_recompose, Geometry,
};
use crate::model::{
    is_way_of, lemma_way_exists, lemma_way_unique, victim, written_back, Access, CacheView,
};
use crate::wellformed::{
    lemma_access_effect, lemma_fits_memory_holds, lemma_run_keeps_invariant, lemma_victim_exists,
};

verus! {

/// The addresses from the start of a block on, one block long, are the
/// addresses with the block's tag and set index; each lies at its offset.
pub proof fn lemma_block_range(g: Geometry, tag: nat, set_index: nat, x: nat)
    requires
        g.wf(),
        set_index < g.set_count,
    ensures
        (g.block_start(tag, set_index) <= x < g.block_start(tag, set_index) + g.block_size) <==> (
        g.tag(x) == tag && g.set_index(x) == set_index),
        g.tag(x) == tag && g.set_index(x) == set_index ==> x == g.block_start(tag, set_index)
            + g.block_offset(x),
{
    lemma_recompose(g, x);
    lemma_fields_in_range(g, x);
    let start = g.block_start(tag, set_index);
    if start <= x < start + g.block_size {
        lemma_fields_of_block_word(g, tag, set_index, (x - start) as nat);
    }
}

impl CacheView {
    /// Whether the copy of the word at `address`, where the cache holds one
    /// that was not written to, is the word in memory.
    pub open spec fn agrees(self, memory: Seq<i32>, address: nat) -> bool {
        self.resident(address) && !self.set_for(address)[self.way(address)].dirty ==> self.word(
            memory,
            address,
        ) == memory[address as int]
    }
}

/// What an access does to memory: on a hit nothing; on a miss that puts out
/// a block that is valid and was written to, the block's words go to where
/// the block came from and no other word changes; on any other miss nothing.
pub proof fn lemma_memory_after(c: CacheView, memory: Seq<i32>, address: nat)
    requires
        c.wf(),
        c.memory_holds(memory.len(), address),
    ensures
        c.memory_after(memory, address).len() == memory.len(),
        c.resident(address) ==> c.memory_after(memory, address) == memory,
        !c.resident(address) && !(c.displaced(address).valid && c.displaced(address).dirty)
            ==> c.memory_after(memory, address) == memory,
        !c.resident(address) && c.displaced(address).valid && c.displaced(address).dirty ==> {
            let old = c.displaced(address);
            &&& old.starting_address + c.geometry.block_size <= memory.len()
            &&& c.memory_after(memory, address).subrange(
                old.starting_address as int,
                (old.starting_address + c.geometry.block_size) as int,
            ) == old.data
            &&& forall|x: int|
                0 <= x < memory.len() && !(old.starting_address <= x < old.starting_address
                    + c.geometry.block_size) ==> #[trigger] c.memory_after(memory, address)[x]
                    == memory[x]
        },
{
    let s = c.geometry.set_index(address) as int;
    lemma_fields_in_range(c.geometry, address);
    lemma_victim_exists(c.sets[s]);
    let v = victim(c.sets[s]);
    assert(c.block_wf(s, v));
    let old = c.displaced(address);
    if !c.resident(address) && old.valid && old.dirty {
        let m = c.memory_after(memory, address);
        assert(m == written_back(memory, old.starting_address, old.data));
        assert(m.subrange(
            old.starting_address as int,
            (old.starting_address + c.geometry.block_size) as int,
        ) =~= old.data);
    }
}

/// Where the block of `x` is after an access: the block accessed is
/// resident in the block touched; a block that was put out is gone; every
/// other block is where it was, or as absent as it was.
pub proof fn lemma_residency_after(c: CacheView, memory: Seq<i32>, access: Access, x: nat)
    requires
        c.wf(),
        c.geometry.block_high(access.address()) < memory.len(),
    ensures
        ({
            let a = access.address();
            let g = c.geometry;
            let d = c.after(memory, access);
            let same_block = g.set_index(x) == g.set_index(a) && g.tag(x) == g.tag(a);
            let put_out = g.set_index(x) == g.set_index(a) && c.resident(x) && c.way(x) == c.target(
                a,
            );
            &&& same_block ==> d.resident(x) && d.way(x) == c.target(a)
            &&& !same_block ==> (d.resident(x) <==> c.resident(x) && !put_out)
            &&& !same_block && d.resident(x) ==> d.way(x) == c.way(x)
            &&& c.resident(x) ==> is_way_of(c.set_for(x), g.tag(x), c.way(x))
        }),
{
    let a = access.address();
    let g = c.geometry;
    let d = c.after(memory, access);
    let s = g.set_index(a) as int;
    let r = g.set_index(x) as int;
    let t = c.target(a);
    let tx = g.tag(x);
    lemma_access_effect(c, memory, access);
    lemma_fields_in_range(g, a);
    lemma_fields_in_range(g, x);
    if c.resident(x) {
        lemma_way_exists(c.sets[r], tx);
    }
    if r == s && tx == g.tag(a) {
    } else if r != s {
        assert(d.sets[r] == c.sets[r]);
    } else {
        let before = c.sets[s];
        let after = d.sets[s];
        assert(c.set_distinct(s));
        if c.resident(x) {
            let w = c.way(x);
            if w == t {
                assert forall|j: int| 0 <= j < after.len() implies !((#[trigger] after[j]).valid
                    && after[j].tag == tx) by {
                    if j != t {
                        assert(before[j].valid ==> before[j].tag != tx);
                    }
                }
            } else {
                assert(is_way_of(after, tx, w)) by {
                    assert forall|j: int| 0 <= j < w implies !((#[trigger] after[j]).valid
                        && after[j].tag == tx) by {
                        if j != t {
                            assert(!(before[j].valid && before[j].tag == tx));
                        }
                    }
                }
                lemma_way_unique(after, tx, w);
            }
        } else {
            assert forall|j: int| 0 <= j < after.len() implies !((#[trigger] after[j]).valid
                && after[j].tag == tx) by {
                if j != t {
                    assert(!(before[j].valid && before[j].tag == tx));
                }
            }
        }
    }
}

/// An access that does not write to `x` leaves the word at `x` as a reader
/// sees it, through whatever fills and write-backs the access takes.
pub proof fn lemma_access_keeps_word(c: CacheView, memory: Seq<i32>, access: Access, x: nat)
    requires
        c.wf(),
        c.fits(memory.len()),
        c.geometry.block_high(access.address()) < memory.len(),
        x < memory.len(),
        c.agrees(memory, x),
        !access.writes(x),
    ensures
        c.after(memory, access).word(c.memory_after(memory, access.address()), x) == c.word(
            memory,
            x,
        ),
        c.after(memory, access).agrees(c.memory_after(memory, access.address()), x),
{
    let a = access.address();
    let g = c.geometry;
    let d = c.after(memory, access);
    let m = c.memory_after(memory, a);
    let s = g.set_index(a) as int;
    let r = g.set_index(x) as int;
    let t = c.target(a);
    let tx = g.tag(x);
    let off = g.block_offset(x) as int;
    lemma_access_effect(c, memory, access);
    lemma_residency_after(c, memory, access, x);
    lemma_fits_memory_holds(c, memory.len(), a);
    lemma_memory_after(c, memory, a);
    lemma_fields_in_range(g, a);
    lemma_fields_in_range(g, x);
    lemma_recompose(g, a);
    lemma_recompose(g, x);
    let old = c.displaced(a);
    // Memory changes at `x` only where the block of `x` itself is written back.
    if !c.resident(a) && old.valid && old.dirty {
        assert(c.block_wf(s, t));
        lemma_block_range(g, old.tag, s as nat, x);
        if r == s && tx == old.tag {
            assert(is_way_of(c.sets[s], tx, t)) by {
                assert(c.set_distinct(s));
                assert forall|j: int| 0 <= j < t implies !((#[trigger] c.sets[s][j]).valid
                    && c.sets[s][j].tag == tx) by {}
            }
            lemma_way_unique(c.sets[s], tx, t);
            assert(m[x as int] == old.data[off]);
        } else {
            assert(m[x as int] == memory[x as int]);
        }
    }
    if r == s && tx == g.tag(a) {
        if access is Write {
            if g.block_offset(a) == g.block_offset(x) {
                lemma_decomposition_injective(g, a, x);
            }
        }
        if !c.resident(a) {
            assert(c.fetched(memory, a).data[off] == memory[x as int]);
            if old.valid && old.dirty {
                assert(c.sets[s][t].valid);
                assert(!(c.sets[s][t].valid && c.sets[s][t].tag == tx));
            }
        }
    } else if r == s {
        if c.resident(x) && c.way(x) != t {
            assert(d.sets[s][c.way(x)].data == c.sets[s][c.way(x)].data);
        }
    } else {
        assert(d.sets[r] == c.sets[r]);
    }
}

/// After `value` was written to `address`, a reader sees `value` there.
pub proof fn lemma_write_sets_word(c: CacheView, memory: Seq<i32>, address: nat, value: i32)
    requires
        c.wf(),
        c.resident(address) || c.geometry.block_high(address) < memory.len(),
    ensures
        c.after_write(memory, address, value).word(c.memory_after(memory, address), address)
            == value,
        c.after_write(memory, address, value).agrees(c.memory_after(memory, address), address),
{
    let access = Access::Write(address, value);
    lemma_access_effect(c, memory, access);
    lemma_fields_in_range(c.geometry, address);
}

/// A read leaves every word as a reader sees it, the one read too.
pub proof fn lemma_read_keeps_word(c: CacheView, memory: Seq<i32>, address: nat, x: nat)
    requires
        c.wf(),
        c.fits(memory.len()),
        c.geometry.block_high(address) < memory.len(),
        x < memory.len(),
        c.agrees(memory, x),
    ensures
        c.after_read(memory, address).word(c.memory_after(memory, address), x) == c.word(
            memory,
            x,
        ),
        c.after_read(memory, address).agrees(c.memory_after(memory, address), x),
{
    lemma_access_keeps_word(c, memory, Access::Read(address), x);
}

/// Accesses that do not write to `x` leave the word at `x` as a reader sees
/// it.
pub proof fn lemma_run_keeps_word(c: CacheView, memory: Seq<i32>, accesses: Seq<Access>, x: nat)
    requires
        c.wf(),
        c.fits(memory.len()),
        c.admits(memory.len(), accesses),
        x < memory.len(),
        c.agrees(memory, x),
        forall|i: int| 0 <= i < accesses.len() ==> !(#[trigger] accesses[i]).writes(x),
    ensures
        c.run(memory, accesses).0.word(c.run(memory, accesses).1, x) == c.word(memory, x),
        c.run(memory, accesses).0.agrees(c.run(memory, accesses).1, x),
    decreases accesses.len(),
{
    if accesses.len() > 0 {
        let earlier = accesses.drop_last();
        assert forall|i: int| 0 <= i < earlier.len() implies c.geometry.block_high(
            (#[trigger] earlier[i]).address(),
        ) < memory.len() && !earlier[i].writes(x) by {
            assert(earlier[i] == accesses[i]);
        }
        lemma_run_keeps_invariant(c, memory, earlier);
        lemma_run_keeps_word(c, memory, earlier, x);
        let (d, m) = c.run(memory, earlier);
        lemma_access_keeps_word(d, m, accesses.last(), x);
    }
}

/// A value written to an address is the value read from it afterwards,
/// whatever accesses that do not write to the address lie in between: the
/// address's block may be put out and brought in again on the way.
pub proof fn lemma_round_trip(
    c: CacheView,
    memory: Seq<i32>,
    address: nat,
    value: i32,
    between: Seq<Access>,
)
    requires
        c.wf(),
        c.fits(memory.len()),
        c.geometry.block_high(address) < memory.len(),
        c.admits(memory.len(), between),
        forall|i: int| 0 <= i < between.len() ==> !(#[trigger] between[i]).writes(address),
    ensures
        ({
            let written = c.after_write(memory, address, value);
            let (cache, words) = written.run(c.memory_after(memory, address), between);
            cache.word(words, address) == value
        }),
{
    let written = c.after_write(memory, address, value);
    let m = c.memory_after(memory, address);
    lemma_access_effect(c, memory, Access::Write(address, value));
    lemma_fits_memory_holds(c, memory.len(), address);
    lemma_memory_after(c, memory, address);
    lemma_write_sets_word(c, memory, address, value);
    lemma_block_bounds(c.geometry, address);
    lemma_run_keeps_word(written, m, between, address);
}

/// A value written to an address is in memory at that address once the
/// address's block has been put out of the cache, whatever accesses that do
/// not write to the address were made since.
pub proof fn lemma_written_word_reaches_memory(
    c: CacheView,
    memory: Seq<i32>,
    address: nat,
    value: i32,
    between: Seq<Access>,
)
    requires
        c.wf(),
        c.fits(memory.len()),
        c.geometry.block_high(address) < memory.len(),
        c.admits(memory.len(), between),
        forall|i: int| 0 <= i < between.len() ==> !(#[trigger] between[i]).writes(address),
        !c.after_write(memory, address, value).run(
            c.memory_after(memory, address),
            between,
        ).0.resident(address),
    ensures
        c.after_write(memory, address, value).run(c.memory_after(memory, address), between).1[address as int]
            == value,
{
    lemma_round_trip(c, memory, address, value, between);
}

/// Memory after `access`, were there no cache.
pub open spec fn plain_after(memory: Seq<i32>, access: Access) -> Seq<i32> {
    match access {
        Access::Read(_) => memory,
        Access::Write(a, v) => memory.update(a as int, v),
    }
}

/// Memory after `accesses`, made in order, were there no cache.
pub open spec fn plain_run(memory: Seq<i32>, accesses: Seq<Access>) -> Seq<i32>
    decreases accesses.len(),
{
    if accesses.len() == 0 {
        memory
    } else {
        plain_after(plain_run(memory, accesses.drop_last()), accesses.last())
    }
}

impl CacheView {
    /// Memory as a reader sees it through the cache, word by word.
    pub open spec fn seen(self, memory: Seq<i32>) -> Seq<i32> {
        Seq::new(memory.len(), |x: int| self.word(memory, x as nat))
    }

    /// Whether every copy of a word that the cache holds and that was not
    /// written to is the word in memory.
    pub open spec fn coherent(self, memory: Seq<i32>) -> bool {
        forall|x: nat| x < memory.len() ==> #[trigger] self.agrees(memory, x)
    }
}

/// The cache does not show in what is read: to a reader, an access changes
/// memory as it would change a memory without a cache.
pub proof fn lemma_access_is_transparent(c: CacheView, memory: Seq<i32>, access: Access)
    requires
        c.wf(),
        c.fits(memory.len()),
        c.geometry.block_high(access.address()) < memory.len(),
        c.coherent(memory),
    ensures
        c.after(memory, access).coherent(c.memory_after(memory, access.address())),
        c.after(memory, access).seen(c.memory_after(memory, access.address())) == plain_after(
            c.seen(memory),
            access,
        ),
{
    let d = c.after(memory, access);
    let m = c.memory_after(memory, access.address());
    lemma_fits_memory_holds(c, memory.len(), access.address());
    lemma_memory_after(c, memory, access.address());
    lemma_block_bounds(c.geometry, access.address());
    let plain = plain_after(c.seen(memory), access);
    assert forall|x: nat| x < memory.len() implies #[trigger] d.agrees(m, x) && d.word(m, x)
        == plain[x as int] by {
        assert(c.agrees(memory, x));
        if access.writes(x) {
            lemma_write_sets_word(c, memory, x, access.stored().unwrap());
        } else {
            lemma_access_keeps_word(c, memory, access, x);
        }
    }
    assert forall|i: int| 0 <= i < memory.len() implies #[trigger] d.seen(m)[i] == plain[i] by {
        assert(d.agrees(m, i as nat));
    }
    assert(d.seen(m) =~= plain);
}

/// A cache and its memory read as one plain memory: after any accesses,
/// every word is to a reader what it would be had the accesses been made to
/// a memory without a cache.
pub proof fn lemma_run_is_transparent(c: CacheView, memory: Seq<i32>, accesses: Seq<Access>)
    requires
        c.wf(),
        c.fits(memory.len()),
        c.admits(memory.len(), accesses),
        c.coherent(memory),
    ensures
        c.run(memory, accesses).0.coherent(c.run(memory, accesses).1),
        c.run(memory, accesses).0.seen(c.run(memory, accesses).1) == plain_run(
            c.seen(memory),
            accesses,
        ),
    decreases accesses.len(),
{
    if accesses.len() > 0 {
        let earlier = accesses.drop_last();
        assert forall|i: int| 0 <= i < earlier.len() implies c.geometry.block_high(
            (#[trigger] earlier[i]).address(),
        ) < memory.len() by {
            assert(earlier[i] == accesses[i]);
        }
        lemma_run_keeps_invariant(c, memory, earlier);
        lemma_run_is_transparent(c, memory, earlier);
        let (d, m) = c.run(memory, earlier);
        lemma_access_is_transparent(d, m, accesses.last());
    }
}

} // verus!
