//! Which block makes room: never one while the set has a block to spare,
//! and otherwise the one whose last use lies furthest back.

use vstd::prelude::*;
use crate::address::{lemma_fields_in_range, Geometry};
use crate::model::{is_victim, lemma_victim_unique, victim, Access, CacheView};
use crate::coherence::lemma_memory_after;
use crate::wellformed::{
    lemma_access_effect, lemma_block_starts_at_bound, lemma_fits_memory_holds,
    lemma_run_keeps_invariant, lemma_victim_exists,
};

verus! {

/// The position in `accesses` of the last access to the block with `tag`
/// in set `set_index`; -1 where there is none.
pub open spec fn last_use(g: Geometry, accesses: Seq<Access>, set_index: nat, tag: nat) -> int
    decreases accesses.len(),
{
    if accesses.len() == 0 {
        -1
    } else if g.set_index(accesses.last().address()) == set_index && g.tag(
        accesses.last().address(),
    ) == tag {
        accesses.len() - 1
    } else {
        last_use(g, accesses.drop_last(), set_index, tag)
    }
}

impl CacheView {
    /// No block is valid.
    pub open spec fn cold(self) -> bool {
        forall|s: int, w: int|
            0 <= s < self.sets.len() && 0 <= w < self.sets[s].len() ==> !(
            #[trigger] self.sets[s][w]).valid
    }

    /// Every valid block was used in `accesses`, and of two valid blocks of
    /// one set the one used later has the lower recency.
    pub open spec fn ordered_by(self, accesses: Seq<Access>) -> bool {
        let g = self.geometry;
        &&& forall|s: int, w: int|
            0 <= s < self.sets.len() && 0 <= w < self.sets[s].len() && (
            #[trigger] self.sets[s][w]).valid ==> 0 <= last_use(
                g,
                accesses,
                s as nat,
                self.sets[s][w].tag,
            )
        &&& forall|s: int, v: int, w: int|
            0 <= s < self.sets.len() && 0 <= v < self.sets[s].len() && 0 <= w
                < self.sets[s].len() && (#[trigger] self.sets[s][v]).valid && (
            #[trigger] self.sets[s][w]).valid ==> (self.sets[s][v].recency
                < self.sets[s][w].recency <==> last_use(g, accesses, s as nat, self.sets[s][v].tag)
                > last_use(g, accesses, s as nat, self.sets[s][w].tag))
    }
}

/// A last use lies within the accesses.
pub proof fn lemma_last_use_bound(g: Geometry, accesses: Seq<Access>, set_index: nat, tag: nat)
    ensures
        -1 <= last_use(g, accesses, set_index, tag) < accesses.len(),
    decreases accesses.len(),
{
    if accesses.len() > 0 {
        lemma_last_use_bound(g, accesses.drop_last(), set_index, tag);
    }
}

/// An access puts a valid block out only where every block of the set is
/// valid; the block put out then has a greater recency than every other.
pub proof fn lemma_put_out_from_full_set(c: CacheView, address: nat, w: int)
    requires
        c.wf(),
        !c.resident(address),
        c.displaced(address).valid,
        0 <= w < c.ways,
    ensures
        c.set_for(address)[w].valid,
        c.set_for(address)[w].tag != c.geometry.tag(address),
        w != victim(c.set_for(address)) ==> c.set_for(address)[w].recency < c.displaced(
            address,
        ).recency,
{
    let s = c.geometry.set_index(address) as int;
    lemma_fields_in_range(c.geometry, address);
    lemma_victim_exists(c.sets[s]);
    let v = victim(c.sets[s]);
    assert(c.set_distinct(s));
    assert(c.sets[s][w].valid);
    assert(c.sets[s][v].valid);
}

/// While a set has a block that is not valid, an access to the set puts no
/// valid block out.
pub proof fn lemma_spare_block_is_filled_first(c: CacheView, address: nat, w: int)
    requires
        c.wf(),
        !c.resident(address),
        0 <= w < c.ways,
        !c.set_for(address)[w].valid,
    ensures
        !c.displaced(address).valid,
        victim(c.set_for(address)) <= w,
{
    let s = c.geometry.set_index(address) as int;
    lemma_fields_in_range(c.geometry, address);
    lemma_victim_exists(c.sets[s]);
    let v = victim(c.sets[s]);
    if c.sets[s][v].valid {
        assert(c.sets[s][w].valid);
    }
    if w < v {
        assert(c.sets[s][w].valid);
    }
}

/// One more access keeps recency in step with the order of use.
proof fn lemma_access_keeps_order(
    c: CacheView,
    memory: Seq<i32>,
    accesses: Seq<Access>,
)
    requires
        accesses.len() > 0,
        c.wf(),
        c.geometry.block_high(accesses.last().address()) < memory.len(),
        c.ordered_by(accesses.drop_last()),
    ensures
        c.after(memory, accesses.last()).ordered_by(accesses),
{
    let access = accesses.last();
    let earlier = accesses.drop_last();
    let a = access.address();
    let g = c.geometry;
    let d = c.after(memory, access);
    let sa = g.set_index(a) as int;
    let t = c.target(a);
    let n = accesses.len() as int;
    lemma_access_effect(c, memory, access);
    assert(c.set_distinct(sa));
    // The blocks but the one touched keep their last use.
    assert forall|s: int, w: int|
        0 <= s < d.sets.len() && 0 <= w < d.sets[s].len() && !(s == sa && w == t) && (
        #[trigger] d.sets[s][w]).valid implies c.sets[s][w].valid && d.sets[s][w].tag
        == c.sets[s][w].tag && last_use(g, accesses, s as nat, d.sets[s][w].tag) == last_use(
        g,
        earlier,
        s as nat,
        c.sets[s][w].tag,
    ) by {
        if s != sa {
            assert(d.sets[s] == c.sets[s]);
        } else {
            assert(c.sets[s][w].valid);
            if c.resident(a) {
                assert(c.sets[s][t].valid);
            } else {
                assert(!(c.sets[s][w].valid && c.sets[s][w].tag == g.tag(a)));
            }
        }
    }
    assert(last_use(g, accesses, sa as nat, g.tag(a)) == n - 1);
    assert forall|s: int, w: int|
        0 <= s < d.sets.len() && 0 <= w < d.sets[s].len() && (
        #[trigger] d.sets[s][w]).valid implies 0 <= last_use(
        g,
        accesses,
        s as nat,
        d.sets[s][w].tag,
    ) by {
        if !(s == sa && w == t) {
            assert(c.sets[s][w].valid);
        }
    }
    assert forall|s: int, v: int, w: int|
        0 <= s < d.sets.len() && 0 <= v < d.sets[s].len() && 0 <= w < d.sets[s].len() && (
        #[trigger] d.sets[s][v]).valid && (#[trigger] d.sets[s][w]).valid implies (
    d.sets[s][v].recency < d.sets[s][w].recency <==> last_use(
        g,
        accesses,
        s as nat,
        d.sets[s][v].tag,
    ) > last_use(g, accesses, s as nat, d.sets[s][w].tag)) by {
        if s != sa {
            assert(d.sets[s] == c.sets[s]);
            assert(c.sets[s][v].valid && c.sets[s][w].valid);
        } else {
            if v != t {
                assert(c.sets[s][v].valid);
                lemma_last_use_bound(g, earlier, s as nat, c.sets[s][v].tag);
            }
            if w != t {
                assert(c.sets[s][w].valid);
                lemma_last_use_bound(g, earlier, s as nat, c.sets[s][w].tag);
            }
        }
    }
}

/// After any accesses to a cache that began without a valid block, every
/// valid block was used, and of two valid blocks of one set the one used
/// later has the lower recency.
pub proof fn lemma_recency_follows_use(c: CacheView, memory: Seq<i32>, accesses: Seq<Access>)
    requires
        c.wf(),
        c.cold(),
        c.admits(memory.len(), accesses),
    ensures
        c.run(memory, accesses).0.ordered_by(accesses),
    decreases accesses.len(),
{
    assert(c.fits(memory.len()));
    if accesses.len() > 0 {
        let earlier = accesses.drop_last();
        assert forall|i: int| 0 <= i < earlier.len() implies c.geometry.block_high(
            (#[trigger] earlier[i]).address(),
        ) < memory.len() by {
            assert(earlier[i] == accesses[i]);
        }
        lemma_run_keeps_invariant(c, memory, earlier);
        lemma_recency_follows_use(c, memory, earlier);
        let (d, m) = c.run(memory, earlier);
        lemma_access_keeps_order(d, m, accesses);
    }
}

/// Least recently used: after any accesses to a cache that began without
/// a valid block, an access that puts a valid block out finds every block
/// of the set valid and in use for another address, and puts out the one
/// whose last use lies before the last use of every other.
pub proof fn lemma_least_recently_used_is_put_out(
    c: CacheView,
    memory: Seq<i32>,
    accesses: Seq<Access>,
    address: nat,
    w: int,
)
    requires
        c.wf(),
        c.cold(),
        c.admits(memory.len(), accesses),
        !c.run(memory, accesses).0.resident(address),
        c.run(memory, accesses).0.displaced(address).valid,
        0 <= w < c.ways,
    ensures
        ({
            let cache = c.run(memory, accesses).0;
            let set = cache.set_for(address);
            let s = c.geometry.set_index(address);
            &&& set[w].valid
            &&& set[w].tag != c.geometry.tag(address)
            &&& 0 <= last_use(c.geometry, accesses, s, set[w].tag)
            &&& w != victim(set) ==> last_use(
                c.geometry,
                accesses,
                s,
                cache.displaced(address).tag,
            ) < last_use(c.geometry, accesses, s, set[w].tag)
        }),
{
    assert(c.fits(memory.len()));
    lemma_run_keeps_invariant(c, memory, accesses);
    lemma_recency_follows_use(c, memory, accesses);
    let cache = c.run(memory, accesses).0;
    let s = c.geometry.set_index(address) as int;
    lemma_fields_in_range(c.geometry, address);
    lemma_victim_exists(cache.sets[s]);
    lemma_put_out_from_full_set(cache, address, w);
    let v = victim(cache.sets[s]);
    assert(cache.sets[s][w].valid);
    assert(cache.sets[s][v].valid);
}

/// Whether the accesses go to blocks of one set, each to another block.
pub open spec fn to_distinct_blocks_of_one_set(g: Geometry, accesses: Seq<Access>) -> bool {
    forall|i: int, j: int|
        0 <= i < j < accesses.len() ==> g.set_index((#[trigger] accesses[i]).address())
            == g.set_index((#[trigger] accesses[j]).address()) && g.tag(accesses[i].address())
            != g.tag(accesses[j].address())
}

/// The first `k` accesses to distinct blocks of one set of a cache that
/// began without a valid block fill the first `k` blocks of the set, in
/// order; each has aged twice for every access after its own.
proof fn lemma_fills_in_order(c: CacheView, memory: Seq<i32>, accesses: Seq<Access>, k: int)
    requires
        c.wf(),
        c.cold(),
        c.admits(memory.len(), accesses),
        to_distinct_blocks_of_one_set(c.geometry, accesses),
        0 <= k <= accesses.len(),
        k <= c.ways,
        accesses.len() > 0,
    ensures
        ({
            let d = c.run(memory, accesses.take(k)).0;
            let s = c.geometry.set_index(accesses[0].address()) as int;
            &&& d.wf()
            &&& d.geometry == c.geometry
            &&& d.ways == c.ways
            &&& d.fits(memory.len())
            &&& c.run(memory, accesses.take(k)).1 == memory
            &&& 0 <= s < d.sets.len()
            &&& forall|i: int|
                0 <= i < k ==> (#[trigger] d.sets[s][i]).valid && d.sets[s][i].tag == c.geometry.tag(
                    accesses[i].address(),
                ) && d.sets[s][i].recency == 2 * (k - 1 - i)
            &&& forall|i: int| k <= i < c.ways ==> !(#[trigger] d.sets[s][i]).valid
        }),
    decreases k,
{
    let g = c.geometry;
    let s = g.set_index(accesses[0].address()) as int;
    lemma_fields_in_range(g, accesses[0].address());
    assert(c.fits(memory.len()));
    if k == 0 {
        assert(accesses.take(0).len() == 0);
    } else {
        lemma_fills_in_order(c, memory, accesses, k - 1);
        let trace = accesses.take(k);
        assert(trace.drop_last() =~= accesses.take(k - 1));
        assert(trace.last() == accesses[k - 1]);
        let (b, m) = c.run(memory, accesses.take(k - 1));
        let access = accesses[k - 1];
        let a = access.address();
        assert(g.set_index(a) == s) by {
            if k - 1 > 0 {
                assert(g.set_index(accesses[0].address()) == g.set_index(
                    accesses[k - 1].address(),
                ));
            }
        }
        let set = b.sets[s];
        assert forall|j: int| 0 <= j < set.len() implies !((#[trigger] set[j]).valid && set[j].tag
            == g.tag(a)) by {
            if j < k - 1 {
                assert(g.tag(accesses[j].address()) != g.tag(accesses[k - 1].address()));
            }
        }
        assert(!b.resident(a));
        assert(is_victim(set, k - 1)) by {
            assert forall|j: int| 0 <= j < k - 1 implies (#[trigger] set[j]).valid by {}
        }
        lemma_victim_unique(set, k - 1);
        lemma_access_effect(b, m, access);
        lemma_fits_memory_holds(b, m.len(), a);
        lemma_memory_after(b, m, a);
        let d = b.after(m, access);
        assert(c.run(memory, trace).0 == d);
        assert forall|i: int| 0 <= i < k implies (#[trigger] d.sets[s][i]).valid && d.sets[s][i].tag
            == g.tag(accesses[i].address()) && d.sets[s][i].recency == 2 * (k - 1 - i) by {
            if i < k - 1 {
                assert(set[i].valid);
            }
        }
        assert forall|i: int| k <= i < c.ways implies !(#[trigger] d.sets[s][i]).valid by {
            assert(!set[i].valid);
        }
    }
}

/// A set of `ways` blocks, filled and overfilled: of `ways + 1` accesses
/// to distinct blocks of one set of a cache that began without a valid
/// block, each of the first `ways` finds a block to spare and puts nothing
/// out; the last one puts out the block of the first access, the one whose
/// use lies furthest back.
pub proof fn lemma_set_fills_then_puts_out_the_oldest(
    c: CacheView,
    memory: Seq<i32>,
    accesses: Seq<Access>,
    k: int,
)
    requires
        c.wf(),
        c.cold(),
        c.admits(memory.len(), accesses),
        to_distinct_blocks_of_one_set(c.geometry, accesses),
        accesses.len() == c.ways + 1,
        0 <= k <= c.ways,
    ensures
        ({
            let before = c.run(memory, accesses.take(k)).0;
            let a = accesses[k].address();
            &&& !before.resident(a)
            &&& k < c.ways ==> !before.displaced(a).valid
            &&& k == c.ways ==> before.displaced(a).valid && before.displaced(a).tag
                == c.geometry.tag(accesses[0].address()) && before.displaced(a).starting_address
                == c.geometry.block_low(accesses[0].address())
        }),
{
    let g = c.geometry;
    let s = g.set_index(accesses[0].address()) as int;
    lemma_fills_in_order(c, memory, accesses, k);
    let before = c.run(memory, accesses.take(k)).0;
    let a = accesses[k].address();
    assert(g.set_index(a) == s) by {
        if k > 0 {
            assert(g.set_index(accesses[0].address()) == g.set_index(accesses[k].address()));
        }
    }
    let set = before.sets[s];
    assert forall|j: int| 0 <= j < set.len() implies !((#[trigger] set[j]).valid && set[j].tag
        == g.tag(a)) by {
        if j < k {
            assert(g.tag(accesses[j].address()) != g.tag(accesses[k].address()));
        }
    }
    if k < c.ways {
        assert(is_victim(set, k)) by {
            assert forall|j: int| 0 <= j < k implies (#[trigger] set[j]).valid by {}
        }
        lemma_victim_unique(set, k);
    } else {
        assert(is_victim(set, 0)) by {
            assert forall|j: int| 0 <= j < set.len() implies (#[trigger] set[j]).valid
                && set[j].recency <= set[0].recency by {}
        }
        lemma_victim_unique(set, 0);
        lemma_block_starts_at_bound(before, s, 0, accesses[0].address());
    }
}

/// Filling a set puts nothing out and writes nothing back: after the
/// first `k` of the accesses to distinct blocks of one set of a cache that
/// began without a valid block, `k` no more than the blocks of a set, the
/// block of each of them is resident and memory is as it was.
pub proof fn lemma_filling_keeps_every_block(
    c: CacheView,
    memory: Seq<i32>,
    accesses: Seq<Access>,
    k: int,
    i: int,
)
    requires
        c.wf(),
        c.cold(),
        c.admits(memory.len(), accesses),
        to_distinct_blocks_of_one_set(c.geometry, accesses),
        0 <= i < k <= accesses.len(),
        k <= c.ways,
    ensures
        c.run(memory, accesses.take(k)).0.resident(accesses[i].address()),
        c.run(memory, accesses.take(k)).1 == memory,
{
    let g = c.geometry;
    let s = g.set_index(accesses[0].address()) as int;
    lemma_fills_in_order(c, memory, accesses, k);
    let d = c.run(memory, accesses.take(k)).0;
    assert(g.set_index(accesses[i].address()) == s) by {
        if i > 0 {
            assert(g.set_index(accesses[0].address()) == g.set_index(accesses[i].address()));
        }
    }
    assert(d.sets[s][i].valid);
}

/// When a full set makes room, only the block used least recently goes:
/// after any accesses to a cache that began without a valid block, an
/// access that puts a valid block out leaves every other block of the set
/// valid with its tag, its words, its dirty mark and its starting address,
/// and each of them was used later than the block put out, in whose place
/// the block of the address now stands.
pub proof fn lemma_only_the_oldest_is_put_out(
    c: CacheView,
    memory: Seq<i32>,
    accesses: Seq<Access>,
    access: Access,
    w: int,
)
    requires
        c.wf(),
        c.cold(),
        c.admits(memory.len(), accesses),
        c.geometry.block_high(access.address()) < memory.len(),
        !c.run(memory, accesses).0.resident(access.address()),
        c.run(memory, accesses).0.displaced(access.address()).valid,
        0 <= w < c.ways,
    ensures
        ({
            let (cache, words) = c.run(memory, accesses);
            let a = access.address();
            let s = c.geometry.set_index(a);
            let before = cache.set_for(a);
            let after = cache.after(words, access).set_for(a);
            let v = victim(before);
            &&& after[v].valid
            &&& after[v].tag == c.geometry.tag(a)
            &&& w != v ==> {
                &&& before[w].valid
                &&& after[w].valid
                &&& after[w].tag == before[w].tag
                &&& after[w].data == before[w].data
                &&& after[w].dirty == before[w].dirty
                &&& after[w].starting_address == before[w].starting_address
                &&& last_use(c.geometry, accesses, s, before[v].tag) < last_use(
                    c.geometry,
                    accesses,
                    s,
                    before[w].tag,
                )
            }
        }),
{
    assert(c.fits(memory.len()));
    lemma_run_keeps_invariant(c, memory, accesses);
    let (cache, words) = c.run(memory, accesses);
    lemma_least_recently_used_is_put_out(c, memory, accesses, access.address(), w);
    lemma_access_effect(cache, words, access);
}

} // verus!
