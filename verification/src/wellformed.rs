//! The invariant of the cache, and that every access keeps it.

use vstd::prelude::*;
use crate::address::{lemma_fields_in_range, lemma_recompose};
use crate::model::{
    aged_except, is_victim, is_way_of, lemma_way_exists, lemma_way_unique, victim, Access,
    BlockView, CacheView,
};

verus! {

/// Among the first `k` blocks, all valid, one has the greatest recency and
/// comes before every other that has it.
proof fn lemma_first_oldest(set: Seq<BlockView>, k: int) -> (i: int)
    requires
        0 < k <= set.len(),
        forall|j: int| 0 <= j < k ==> (#[trigger] set[j]).valid,
    ensures
        0 <= i < k,
        forall|j: int| 0 <= j < k ==> (#[trigger] set[j]).recency <= set[i].recency,
        forall|j: int| 0 <= j < i ==> (#[trigger] set[j]).recency < set[i].recency,
    decreases k,
{
    if k == 1 {
        0
    } else {
        let i = lemma_first_oldest(set, k - 1);
        if set[k - 1].recency > set[i].recency {
            k - 1
        } else {
            i
        }
    }
}

/// Up to a block that is not valid there is a first one that is not.
proof fn lemma_first_free(set: Seq<BlockView>, k: int) -> (i: int)
    requires
        0 <= k < set.len(),
        !set[k].valid,
    ensures
        0 <= i <= k,
        !set[i].valid,
        forall|j: int| 0 <= j < i ==> (#[trigger] set[j]).valid,
    decreases k,
{
    if exists|j: int| 0 <= j < k && !(#[trigger] set[j]).valid {
        let j = choose|j: int| 0 <= j < k && !(#[trigger] set[j]).valid;
        lemma_first_free(set, j)
    } else {
        k
    }
}

/// Every set with a block has a block to fill next.
pub proof fn lemma_victim_exists(set: Seq<BlockView>)
    requires
        set.len() > 0,
    ensures
        is_victim(set, victim(set)),
{
    if exists|k: int| 0 <= k < set.len() && !(#[trigger] set[k]).valid {
        let k = choose|k: int| 0 <= k < set.len() && !(#[trigger] set[k]).valid;
        let i = lemma_first_free(set, k);
        assert(is_victim(set, i));
    } else {
        let i = lemma_first_oldest(set, set.len() as int);
        assert(is_victim(set, i));
    }
}

/// Bringing in a block that is not resident keeps the cache's invariant,
/// leaves the block resident in the place of the set's victim, and keeps
/// every block within a memory that holds the new block.
pub proof fn lemma_filled(c: CacheView, memory: Seq<i32>, address: nat)
    requires
        c.wf(),
        !c.resident(address),
        c.geometry.block_high(address) < memory.len(),
    ensures
        c.filled(memory, address).wf(),
        c.filled(memory, address).geometry == c.geometry,
        c.filled(memory, address).ways == c.ways,
        c.filled(memory, address).resident(address),
        c.filled(memory, address).way(address) == victim(c.set_for(address)),
        0 <= victim(c.set_for(address)) < c.ways,
        c.fits(memory.len()) ==> c.filled(memory, address).fits(memory.len()),
{
    let g = c.geometry;
    let s = g.set_index(address) as int;
    let t = g.tag(address);
    let set = c.sets[s];
    let v = victim(set);
    let d = c.filled(memory, address);
    lemma_fields_in_range(g, address);
    lemma_recompose(g, address);
    lemma_victim_exists(set);
    let fresh = c.fetched(memory, address);
    let after = d.sets[s];
    assert(after == aged_except(set.update(v, fresh), v));
    assert(after[v] == fresh);
    assert forall|w: int| 0 <= w < c.ways && w != v implies #[trigger] after[w] == set[w].aged() by {}
    assert forall|r: int| 0 <= r < d.sets.len() implies (#[trigger] d.sets[r]).len() == d.ways by {
        if r != s {
            assert(d.sets[r] == c.sets[r]);
        }
    }
    assert forall|r: int, w: int| 0 <= r < d.sets.len() && 0 <= w < d.ways implies #[trigger] d.block_wf(
        r,
        w,
    ) by {
        assert(c.block_wf(r, w));
        if r != s {
            assert(d.sets[r] == c.sets[r]);
        }
    }
    assert forall|r: int| 0 <= r < d.sets.len() implies #[trigger] d.set_distinct(r) by {
        assert(c.set_distinct(r));
        if r != s {
            assert(d.sets[r] == c.sets[r]);
        } else {
            assert forall|x: int, y: int|
                0 <= x < after.len() && 0 <= y < after.len() && x != y && (#[trigger] after[x]).valid
                    && (#[trigger] after[y]).valid implies after[x].tag != after[y].tag
                && after[x].recency != after[y].recency by {
                if x != v {
                    assert(set[x].valid);
                }
                if y != v {
                    assert(set[y].valid);
                }
            }
        }
    }
    assert(is_way_of(after, t, v)) by {
        assert forall|j: int| 0 <= j < v implies !((#[trigger] after[j]).valid && after[j].tag
            == t) by {
            assert(set[j].valid ==> set[j].tag != t);
        }
    }
    lemma_way_unique(after, t, v);
    if c.fits(memory.len()) {
        assert forall|r: int, w: int|
            0 <= r < d.sets.len() && 0 <= w < d.sets[r].len() && (
            #[trigger] d.sets[r][w]).valid implies d.sets[r][w].starting_address
            + d.geometry.block_size <= memory.len() by {
            if r != s {
                assert(d.sets[r] == c.sets[r]);
                assert(c.sets[r][w].valid);
            } else if w != v {
                assert(set[w].valid);
            }
        }
    }
}

/// Using a resident block keeps the cache's invariant, leaves the block
/// where it is, and moves no block to other addresses.
pub proof fn lemma_touched(c: CacheView, address: nat, value: Option<i32>)
    requires
        c.wf(),
        c.resident(address),
    ensures
        c.touched(address, value).wf(),
        c.touched(address, value).geometry == c.geometry,
        c.touched(address, value).ways == c.ways,
        c.touched(address, value).resident(address),
        c.touched(address, value).way(address) == c.way(address),
        0 <= c.way(address) < c.ways,
        forall|words: nat| c.fits(words) ==> #[trigger] c.touched(address, value).fits(words),
{
    let g = c.geometry;
    let s = g.set_index(address) as int;
    let t = g.tag(address);
    let set = c.sets[s];
    let i = c.way(address);
    let d = c.touched(address, value);
    lemma_fields_in_range(g, address);
    lemma_way_exists(set, t);
    let after = d.sets[s];
    let b = match value {
        Some(v) => set[i].stored(g.block_offset(address) as int, v).used(),
        None => set[i].used(),
    };
    assert(after == aged_except(set.update(i, b), i));
    assert(after[i] == b);
    assert forall|w: int| 0 <= w < c.ways && w != i implies #[trigger] after[w] == set[w].aged() by {}
    assert forall|r: int| 0 <= r < d.sets.len() implies (#[trigger] d.sets[r]).len() == d.ways by {
        if r != s {
            assert(d.sets[r] == c.sets[r]);
        }
    }
    assert forall|r: int, w: int| 0 <= r < d.sets.len() && 0 <= w < d.ways implies #[trigger] d.block_wf(
        r,
        w,
    ) by {
        assert(c.block_wf(r, w));
        if r != s {
            assert(d.sets[r] == c.sets[r]);
        }
    }
    assert forall|r: int| 0 <= r < d.sets.len() implies #[trigger] d.set_distinct(r) by {
        assert(c.set_distinct(r));
        if r != s {
            assert(d.sets[r] == c.sets[r]);
        } else {
            assert forall|x: int, y: int|
                0 <= x < after.len() && 0 <= y < after.len() && x != y && (#[trigger] after[x]).valid
                    && (#[trigger] after[y]).valid implies after[x].tag != after[y].tag
                && after[x].recency != after[y].recency by {
                assert(set[x].valid);
                assert(set[y].valid);
            }
        }
    }
    assert(is_way_of(after, t, i)) by {
        assert forall|j: int| 0 <= j < i implies !((#[trigger] after[j]).valid && after[j].tag
            == t) by {
            assert(!(set[j].valid && set[j].tag == t));
        }
    }
    lemma_way_unique(after, t, i);
    assert forall|words: nat| c.fits(words) implies #[trigger] d.fits(words) by {
        assert forall|r: int, w: int|
            0 <= r < d.sets.len() && 0 <= w < d.sets[r].len() && (
            #[trigger] d.sets[r][w]).valid implies d.sets[r][w].starting_address
            + d.geometry.block_size <= words by {
            if r != s {
                assert(d.sets[r] == c.sets[r]);
                assert(c.sets[r][w].valid);
            } else {
                assert(set[w].valid);
            }
        }
    }
}

/// What one access does, block by block: the sets but the one accessed stay
/// as they are; in the set accessed, the block touched holds the address's
/// block, just used, and every other block has only aged, once on a hit and
/// twice on a miss.
pub proof fn lemma_access_effect(c: CacheView, memory: Seq<i32>, access: Access)
    requires
        c.wf(),
        c.resident(access.address()) || c.geometry.block_high(access.address()) < memory.len(),
    ensures
        ({
            let a = access.address();
            let d = c.after(memory, access);
            let s = c.geometry.set_index(a) as int;
            let t = c.target(a);
            let before = if c.resident(a) {
                c.sets[s][t]
            } else {
                c.fetched(memory, a)
            };
            &&& d.wf()
            &&& d.geometry == c.geometry
            &&& d.ways == c.ways
            &&& 0 <= s < c.sets.len()
            &&& 0 <= t < c.ways
            &&& c.resident(a) ==> is_way_of(c.sets[s], c.geometry.tag(a), t)
            &&& !c.resident(a) ==> is_victim(c.sets[s], t)
            &&& forall|r: int| 0 <= r < c.sets.len() && r != s ==> #[trigger] d.sets[r] == c.sets[r]
            &&& forall|w: int|
                0 <= w < c.ways && w != t ==> #[trigger] d.sets[s][w] == (BlockView {
                    recency: c.sets[s][w].recency + if c.resident(a) {
                        1nat
                    } else {
                        2nat
                    },
                    ..c.sets[s][w]
                })
            &&& d.sets[s][t] == match access.stored() {
                Some(v) => before.stored(c.geometry.block_offset(a) as int, v).used(),
                None => before.used(),
            }
            &&& before.valid
            &&& before.tag == c.geometry.tag(a)
            &&& before.starting_address == c.geometry.block_low(a)
            &&& before.data.len() == c.geometry.block_size
            &&& d.resident(a)
            &&& d.way(a) == t
            &&& c.fits(memory.len()) ==> d.fits(memory.len())
        }),
{
    let a = access.address();
    let g = c.geometry;
    let s = g.set_index(a) as int;
    let t = c.target(a);
    lemma_fields_in_range(g, a);
    lemma_recompose(g, a);
    let l = c.loaded(memory, a);
    if c.resident(a) {
        lemma_way_exists(c.sets[s], g.tag(a));
        assert(c.block_wf(s, t));
    } else {
        lemma_filled(c, memory, a);
        lemma_victim_exists(c.sets[s]);
        assert(l.sets[s] == aged_except(c.sets[s].update(t, c.fetched(memory, a)), t));
        assert(l.sets[s][t] == c.fetched(memory, a));
        assert forall|w: int| 0 <= w < c.ways && w != t implies #[trigger] l.sets[s][w]
            == c.sets[s][w].aged() by {}
    }
    lemma_touched(l, a, access.stored());
    let d = c.after(memory, access);
    assert(d == l.touched(a, access.stored()));
    assert(l.way(a) == t);
    let b = match access.stored() {
        Some(v) => l.sets[s][t].stored(g.block_offset(a) as int, v).used(),
        None => l.sets[s][t].used(),
    };
    assert(d.sets[s] == aged_except(l.sets[s].update(t, b), t));
    assert(d.sets[s][t] == b);
    assert forall|w: int| 0 <= w < c.ways && w != t implies #[trigger] d.sets[s][w] == (BlockView {
        recency: c.sets[s][w].recency + if c.resident(a) {
            1nat
        } else {
            2nat
        },
        ..c.sets[s][w]
    }) by {
        assert(d.sets[s][w] == l.sets[s][w].aged());
    }
    assert forall|r: int| 0 <= r < c.sets.len() && r != s implies #[trigger] d.sets[r]
        == c.sets[r] by {
        assert(d.sets[r] == l.sets[r]);
    }
}

/// A memory that holds every block of the cache and the block of an
/// address holds all that an access to the address moves.
pub proof fn lemma_fits_memory_holds(c: CacheView, words: nat, address: nat)
    requires
        c.wf(),
        c.fits(words),
        c.geometry.block_high(address) < words,
    ensures
        c.memory_holds(words, address),
{
    let s = c.geometry.set_index(address) as int;
    lemma_fields_in_range(c.geometry, address);
    lemma_victim_exists(c.sets[s]);
    let v = victim(c.sets[s]);
    if c.sets[s][v].valid {
        assert(c.sets[s][v].starting_address + c.geometry.block_size <= words);
    }
}

/// In a cache that meets the invariant, every valid block starts at the
/// lower bound of the block of every address that its set and its tag
/// stand for.
pub proof fn lemma_starts_at_bounds(c: CacheView)
    requires
        c.wf(),
    ensures
        c.starts_at_bounds(),
{
    assert forall|s: int, w: int, x: nat|
        0 <= s < c.sets.len() && 0 <= w < c.sets[s].len() && (#[trigger] c.sets[s][w]).valid
            && c.geometry.set_index(x) == s && c.geometry.tag(x)
            == c.sets[s][w].tag implies c.sets[s][w].starting_address
        == #[trigger] c.geometry.block_low(x) by {
        assert(c.block_wf(s, w));
        lemma_recompose(c.geometry, x);
    }
}

/// A cache in which no block is valid meets the invariant and fits every
/// memory.
pub proof fn lemma_empty_is_wf(block_size: nat, set_count: nat, ways: nat, words: nat)
    requires
        block_size > 0,
        set_count > 0,
        ways > 0,
    ensures
        CacheView::empty(block_size, set_count, ways).wf(),
        CacheView::empty(block_size, set_count, ways).fits(words),
{
    let c = CacheView::empty(block_size, set_count, ways);
    assert forall|s: int, w: int| 0 <= s < c.sets.len() && 0 <= w < c.ways implies #[trigger] c.block_wf(
        s,
        w,
    ) by {}
    assert forall|s: int| 0 <= s < c.sets.len() implies #[trigger] c.set_distinct(s) by {}
}

/// Every run of accesses within memory keeps the invariant, the shape of
/// the cache and the size of memory, and keeps every block within memory.
pub proof fn lemma_run_keeps_invariant(c: CacheView, memory: Seq<i32>, accesses: Seq<Access>)
    requires
        c.wf(),
        c.fits(memory.len()),
        c.admits(memory.len(), accesses),
    ensures
        c.run(memory, accesses).0.wf(),
        c.run(memory, accesses).0.fits(memory.len()),
        c.run(memory, accesses).0.geometry == c.geometry,
        c.run(memory, accesses).0.ways == c.ways,
        c.run(memory, accesses).1.len() == memory.len(),
    decreases accesses.len(),
{
    if accesses.len() > 0 {
        let earlier = accesses.drop_last();
        assert forall|i: int| 0 <= i < earlier.len() implies c.geometry.block_high(
            (#[trigger] earlier[i]).address(),
        ) < memory.len() by {
            assert(earlier[i] == accesses[i]);
        }
        lemma_run_keeps_invariant(c, memory, earlier);
        let (d, m) = c.run(memory, earlier);
        lemma_access_effect(d, m, accesses.last());
    }
}

/// A valid block starts at the lower bound of the block of every address
/// that its set and its tag stand for.
pub proof fn lemma_block_starts_at_bound(c: CacheView, s: int, w: int, address: nat)
    requires
        c.wf(),
        0 <= s < c.sets.len(),
        0 <= w < c.ways,
        c.sets[s][w].valid,
        c.geometry.set_index(address) == s,
        c.geometry.tag(address) == c.sets[s][w].tag,
    ensures
        c.sets[s][w].starting_address == c.geometry.block_low(address),
        c.sets[s][w].starting_address <= address < c.sets[s][w].starting_address
            + c.geometry.block_size,
{
    assert(c.block_wf(s, w));
    lemma_recompose(c.geometry, address);
    lemma_fields_in_range(c.geometry, address);
}

/// After any accesses within memory, made one after the other, every valid
/// block starts at the lower bound of the block of every address that its
/// set and its tag stand for.
pub proof fn lemma_blocks_start_at_bounds_after_run(
    c: CacheView,
    memory: Seq<i32>,
    accesses: Seq<Access>,
    s: int,
    w: int,
    address: nat,
)
    requires
        c.wf(),
        c.fits(memory.len()),
        c.admits(memory.len(), accesses),
        0 <= s < c.sets.len(),
        0 <= w < c.ways,
        c.run(memory, accesses).0.sets[s][w].valid,
        c.geometry.set_index(address) == s,
        c.geometry.tag(address) == c.run(memory, accesses).0.sets[s][w].tag,
    ensures
        c.run(memory, accesses).0.sets[s][w].starting_address == c.geometry.block_low(address),
{
    lemma_run_keeps_invariant(c, memory, accesses);
    lemma_block_starts_at_bound(c.run(memory, accesses).0, s, w, address);
}

} // verus!
