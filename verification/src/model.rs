//! The cache as a mathematical value, and what one access does to it.
//!
//! A cache is a table of sets, each a row of blocks. An access first makes
//! the block of its address resident (bringing it in from memory and, where
//! the set is full, putting out the block that was used least recently),
//! then reads or writes the word and marks the block as just used.

use vstd::prelude::*;
use crate::address::Geometry;
use crate::cache::{Action, Transfer};

verus! {

/// One block of the cache.
pub struct BlockView {
    /// Whether the block holds a copy of memory at all.
    pub valid: bool,
    /// Whether the copy was written to since it was brought in.
    pub dirty: bool,
    /// The tag of the addresses that the block covers.
    pub tag: nat,
    /// The first address that the block covers.
    pub starting_address: nat,
    /// The number of accesses to the set since the block was last used.
    pub recency: nat,
    /// The words of the block.
    pub data: Seq<i32>,
}

impl BlockView {
    /// A block that holds nothing yet: every field cleared, every word zero.
    pub open spec fn empty(block_size: nat) -> BlockView {
        BlockView {
            valid: false,
            dirty: false,
            tag: 0,
            starting_address: 0,
            recency: 0,
            data: Seq::new(block_size, |i: int| 0i32),
        }
    }

    /// The block, just used.
    pub open spec fn used(self) -> BlockView {
        BlockView { recency: 0, ..self }
    }

    /// The block after an access to another block of its set.
    pub open spec fn aged(self) -> BlockView {
        BlockView { recency: self.recency + 1, ..self }
    }

    /// The block after `value` was written to its word `offset`.
    pub open spec fn stored(self, offset: int, value: i32) -> BlockView {
        BlockView { dirty: true, data: self.data.update(offset, value), ..self }
    }
}

/// Whether some block of `set` is valid and carries `tag`.
pub open spec fn holds(set: Seq<BlockView>, tag: nat) -> bool {
    exists|i: int| 0 <= i < set.len() && (#[trigger] set[i]).valid && set[i].tag == tag
}

/// Whether `i` is the first block of `set` that is valid and carries `tag`.
pub open spec fn is_way_of(set: Seq<BlockView>, tag: nat, i: int) -> bool {
    &&& 0 <= i < set.len()
    &&& set[i].valid
    &&& set[i].tag == tag
    &&& forall|j: int| 0 <= j < i ==> !((#[trigger] set[j]).valid && set[j].tag == tag)
}

/// The first block of `set` that is valid and carries `tag`.
pub open spec fn way_of(set: Seq<BlockView>, tag: nat) -> int {
    choose|i: int| is_way_of(set, tag, i)
}

/// Whether `i` is the block of `set` to fill next: the first block that is
/// not valid or, where all are valid, the first among those with the
/// greatest recency.
pub open spec fn is_victim(set: Seq<BlockView>, i: int) -> bool {
    &&& 0 <= i < set.len()
    &&& forall|j: int| 0 <= j < i ==> (#[trigger] set[j]).valid
    &&& set[i].valid ==> forall|j: int|
        0 <= j < set.len() ==> {
            &&& (#[trigger] set[j]).valid
            &&& set[j].recency <= set[i].recency
            &&& j < i ==> set[j].recency < set[i].recency
        }
}

/// The block of `set` to fill next; 0 for a set without blocks.
pub open spec fn victim(set: Seq<BlockView>) -> int {
    if set.len() == 0 {
        0
    } else {
        choose|i: int| is_victim(set, i)
    }
}

/// The set after an access to its block `newest`: every other block is one
/// access older.
pub open spec fn aged_except(set: Seq<BlockView>, newest: int) -> Seq<BlockView> {
    Seq::new(
        set.len(),
        |j: int|
            if j == newest {
                set[j]
            } else {
                set[j].aged()
            },
    )
}

/// Memory after the words `data` were written to it from `start` on.
pub open spec fn written_back(memory: Seq<i32>, start: nat, data: Seq<i32>) -> Seq<i32> {
    Seq::new(
        memory.len(),
        |x: int|
            if start <= x < start + data.len() {
                data[x - start]
            } else {
                memory[x]
            },
    )
}

/// One access to the cache.
pub enum Access {
    /// A read of the word at an address.
    Read(nat),
    /// A write of a value to the word at an address.
    Write(nat, i32),
}

impl Access {
    /// The address accessed.
    pub open spec fn address(self) -> nat {
        match self {
            Access::Read(a) => a,
            Access::Write(a, _) => a,
        }
    }

    /// The value written, if any.
    pub open spec fn stored(self) -> Option<i32> {
        match self {
            Access::Read(_) => None,
            Access::Write(_, v) => Some(v),
        }
    }

    /// Whether the access writes to `address`.
    pub open spec fn writes(self, address: nat) -> bool {
        self is Write && self.address() == address
    }
}

/// A cache: its shape and its blocks, set by set.
pub struct CacheView {
    pub geometry: Geometry,
    /// The number of blocks in each set.
    pub ways: nat,
    pub sets: Seq<Seq<BlockView>>,
}

impl CacheView {
    /// A cache of the given shape in which no block is valid.
    pub open spec fn empty(block_size: nat, set_count: nat, ways: nat) -> CacheView {
        CacheView {
            geometry: Geometry { block_size, set_count },
            ways,
            sets: Seq::new(
                set_count,
                |s: int| Seq::new(ways, |w: int| BlockView::empty(block_size)),
            ),
        }
    }

    /// Block `w` of set `s` has a full block of words and, if valid, starts
    /// where its tag and its set say.
    pub open spec fn block_wf(self, s: int, w: int) -> bool {
        let b = self.sets[s][w];
        &&& b.data.len() == self.geometry.block_size
        &&& b.valid ==> b.starting_address == self.geometry.block_start(b.tag, s as nat)
    }

    /// No two valid blocks of set `s` carry the same tag or the same recency.
    pub open spec fn set_distinct(self, s: int) -> bool {
        let set = self.sets[s];
        forall|v: int, w: int|
            0 <= v < set.len() && 0 <= w < set.len() && v != w && (#[trigger] set[v]).valid && (
            #[trigger] set[w]).valid ==> set[v].tag != set[w].tag && set[v].recency
                != set[w].recency
    }

    /// The invariant of a cache.
    pub open spec fn wf(self) -> bool {
        &&& self.geometry.wf()
        &&& self.ways > 0
        &&& self.sets.len() == self.geometry.set_count
        &&& forall|s: int| 0 <= s < self.sets.len() ==> (#[trigger] self.sets[s]).len() == self.ways
        &&& forall|s: int, w: int|
            0 <= s < self.sets.len() && 0 <= w < self.ways ==> #[trigger] self.block_wf(s, w)
        &&& forall|s: int| 0 <= s < self.sets.len() ==> #[trigger] self.set_distinct(s)
    }

    /// Every valid block covers addresses below `words`.
    pub open spec fn fits(self, words: nat) -> bool {
        forall|s: int, w: int|
            0 <= s < self.sets.len() && 0 <= w < self.sets[s].len() && (
            #[trigger] self.sets[s][w]).valid ==> self.sets[s][w].starting_address
                + self.geometry.block_size <= words
    }

    /// The set that `address` belongs to.
    pub open spec fn set_for(self, address: nat) -> Seq<BlockView> {
        self.sets[self.geometry.set_index(address) as int]
    }

    /// Whether the block of `address` is in the cache.
    pub open spec fn resident(self, address: nat) -> bool {
        holds(self.set_for(address), self.geometry.tag(address))
    }

    /// Where in its set the block of `address` is.
    pub open spec fn way(self, address: nat) -> int {
        way_of(self.set_for(address), self.geometry.tag(address))
    }

    /// The block that an access to `address` touches: the one that holds it
    /// or, where none does, the one that is filled with it.
    pub open spec fn target(self, address: nat) -> int {
        if self.resident(address) {
            self.way(address)
        } else {
            victim(self.set_for(address))
        }
    }

    /// The word at `address` as a reader sees it: the cached word where the
    /// block is resident, the word in memory where it is not.
    pub open spec fn word(self, memory: Seq<i32>, address: nat) -> i32 {
        if self.resident(address) {
            self.set_for(address)[self.way(address)].data[self.geometry.block_offset(
                address,
            ) as int]
        } else {
            memory[address as int]
        }
    }

    /// The block of `address`, fresh from memory.
    pub open spec fn fetched(self, memory: Seq<i32>, address: nat) -> BlockView {
        let low = self.geometry.block_low(address);
        BlockView {
            valid: true,
            dirty: false,
            tag: self.geometry.tag(address),
            starting_address: low,
            recency: 0,
            data: memory.subrange(low as int, (low + self.geometry.block_size) as int),
        }
    }

    /// The block that has to make room when the block of `address` comes in.
    pub open spec fn displaced(self, address: nat) -> BlockView {
        self.set_for(address)[victim(self.set_for(address))]
    }

    /// The cache after the block of `address` was brought in from memory in
    /// place of the set's victim, and the other blocks of the set aged.
    pub open spec fn filled(self, memory: Seq<i32>, address: nat) -> CacheView {
        let s = self.geometry.set_index(address) as int;
        let v = victim(self.sets[s]);
        CacheView {
            sets: self.sets.update(
                s,
                aged_except(self.sets[s].update(v, self.fetched(memory, address)), v),
            ),
            ..self
        }
    }

    /// Memory after the block of `address` was brought in: a displaced block
    /// that was valid and dirty has been written back to where it came from.
    pub open spec fn flushed(self, memory: Seq<i32>, address: nat) -> Seq<i32> {
        let old = self.displaced(address);
        if old.valid && old.dirty {
            written_back(memory, old.starting_address, old.data)
        } else {
            memory
        }
    }

    /// The cache with the block of `address` resident.
    pub open spec fn loaded(self, memory: Seq<i32>, address: nat) -> CacheView {
        if self.resident(address) {
            self
        } else {
            self.filled(memory, address)
        }
    }

    /// The cache after the resident block of `address` was used: `value`, if
    /// there is one, written to the word, the block's recency reset and the
    /// other blocks of its set aged.
    pub open spec fn touched(self, address: nat, value: Option<i32>) -> CacheView {
        let s = self.geometry.set_index(address) as int;
        let w = self.way(address);
        let b = self.sets[s][w];
        let b = match value {
            Some(v) => b.stored(self.geometry.block_offset(address) as int, v).used(),
            None => b.used(),
        };
        CacheView { sets: self.sets.update(s, aged_except(self.sets[s].update(w, b), w)), ..self }
    }

    /// The cache after `access`: the block of its address made resident,
    /// then used.
    pub open spec fn after(self, memory: Seq<i32>, access: Access) -> CacheView {
        self.loaded(memory, access.address()).touched(access.address(), access.stored())
    }

    /// The cache after a read of `address`.
    pub open spec fn after_read(self, memory: Seq<i32>, address: nat) -> CacheView {
        self.after(memory, Access::Read(address))
    }

    /// The cache after `value` was written to `address`.
    pub open spec fn after_write(self, memory: Seq<i32>, address: nat, value: i32) -> CacheView {
        self.after(memory, Access::Write(address, value))
    }

    /// Memory after an access to `address`.
    pub open spec fn memory_after(self, memory: Seq<i32>, address: nat) -> Seq<i32> {
        if self.resident(address) {
            memory
        } else {
            self.flushed(memory, address)
        }
    }

    /// Whether an access to `address` puts out a block that is valid and was
    /// written to.
    pub open spec fn puts_out_dirty(self, address: nat) -> bool {
        !self.resident(address) && self.displaced(address).valid && self.displaced(
            address,
        ).dirty
    }

    /// Whether a memory of `words` words holds the words that an access to
    /// `address` moves between cache and memory: none where the block of
    /// the address is resident; else that block and, where the block that
    /// makes room for it is valid and was written to, that one too.
    pub open spec fn memory_holds(self, words: nat, address: nat) -> bool {
        &&& !self.resident(address) ==> self.geometry.block_high(address) < words
        &&& self.puts_out_dirty(address) ==> self.displaced(address).starting_address
            + self.geometry.block_size <= words
    }

    /// Whether every valid block starts at the lower bound of the block of
    /// every address that its set and its tag stand for.
    pub open spec fn starts_at_bounds(self) -> bool {
        forall|s: int, w: int, x: nat|
            0 <= s < self.sets.len() && 0 <= w < self.sets[s].len() && (
            #[trigger] self.sets[s][w]).valid && self.geometry.set_index(x) == s
                && self.geometry.tag(x) == self.sets[s][w].tag
                ==> self.sets[s][w].starting_address == #[trigger] self.geometry.block_low(x)
    }

    /// Whether the recency of every block that an access to `address` ages
    /// stays within `limit`: the blocks of the set but the one accessed age
    /// once on a hit and twice on a miss.
    pub open spec fn can_age(self, address: nat, limit: nat) -> bool {
        let set = self.set_for(address);
        let steps: nat = if self.resident(address) {
            1
        } else {
            2
        };
        forall|w: int|
            0 <= w < set.len() && w != self.target(address) ==> (#[trigger] set[w]).recency
                + steps <= limit
    }

    /// The transfers that bringing in the block of `address` takes: the
    /// displaced block, if valid, goes to memory or nowhere, and the new one
    /// comes from memory.
    pub open spec fn transfers_on_miss(self, address: nat) -> Seq<Transfer> {
        let old = self.displaced(address);
        let size = self.geometry.block_size as usize;
        let out = if !old.valid {
            Seq::<Transfer>::empty()
        } else if old.dirty {
            seq![
                (Transfer {
                    address: old.starting_address as usize,
                    size,
                    action: Action::CacheToMemory,
                }),
            ]
        } else {
            seq![
                (Transfer {
                    address: old.starting_address as usize,
                    size,
                    action: Action::CacheToNowhere,
                }),
            ]
        };
        out.push(
            Transfer {
                address: self.geometry.block_low(address) as usize,
                size,
                action: Action::MemoryToCache,
            },
        )
    }

    /// The transfers that making the block of `address` resident takes:
    /// none where it is resident already.
    pub open spec fn transfers_to_load(self, address: nat) -> Seq<Transfer> {
        if self.resident(address) {
            Seq::empty()
        } else {
            self.transfers_on_miss(address)
        }
    }

    /// The transfers of one access to `address`, in order; the last one is
    /// that of the word itself, in the direction `last`.
    pub open spec fn transfers(self, address: nat, last: Action) -> Seq<Transfer> {
        self.transfers_to_load(address).push(
            Transfer { address: address as usize, size: 1, action: last },
        )
    }
}

impl CacheView {
    /// Cache and memory after the accesses of `accesses`, made in order.
    pub open spec fn run(self, memory: Seq<i32>, accesses: Seq<Access>) -> (CacheView, Seq<i32>)
        decreases accesses.len(),
    {
        if accesses.len() == 0 {
            (self, memory)
        } else {
            let (cache, words) = self.run(memory, accesses.drop_last());
            let access = accesses.last();
            (cache.after(words, access), cache.memory_after(words, access.address()))
        }
    }

    /// Whether the block of each access of `accesses` lies within `words`
    /// words of memory.
    pub open spec fn admits(self, words: nat, accesses: Seq<Access>) -> bool {
        forall|i: int|
            0 <= i < accesses.len() ==> self.geometry.block_high(
                (#[trigger] accesses[i]).address(),
            ) < words
    }
}

/// A cache that differs from another in one set only, which is as long as
/// it was, is the other cache with that set put in.
pub proof fn lemma_one_set_replaced(before: CacheView, now: CacheView, s: int)
    requires
        now.geometry == before.geometry,
        now.sets.len() == before.sets.len(),
        0 <= s < before.sets.len(),
        forall|r: int|
            0 <= r < before.sets.len() && r != s ==> #[trigger] now.sets[r] == before.sets[r],
        now.sets[s].len() == before.sets[s].len(),
        now.ways == now.sets[0].len(),
        before.ways == before.sets[0].len(),
    ensures
        now == (CacheView { sets: before.sets.update(s, now.sets[s]), ..before }),
{
    assert(now.sets =~= before.sets.update(s, now.sets[s]));
}

/// At most one block is the first with a tag.
pub proof fn lemma_way_unique(set: Seq<BlockView>, tag: nat, i: int)
    requires
        is_way_of(set, tag, i),
    ensures
        holds(set, tag),
        way_of(set, tag) == i,
{
    let j = way_of(set, tag);
    assert(is_way_of(set, tag, j));
    assert(set[i].valid && set[j].valid);
}

/// Where a tag is held, it has a first block.
pub proof fn lemma_way_exists(set: Seq<BlockView>, tag: nat)
    requires
        holds(set, tag),
    ensures
        is_way_of(set, tag, way_of(set, tag)),
{
    let k = choose|i: int| 0 <= i < set.len() && (#[trigger] set[i]).valid && set[i].tag == tag;
    lemma_first_way(set, tag, k);
}

/// Below a block that carries the tag there is a first one that does.
proof fn lemma_first_way(set: Seq<BlockView>, tag: nat, k: int)
    requires
        0 <= k < set.len(),
        set[k].valid,
        set[k].tag == tag,
    ensures
        exists|i: int| is_way_of(set, tag, i),
    decreases k,
{
    if exists|j: int| 0 <= j < k && (#[trigger] set[j]).valid && set[j].tag == tag {
        let j = choose|j: int| 0 <= j < k && (#[trigger] set[j]).valid && set[j].tag == tag;
        lemma_first_way(set, tag, j);
    } else {
        assert(is_way_of(set, tag, k));
    }
}

/// At most one block is the one to fill next.
pub proof fn lemma_victim_unique(set: Seq<BlockView>, i: int)
    requires
        is_victim(set, i),
    ensures
        victim(set) == i,
{
    let j = victim(set);
    assert(is_victim(set, j));
    assert(set[i].valid || !set[i].valid);
    assert(set[j].valid || !set[j].valid);
    if i < j {
        assert(set[i].valid);
    } else if j < i {
        assert(set[j].valid);
    }
}

} // verus!
