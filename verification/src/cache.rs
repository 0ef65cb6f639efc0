//! The cache itself: blocks, sets and the two accesses, read and write.

use vstd::prelude::*;
use vstd::arithmetic::power2::{is_pow2, lemma2_to64, lemma_pow2_adds, pow2};
use vstd::bits::{
    lemma_usize_low_bits_mask_is_mod, lemma_usize_shl_is_mul, lemma_usize_shr_is_div,
};
use crate::address::{lemma_block_bounds, lemma_fields_in_range, Geometry};
use crate::coherence::{lemma_memory_after, lemma_write_sets_word};
use crate::wellformed::{
    lemma_access_effect, lemma_empty_is_wf, lemma_filled, lemma_starts_at_bounds, lemma_touched,
};
use crate::model::{
    aged_except, holds, is_victim, is_way_of, lemma_one_set_replaced, lemma_victim_unique,
    lemma_way_exists, lemma_way_unique, victim, written_back, Access, BlockView, CacheView,
};
use crate::report::{
    block_head, block_lines, cache_report, lemma_exponent_of_pow2, row_line, row_lines, set_lines,
};
use crate::text::{append_decimal, append_signed};
use crate::utils::{lemma_bits_of_pow2, lemma_usize_max_below_pow2, min_bits_required};
use vstd::string::StringExecFns;

verus! {

/// The direction of a transfer of words.
#[derive(Clone, Copy, Debug, PartialEq, Eq)]
pub enum Action {
    CacheToProcessor,
    ProcessorToCache,
    MemoryToCache,
    CacheToMemory,
    CacheToNowhere,
}

/// One transfer of words: `size` words from `address` on, in one direction.
#[derive(Clone, Copy, Debug, PartialEq, Eq)]
pub struct Transfer {
    pub address: usize,
    pub size: usize,
    pub action: Action,
}

/// One block of the cache.
pub struct Block {
    valid: bool,
    dirty: bool,
    tag: usize,
    instructions_since_use: usize,
    starting_address: usize,
    data: Vec<i32>,
}

impl View for Block {
    type V = BlockView;

    closed spec fn view(&self) -> BlockView {
        BlockView {
            valid: self.valid,
            dirty: self.dirty,
            tag: self.tag as nat,
            starting_address: self.starting_address as nat,
            recency: self.instructions_since_use as nat,
            data: self.data@,
        }
    }
}

impl Block {
    /// A block of `block_size_in_words` words that holds nothing yet.
    pub fn new(block_size_in_words: usize) -> (block: Block)
        ensures
            block@ == BlockView::empty(block_size_in_words as nat),
    {
        let data: Vec<i32> = vec![0; block_size_in_words];
        assert(data@ =~= Seq::new(block_size_in_words as nat, |i: int| 0i32));
        Block {
            valid: false,
            dirty: false,
            tag: 0,
            instructions_since_use: 0,
            starting_address: 0,
            data,
        }
    }

    /// Appends the line that heads the report of this block, block `index`
    /// of its set, to `report`.
    fn print_head(&self, index: usize, report: &mut String)
        ensures
            final(report)@ == old(report)@ + block_head(index as nat, self@),
    {
        report.append("\t\tBlock #");
        append_decimal(report, index);
        report.append(" -- ");
        if self.valid {
            report.append("V");
        } else {
            report.append("N");
        }
        report.append(" ");
        if self.dirty {
            report.append("D");
        } else {
            report.append("C");
        }
        report.append("\n");
        assert(report@ =~= old(report)@ + block_head(index as nat, self@));
    }

    /// Appends the report of the block's words to `report`.
    fn print_rows(&self, report: &mut String)
        ensures
            final(report)@ == old(report)@ + row_lines(self@.data, self@.data.len()),
    {
        let rows = self.data.len();
        let mut k: usize = 0;
        while k < rows
            invariant
                rows == self.data@.len(),
                k <= rows,
                report@ == old(report)@ + row_lines(self.data@, k as nat),
            decreases rows - k,
        {
            let ghost before = report@;
            report.append("\t\t\tRow #");
            append_decimal(report, k);
            report.append("'s Data: ");
            append_signed(report, self.data[k]);
            report.append("\n");
            assert(report@ =~= before + row_line(k as nat, self.data@[k as int]));
            k += 1;
            assert(report@ =~= old(report)@ + row_lines(self.data@, k as nat));
        }
    }
}

/// The blocks among which an address's block may be found.
pub struct CacheSet(Vec<Block>);

impl View for CacheSet {
    type V = Seq<BlockView>;

    closed spec fn view(&self) -> Seq<BlockView> {
        Seq::new(self.0@.len(), |i: int| self.0@[i]@)
    }
}

impl CacheSet {
    /// A set of `blocks_per_set` blocks that hold nothing yet.
    pub fn new(block_size_in_words: usize, blocks_per_set: usize) -> (set: CacheSet)
        ensures
            set@ == Seq::new(
                blocks_per_set as nat,
                |i: int| BlockView::empty(block_size_in_words as nat),
            ),
    {
        let mut blocks: Vec<Block> = Vec::new();
        let mut i: usize = 0;
        while i < blocks_per_set
            invariant
                i <= blocks_per_set,
                blocks@.len() == i,
                forall|j: int|
                    0 <= j < i ==> (#[trigger] blocks@[j])@ == BlockView::empty(
                        block_size_in_words as nat,
                    ),
            decreases blocks_per_set - i,
        {
            blocks.push(Block::new(block_size_in_words));
            i += 1;
        }
        let set = CacheSet(blocks);
        assert(set@ =~= Seq::new(
            blocks_per_set as nat,
            |i: int| BlockView::empty(block_size_in_words as nat),
        ));
        set
    }

    /// The index of the block to fill next: the first block that is not
    /// valid or, where all are valid, the first among those that went
    /// longest without use. 0 for a set without blocks.
    pub fn least_recently_used(&self) -> (index: usize)
        ensures
            index == victim(self@),
            self@.len() > 0 ==> is_victim(self@, index as int),
    {
        let n = self.0.len();
        if n == 0 {
            return 0;
        }
        if !self.0[0].valid {
            proof {
                assert(is_victim(self@, 0));
                lemma_victim_unique(self@, 0);
            }
            return 0;
        }
        let mut lru_idx: usize = 0;
        let mut lru_count: usize = self.0[0].instructions_since_use;
        let mut i: usize = 1;
        while i < n
            invariant
                n == self.0@.len(),
                1 <= i <= n,
                0 <= lru_idx < i,
                lru_count == self@[lru_idx as int].recency,
                forall|j: int| 0 <= j < i ==> (#[trigger] self@[j]).valid,
                forall|j: int| 0 <= j < i ==> (#[trigger] self@[j]).recency <= lru_count,
                forall|j: int| 0 <= j < lru_idx ==> (#[trigger] self@[j]).recency < lru_count,
            decreases n - i,
        {
            if !self.0[i].valid {
                proof {
                    assert(is_victim(self@, i as int));
                    lemma_victim_unique(self@, i as int);
                }
                return i;
            }
            if self.0[i].instructions_since_use > lru_count {
                lru_count = self.0[i].instructions_since_use;
                lru_idx = i;
            }
            i += 1;
        }
        proof {
            assert(is_victim(self@, lru_idx as int));
            lemma_victim_unique(self@, lru_idx as int);
        }
        lru_idx
    }

    /// Makes every block but `newest_index` one access older.
    pub fn use_block(&mut self, newest_index: usize)
        requires
            forall|j: int|
                0 <= j < old(self)@.len() && j != newest_index ==> (#[trigger] old(self)@[j]).recency
                    < usize::MAX,
        ensures
            final(self)@ == aged_except(old(self)@, newest_index as int),
    {
        let n = self.0.len();
        let mut i: usize = 0;
        while i < n
            invariant
                n == self.0@.len(),
                n == old(self)@.len(),
                i <= n,
                forall|j: int|
                    0 <= j < n && j != newest_index ==> (#[trigger] old(self)@[j]).recency
                        < usize::MAX,
                forall|j: int|
                    0 <= j < i ==> (#[trigger] self@[j]) == aged_except(
                        old(self)@,
                        newest_index as int,
                    )[j],
                forall|j: int| i <= j < n ==> (#[trigger] self@[j]) == old(self)@[j],
            decreases n - i,
        {
            let ghost before = self@;
            if i != newest_index {
                assert(before[i as int] == old(self)@[i as int]);
                self.0[i].instructions_since_use += 1;
            }
            assert forall|j: int| 0 <= j < n && j != i implies #[trigger] self@[j] == before[j] by {}
            i += 1;
        }
        assert(self@ =~= aged_except(old(self)@, newest_index as int));
    }

    /// Whether every block but `newest_index` can age `steps` times.
    pub fn can_age(&self, newest_index: usize, steps: usize) -> (ok: bool)
        ensures
            ok == forall|j: int|
                0 <= j < self@.len() && j != newest_index ==> (#[trigger] self@[j]).recency
                    + steps <= usize::MAX,
    {
        let n = self.0.len();
        let mut i: usize = 0;
        while i < n
            invariant
                n == self.0@.len(),
                i <= n,
                forall|j: int|
                    0 <= j < i && j != newest_index ==> (#[trigger] self@[j]).recency + steps
                        <= usize::MAX,
            decreases n - i,
        {
            if i != newest_index && self.0[i].instructions_since_use > usize::MAX - steps {
                assert(self@[i as int].recency + steps > usize::MAX);
                return false;
            }
            i += 1;
        }
        true
    }

    /// Appends the report of the set's blocks and their words to `report`.
    fn print_blocks(&self, report: &mut String)
        ensures
            final(report)@ == old(report)@ + block_lines(self@, self@.len()),
    {
        let n = self.0.len();
        let mut j: usize = 0;
        while j < n
            invariant
                n == self.0@.len(),
                j <= n,
                report@ == old(report)@ + block_lines(self@, j as nat),
            decreases n - j,
        {
            self.0[j].print_head(j, report);
            self.0[j].print_rows(report);
            assert(self@[j as int] == self.0[j as int]@);
            j += 1;
            assert(report@ =~= old(report)@ + block_lines(self@, j as nat));
        }
    }

    /// The first valid block that carries `tag`, if there is one.
    pub fn position_of(&self, tag: usize) -> (found: Option<usize>)
        ensures
            match found {
                Some(i) => is_way_of(self@, tag as nat, i as int),
                None => !holds(self@, tag as nat),
            },
    {
        let n = self.0.len();
        let mut i: usize = 0;
        while i < n
            invariant
                n == self.0@.len(),
                i <= n,
                forall|j: int|
                    0 <= j < i ==> !((#[trigger] self@[j]).valid && self@[j].tag == tag as nat),
            decreases n - i,
        {
            if self.0[i].tag == tag && self.0[i].valid {
                return Some(i);
            }
            i += 1;
        }
        None
    }
}

/// A set-associative cache that writes a block back to memory when it has to
/// make room, and makes room by putting out the block that went longest
/// without use.
pub struct Cache {
    sets: Vec<CacheSet>,
    offset_bit_count: usize,
    set_bit_count: usize,
    block_size: usize,
    set_count: usize,
    transfers: Vec<Transfer>,
}

impl View for Cache {
    type V = CacheView;

    closed spec fn view(&self) -> CacheView {
        CacheView {
            geometry: Geometry {
                block_size: self.block_size as nat,
                set_count: self.set_count as nat,
            },
            ways: if self.sets@.len() == 0 {
                0
            } else {
                self.sets@[0]@.len()
            },
            sets: Seq::new(self.sets@.len(), |s: int| self.sets@[s]@),
        }
    }
}

/// The words of `memory` from `low` on, `size` of them.
fn fetch_block(memory: &[i32], low: usize, size: usize) -> (data: Vec<i32>)
    requires
        low + size <= memory@.len(),
    ensures
        data@ == memory@.subrange(low as int, low + size),
{
    let total = memory.len();
    let mut data: Vec<i32> = Vec::new();
    let mut k: usize = 0;
    while k < size
        invariant
            k <= size,
            total == memory@.len(),
            low + size <= total,
            data@ == memory@.subrange(low as int, low + k),
        decreases size - k,
    {
        data.push(memory[low + k]);
        assert(data@ =~= memory@.subrange(low as int, low + k + 1));
        k += 1;
    }
    data
}

/// Writes the words of `data` to `memory` from `start` on.
fn write_back(memory: &mut [i32], start: usize, data: &Vec<i32>)
    requires
        start + data@.len() <= old(memory)@.len(),
    ensures
        final(memory)@ == written_back(old(memory)@, start as nat, data@),
{
    let n = data.len();
    let total = memory.len();
    let mut k: usize = 0;
    while k < n
        invariant
            n == data@.len(),
            k <= n,
            total == memory@.len(),
            memory@.len() == old(memory)@.len(),
            start + n <= total,
            forall|x: int|
                0 <= x < memory@.len() ==> #[trigger] memory@[x] == if start <= x < start + k {
                    data@[x - start]
                } else {
                    old(memory)@[x]
                },
        decreases n - k,
    {
        memory[start + k] = data[k];
        k += 1;
    }
    assert(memory@ =~= written_back(old(memory)@, start as nat, data@));
}

impl Cache {
    /// The bit counts say how the two sizes are powers of two.
    pub closed spec fn bits_wf(&self) -> bool {
        &&& self.block_size == pow2(self.offset_bit_count as nat)
        &&& self.set_count == pow2(self.set_bit_count as nat)
        &&& self.offset_bit_count < usize::BITS
        &&& self.set_bit_count < usize::BITS
        &&& self.offset_bit_count + self.set_bit_count <= usize::BITS
    }

    /// The invariant of a cache: that of its blocks and sets, and block size
    /// and number of sets are powers of two.
    pub open spec fn wf(&self) -> bool {
        &&& self@.wf()
        &&& is_pow2(self@.geometry.block_size as int)
        &&& is_pow2(self@.geometry.set_count as int)
        &&& self.bits_wf()
    }

    /// The transfers made since they were last taken, oldest first.
    pub closed spec fn pending(&self) -> Seq<Transfer> {
        self.transfers@
    }

    /// A cache of `number_of_sets` sets of `blocks_per_set` blocks of
    /// `block_size_in_words` words each, in which no block is valid yet.
    pub fn new(block_size_in_words: usize, number_of_sets: usize, blocks_per_set: usize) -> (cache:
        Cache)
        requires
            is_pow2(block_size_in_words as int),
            is_pow2(number_of_sets as int),
            is_pow2(blocks_per_set as int),
            block_size_in_words * number_of_sets <= usize::MAX + 1,
        ensures
            cache.wf(),
            cache@ == CacheView::empty(
                block_size_in_words as nat,
                number_of_sets as nat,
                blocks_per_set as nat,
            ),
            cache.pending() == Seq::<Transfer>::empty(),
    {
        let mut sets: Vec<CacheSet> = Vec::new();
        let mut i: usize = 0;
        while i < number_of_sets
            invariant
                i <= number_of_sets,
                sets@.len() == i,
                forall|s: int|
                    0 <= s < i ==> (#[trigger] sets@[s])@ == Seq::new(
                        blocks_per_set as nat,
                        |w: int| BlockView::empty(block_size_in_words as nat),
                    ),
            decreases number_of_sets - i,
        {
            sets.push(CacheSet::new(block_size_in_words, blocks_per_set));
            i += 1;
        }
        let offset_bit_count = min_bits_required(block_size_in_words);
        let set_bit_count = min_bits_required(number_of_sets);
        proof {
            reveal(is_pow2);
            lemma_bits_of_pow2(block_size_in_words as nat, offset_bit_count as nat);
            lemma_bits_of_pow2(number_of_sets as nat, set_bit_count as nat);
            if offset_bit_count >= usize::BITS {
                lemma_usize_max_below_pow2(offset_bit_count as nat);
            }
            if set_bit_count >= usize::BITS {
                lemma_usize_max_below_pow2(set_bit_count as nat);
            }
            lemma_pow2_adds(offset_bit_count as nat, set_bit_count as nat);
            if offset_bit_count + set_bit_count > usize::BITS {
                lemma_usize_max_below_pow2((offset_bit_count + set_bit_count - 1) as nat);
                lemma_pow2_adds(1, (offset_bit_count + set_bit_count - 1) as nat);
                lemma2_to64();
            }
        }
        let cache = Cache {
            sets,
            offset_bit_count,
            set_bit_count,
            block_size: block_size_in_words,
            set_count: number_of_sets,
            transfers: Vec::new(),
        };
        proof {
            let empty = CacheView::empty(
                block_size_in_words as nat,
                number_of_sets as nat,
                blocks_per_set as nat,
            );
            assert(cache@.sets =~= empty.sets);
            assert(cache@.ways == blocks_per_set);
            assert(cache@ == empty);
            lemma_empty_is_wf(
                block_size_in_words as nat,
                number_of_sets as nat,
                blocks_per_set as nat,
                0,
            );
        }
        cache
    }

    /// The position of `address` within its block.
    pub fn get_block_offset(&self, address: usize) -> (offset: usize)
        requires
            self.wf(),
        ensures
            offset == self@.geometry.block_offset(address as nat),
            offset < self@.geometry.block_size,
    {
        // A block of one word has no offset bits to mask out.
        if self.block_size == 1 {
            return 0;
        }
        let offset = self.offset_bit_count;
        proof {
            lemma_usize_shl_is_mul(1, offset);
            lemma_usize_low_bits_mask_is_mod(address, offset as nat);
        }
        let mask: usize = (1 << offset) - 1;
        address & mask
    }

    /// The set that `address` belongs to.
    pub fn get_set_index(&self, address: usize) -> (index: usize)
        requires
            self.wf(),
        ensures
            index == self@.geometry.set_index(address as nat),
            index < self@.geometry.set_count,
    {
        if self.set_count == 1 {
            return 0;
        }
        let block_offset: usize = if self.block_size == 1 {
            0
        } else {
            self.offset_bit_count
        };
        let set_offset = self.set_bit_count;
        proof {
            if self.block_size == 1 {
                lemma2_to64();
            }
            lemma_usize_shl_is_mul(1, set_offset);
            lemma_usize_shr_is_div(address, block_offset);
            lemma_usize_low_bits_mask_is_mod(address >> block_offset, set_offset as nat);
        }
        let mask: usize = (1 << set_offset) - 1;
        (address >> block_offset) & mask
    }

    /// The tag of `address`: what is left above offset and set index.
    pub fn get_tag(&self, address: usize) -> (tag: usize)
        requires
            self.wf(),
        ensures
            tag == self@.geometry.tag(address as nat),
    {
        let offset_amount = self.offset_bit_count + self.set_bit_count;
        proof {
            lemma_pow2_adds(self.offset_bit_count as nat, self.set_bit_count as nat);
        }
        // Offset and set index may take up the whole address.
        if offset_amount >= usize::BITS as usize {
            proof {
                lemma_usize_max_below_pow2(offset_amount as nat);
                let d = (self.block_size * self.set_count) as int;
                assert(address as int / d == 0) by (nonlinear_arith)
                    requires
                        0 <= address < d,
                ;
            }
            return 0;
        }
        proof {
            lemma_usize_shr_is_div(address, offset_amount);
        }
        address >> offset_amount
    }

    /// The first and the last address of the block that holds `address`.
    pub fn get_block_bounds(&self, address: usize) -> (bounds: (usize, usize))
        requires
            self.wf(),
        ensures
            bounds.0 == self@.geometry.block_low(address as nat),
            bounds.1 == self@.geometry.block_high(address as nat),
            bounds.0 <= address <= bounds.1,
            bounds.1 - bounds.0 + 1 == self@.geometry.block_size,
    {
        proof {
            lemma_block_bounds(self@.geometry, address as nat);
            lemma_usize_shl_is_mul(1, self.offset_bit_count);
            lemma_usize_low_bits_mask_is_mod(address, self.offset_bit_count as nat);
            let m = (self.block_size - 1) as usize;
            assert((address - (address & m)) + m == (address | m)) by (bit_vector);
        }
        let smaller = (address / self.block_size) * self.block_size;
        let larger = smaller + (self.block_size - 1);
        (smaller, larger)
    }

    /// Brings the block of `address`, which is not resident, in from memory
    /// in place of its set's victim, and writes the victim back where it
    /// was valid and dirty. Returns the victim's index.
    fn load(&mut self, address: usize, memory: &mut [i32]) -> (way: usize)
        requires
            old(self).wf(),
            !old(self)@.resident(address as nat),
            old(self)@.memory_holds(old(memory)@.len(), address as nat),
            forall|w: int|
                0 <= w < old(self)@.ways && w != victim(old(self)@.set_for(address as nat)) ==> (
                #[trigger] old(self)@.set_for(address as nat)[w]).recency < usize::MAX,
        ensures
            final(self).wf(),
            final(self)@ == old(self)@.filled(old(memory)@, address as nat),
            final(memory)@ == old(self)@.flushed(old(memory)@, address as nat),
            final(self).pending() == old(self).pending() + old(self)@.transfers_on_miss(
                address as nat,
            ),
            way == victim(old(self)@.set_for(address as nat)),
    {
        let tag = self.get_tag(address);
        let set_index = self.get_set_index(address);
        let (small_bound, large_bound) = self.get_block_bounds(address);
        proof {
            lemma_fields_in_range(self@.geometry, address as nat);
            lemma_filled(self@, memory@, address as nat);
        }
        let block_data = fetch_block(memory, small_bound, self.block_size);
        let lru_idx = self.sets[set_index].least_recently_used();
        let mut block = Block {
            valid: true,
            dirty: false,
            tag,
            instructions_since_use: 0,
            starting_address: small_bound,
            data: block_data,
        };
        assert(block@ == old(self)@.fetched(old(memory)@, address as nat));
        std::mem::swap(&mut self.sets[set_index].0[lru_idx], &mut block);
        let old_block = block;
        assert(old_block@ == old(self)@.displaced(address as nat));
        assert(self.sets[set_index as int]@ =~= old(self)@.set_for(address as nat).update(
            lru_idx as int,
            old(self)@.fetched(old(memory)@, address as nat),
        ));
        self.sets[set_index].use_block(lru_idx);
        proof {
            lemma_one_set_replaced(old(self)@, self@, set_index as int);
        }
        if old_block.valid {
            assert(old(self)@.block_wf(set_index as int, lru_idx as int));
            if old_block.dirty {
                // The block is as long as the range of memory that it goes to.
                assert(old_block.data@.len() == self.block_size);
                write_back(memory, old_block.starting_address, &old_block.data);
                self.transfers.push(
                    Transfer {
                        address: old_block.starting_address,
                        size: self.block_size,
                        action: Action::CacheToMemory,
                    },
                );
            } else {
                // A clean block is dropped: memory holds its words already.
                self.transfers.push(
                    Transfer {
                        address: old_block.starting_address,
                        size: self.block_size,
                        action: Action::CacheToNowhere,
                    },
                );
            }
        }
        self.transfers.push(
            Transfer { address: small_bound, size: self.block_size, action: Action::MemoryToCache },
        );
        assert(self.transfers@ =~= old(self).transfers@ + old(self)@.transfers_on_miss(
            address as nat,
        ));
        lru_idx
    }

    /// Uses the resident block of `address`, at `way` in its set: writes
    /// `store` to the word if there is one, marks the block as just used and
    /// ages the others. Returns the word as it is after that.
    fn hit(&mut self, address: usize, way: usize, store: Option<i32>) -> (value: i32)
        requires
            old(self).wf(),
            is_way_of(
                old(self)@.set_for(address as nat),
                old(self)@.geometry.tag(address as nat),
                way as int,
            ),
            forall|w: int|
                0 <= w < old(self)@.ways && w != way ==> (#[trigger] old(self)@.set_for(
                    address as nat,
                )[w]).recency < usize::MAX,
        ensures
            final(self).wf(),
            final(self)@ == old(self)@.touched(address as nat, store),
            value == match store {
                Some(v) => v,
                None => old(self)@.word(Seq::empty(), address as nat),
            },
            final(self).pending() == old(self).pending().push(
                Transfer {
                    address,
                    size: 1,
                    action: if store.is_some() {
                        Action::ProcessorToCache
                    } else {
                        Action::CacheToProcessor
                    },
                },
            ),
    {
        let set_index = self.get_set_index(address);
        let block_offset = self.get_block_offset(address);
        proof {
            lemma_fields_in_range(self@.geometry, address as nat);
            lemma_way_unique(
                self@.set_for(address as nat),
                self@.geometry.tag(address as nat),
                way as int,
            );
            lemma_touched(self@, address as nat, store);
            assert(self@.block_wf(set_index as int, way as int));
        }
        let action = match store {
            Some(value) => {
                self.sets[set_index].0[way].data[block_offset] = value;
                self.sets[set_index].0[way].dirty = true;
                Action::ProcessorToCache
            },
            None => Action::CacheToProcessor,
        };
        let value = self.sets[set_index].0[way].data[block_offset];
        self.sets[set_index].0[way].instructions_since_use = 0;
        proof {
            let before = old(self)@.set_for(address as nat);
            let b = match store {
                Some(v) => before[way as int].stored(block_offset as int, v).used(),
                None => before[way as int].used(),
            };
            assert(self.sets[set_index as int]@ =~= before.update(way as int, b));
        }
        self.sets[set_index].use_block(way);
        proof {
            lemma_one_set_replaced(old(self)@, self@, set_index as int);
        }
        self.transfers.push(Transfer { address, size: 1, action });
        value
    }

    /// The word at `address`. Where its block is not in the cache, the block
    /// is first brought in from `memory`, in place of the block of its set
    /// that went longest without use, which is written back to `memory` if
    /// it was written to.
    ///
    /// The first five clauses fix the result, the cache, memory and the
    /// record of transfers; the others spell out what follows from them.
    pub fn get_value(&mut self, address: usize, memory: &mut [i32]) -> (value: i32)
        requires
            old(self).wf(),
            old(self)@.memory_holds(old(memory)@.len(), address as nat),
            old(self)@.can_age(address as nat, usize::MAX as nat),
        ensures
            final(self).wf(),
            value == old(self)@.word(old(memory)@, address as nat),
            final(self)@ == old(self)@.after_read(old(memory)@, address as nat),
            final(memory)@ == old(self)@.memory_after(old(memory)@, address as nat),
            final(self).pending() == old(self).pending() + old(self)@.transfers(
                address as nat,
                Action::CacheToProcessor,
            ),
            final(memory)@.len() == old(memory)@.len(),
            old(self)@.fits(old(memory)@.len()) ==> final(self)@.fits(final(memory)@.len()),
            // The block of the address is resident, where its bounds say, and
            // a reader still sees the word that was read.
            final(self)@.resident(address as nat),
            final(self)@.set_for(address as nat)[final(self)@.way(
                address as nat,
            )].starting_address == final(self)@.geometry.block_low(address as nat),
            final(self)@.word(final(memory)@, address as nat) == value,
            final(self)@.starts_at_bounds(),
            // Memory changes only where a block that was written to is put
            // out, and then only in the range of that block.
            !old(self)@.puts_out_dirty(address as nat) ==> final(memory)@ == old(memory)@,
            old(self)@.puts_out_dirty(address as nat) ==> {
                let out = old(self)@.displaced(address as nat);
                let end = out.starting_address + old(self)@.geometry.block_size;
                &&& final(memory)@.subrange(out.starting_address as int, end as int) == out.data
                &&& forall|x: int|
                    0 <= x < old(memory)@.len() && !(out.starting_address <= x < end)
                        ==> #[trigger] final(memory)@[x] == old(memory)@[x]
            },
    {
        proof {
            let access = Access::Read(address as nat);
            lemma_access_effect(self@, memory@, access);
            lemma_memory_after(self@, memory@, address as nat);
            lemma_block_bounds(self@.geometry, address as nat);
            lemma_starts_at_bounds(self@.after(memory@, access));
        }
        let way = self.locate(address, memory);
        let value = self.hit(address, way, None);
        assert(self.pending() =~= old(self).pending() + old(self)@.transfers(
            address as nat,
            Action::CacheToProcessor,
        ));
        value
    }

    /// Writes `value` to the word at `address`, in the cache only. Where the
    /// word's block is not in the cache, it is first brought in as for a
    /// read.
    ///
    /// The first four clauses fix the cache, memory and the record of
    /// transfers; the others spell out what follows from them.
    pub fn set_value(&mut self, address: usize, memory: &mut [i32], value: i32)
        requires
            old(self).wf(),
            old(self)@.memory_holds(old(memory)@.len(), address as nat),
            old(self)@.can_age(address as nat, usize::MAX as nat),
        ensures
            final(self).wf(),
            final(self)@ == old(self)@.after_write(old(memory)@, address as nat, value),
            final(memory)@ == old(self)@.memory_after(old(memory)@, address as nat),
            final(self).pending() == old(self).pending() + old(self)@.transfers(
                address as nat,
                Action::ProcessorToCache,
            ),
            final(memory)@.len() == old(memory)@.len(),
            old(self)@.fits(old(memory)@.len()) ==> final(self)@.fits(final(memory)@.len()),
            // The block of the address is resident, where its bounds say, was
            // written to, and a reader sees the value.
            final(self)@.resident(address as nat),
            final(self)@.set_for(address as nat)[final(self)@.way(
                address as nat,
            )].starting_address == final(self)@.geometry.block_low(address as nat),
            final(self)@.set_for(address as nat)[final(self)@.way(address as nat)].dirty,
            final(self)@.word(final(memory)@, address as nat) == value,
            final(self)@.starts_at_bounds(),
            // Memory changes only where a block that was written to is put
            // out, and then only in the range of that block.
            !old(self)@.puts_out_dirty(address as nat) ==> final(memory)@ == old(memory)@,
            old(self)@.puts_out_dirty(address as nat) ==> {
                let out = old(self)@.displaced(address as nat);
                let end = out.starting_address + old(self)@.geometry.block_size;
                &&& final(memory)@.subrange(out.starting_address as int, end as int) == out.data
                &&& forall|x: int|
                    0 <= x < old(memory)@.len() && !(out.starting_address <= x < end)
                        ==> #[trigger] final(memory)@[x] == old(memory)@[x]
            },
    {
        proof {
            let access = Access::Write(address as nat, value);
            lemma_access_effect(self@, memory@, access);
            lemma_memory_after(self@, memory@, address as nat);
            lemma_write_sets_word(self@, memory@, address as nat, value);
            lemma_starts_at_bounds(self@.after(memory@, access));
        }
        let way = self.locate(address, memory);
        self.hit(address, way, Some(value));
        assert(self.pending() =~= old(self).pending() + old(self)@.transfers(
            address as nat,
            Action::ProcessorToCache,
        ));
    }

    /// Makes the block of `address` resident and says where in its set it is.
    fn locate(&mut self, address: usize, memory: &mut [i32]) -> (way: usize)
        requires
            old(self).wf(),
            old(self)@.memory_holds(old(memory)@.len(), address as nat),
            old(self)@.can_age(address as nat, usize::MAX as nat),
        ensures
            final(self).wf(),
            final(self)@ == old(self)@.loaded(old(memory)@, address as nat),
            final(memory)@ == old(self)@.memory_after(old(memory)@, address as nat),
            is_way_of(
                final(self)@.set_for(address as nat),
                final(self)@.geometry.tag(address as nat),
                way as int,
            ),
            way == old(self)@.target(address as nat),
            forall|w: int|
                0 <= w < final(self)@.ways && w != way ==> (#[trigger] final(self)@.set_for(
                    address as nat,
                )[w]).recency < usize::MAX,
            final(self)@.word(Seq::empty(), address as nat) == old(self)@.word(
                old(memory)@,
                address as nat,
            ),
            final(self).pending() == old(self).pending() + old(self)@.transfers_to_load(
                address as nat,
            ),
    {
        let tag = self.get_tag(address);
        let set_index = self.get_set_index(address);
        proof {
            lemma_fields_in_range(self@.geometry, address as nat);
        }
        match self.sets[set_index].position_of(tag) {
            Some(way) => {
                proof {
                    lemma_way_unique(self@.set_for(address as nat), tag as nat, way as int);
                    assert(self.pending() =~= self.pending() + Seq::<Transfer>::empty());
                }
                way
            },
            None => {
                proof {
                    lemma_filled(self@, memory@, address as nat);
                    lemma_block_bounds(self@.geometry, address as nat);
                }
                let way = self.load(address, memory);
                proof {
                    let c = old(self)@;
                    let a = address as nat;
                    lemma_way_exists(self@.set_for(a), tag as nat);
                    assert(self@.set_for(a)[way as int] == c.fetched(old(memory)@, a));
                    assert forall|w: int| 0 <= w < self@.ways && w != way implies (
                    #[trigger] self@.set_for(a)[w]).recency < usize::MAX by {
                        assert(self@.set_for(a)[w] == c.set_for(a)[w].aged());
                    }
                }
                way
            },
        }
    }

    /// Whether an access to `address` leaves every recency counter that it
    /// advances within the machine's word.
    pub fn has_headroom(&self, address: usize) -> (ok: bool)
        requires
            self.wf(),
        ensures
            ok == self@.can_age(address as nat, usize::MAX as nat),
    {
        let tag = self.get_tag(address);
        let set_index = self.get_set_index(address);
        proof {
            lemma_fields_in_range(self@.geometry, address as nat);
        }
        match self.sets[set_index].position_of(tag) {
            Some(way) => {
                proof {
                    lemma_way_unique(self@.set_for(address as nat), tag as nat, way as int);
                }
                let ok = self.sets[set_index].can_age(way, 1);
                proof {
                    let set = self@.set_for(address as nat);
                    assert(set == self.sets[set_index as int]@);
                    if self@.can_age(address as nat, usize::MAX as nat) {
                        assert forall|j: int| 0 <= j < set.len() && j != way implies (
                        #[trigger] set[j]).recency + 1 <= usize::MAX by {}
                    }
                }
                ok
            },
            None => {
                let way = self.sets[set_index].least_recently_used();
                let ok = self.sets[set_index].can_age(way, 2);
                proof {
                    let set = self@.set_for(address as nat);
                    assert(set == self.sets[set_index as int]@);
                    if self@.can_age(address as nat, usize::MAX as nat) {
                        assert forall|j: int| 0 <= j < set.len() && j != way implies (
                        #[trigger] set[j]).recency + 2 <= usize::MAX by {}
                    }
                }
                ok
            },
        }
    }

    /// The report of the whole cache, line by line.
    pub fn print_cache(&self) -> (report: String)
        requires
            self.wf(),
        ensures
            report@ == cache_report(self@),
    {
        proof {
            lemma_exponent_of_pow2(self.offset_bit_count as nat);
            lemma_exponent_of_pow2(self.set_bit_count as nat);
        }
        let mut report = String::from_str("--- --- --- Cache --- --- ---\nblock_size:       ");
        append_decimal(&mut report, self.block_size);
        report.append("\nset_bit_count:    ");
        append_decimal(&mut report, self.set_bit_count);
        report.append("\noffset_bit_count: ");
        append_decimal(&mut report, self.offset_bit_count);
        report.append("\nset_count:        ");
        append_decimal(&mut report, self.sets.len());
        report.append("\n--- --- --- Sets  --- --- ---\n");
        let ghost head = report@;
        let n = self.sets.len();
        let mut i: usize = 0;
        while i < n
            invariant
                n == self.sets@.len(),
                i <= n,
                report@ == head + set_lines(self@.sets, i as nat),
            decreases n - i,
        {
            report.append("\tSet #");
            append_decimal(&mut report, i);
            report.append("\n");
            self.sets[i].print_blocks(&mut report);
            i += 1;
            assert(report@ =~= head + set_lines(self@.sets, i as nat));
        }
        assert(report@ =~= cache_report(self@));
        report
    }

    /// Hands over the transfers made since they were last taken.
    pub fn take_transfers(&mut self) -> (taken: Vec<Transfer>)
        ensures
            taken@ == old(self).pending(),
            final(self).pending() == Seq::<Transfer>::empty(),
            final(self)@ == old(self)@,
            old(self).wf() ==> final(self).wf(),
    {
        let mut taken: Vec<Transfer> = Vec::new();
        std::mem::swap(&mut self.transfers, &mut taken);
        taken
    }
}

} // verus!
