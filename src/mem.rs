use crate::buddy::{
    is_free, lemma_all_free, lemma_finish_alloc, lemma_merge_step, lemma_place_held,
    lemma_present_disjoint, lemma_split_step, lemma_start_free, lemma_take, merge_owner,
    split_owner, tiling, Block,
};
use crate::buddy_math::{block_len, buddy_of, covers_range, lemma_len_double, lemma_len_grows};
use std::collections::VecDeque;
use std::ops::Range;
use vstd::prelude::*;

verus! {

/// A dense table of items addressed by index, with a stack of released indices to reuse.
pub struct Handles<T> {
    pub items: Vec<T>,
    free_list: Vec<usize>,
}

impl<T> Handles<T> {
    /// The stored items, one for each index handed out so far.
    pub closed spec fn slots(&self) -> Seq<T> {
        self.items@
    }

    /// The released indices, in the order in which they were released.
    pub closed spec fn free_ids(&self) -> Seq<usize> {
        self.free_list@
    }

    /// The item stored at `idx`.
    pub fn get(&self, idx: usize) -> (r: &T)
        requires
            idx < self.slots().len(),
        ensures
            *r == self.slots()[idx as int],
    {
        &self.items[idx]
    }

    pub open spec fn wf(&self) -> bool {
        forall|k: int| 0 <= k < self.free_ids().len() ==> self.free_ids()[k] < self.slots().len()
    }

    pub fn new() -> (r: Self)
        ensures
            r.wf(),
            r.slots().len() == 0,
            r.free_ids().len() == 0,
    {
        Handles { items: Vec::new(), free_list: Vec::new() }
    }

    /// Stores `item` in the most recently released slot, or in a new one at the end.
    pub fn track(&mut self, item: T) -> (r: usize)
        requires
            old(self).wf(),
        ensures
            final(self).wf(),
            old(self).free_ids().len() > 0 ==> {
                &&& r == old(self).free_ids().last()
                &&& final(self).slots() == old(self).slots().update(r as int, item)
                &&& final(self).free_ids() == old(self).free_ids().drop_last()
            },
            old(self).free_ids().len() == 0 ==> {
                &&& r == old(self).slots().len()
                &&& final(self).slots() == old(self).slots().push(item)
                &&& final(self).free_ids() == old(self).free_ids()
            },
    {
        if let Some(idx) = self.free_list.pop() {
            self.items.set(idx, item);
            idx
        } else {
            let idx = self.items.len();
            self.items.push(item);
            idx
        }
    }

    /// The number of slots.
    pub fn len(&self) -> (r: usize)
        ensures
            r == self.slots().len(),
    {
        self.items.len()
    }

    /// The number of released slots waiting for reuse.
    pub fn free_count(&self) -> (r: usize)
        ensures
            r == self.free_ids().len(),
    {
        self.free_list.len()
    }

    /// Releases the slot `idx` for reuse by a later `track`.
    pub fn untrack(&mut self, idx: usize)
        requires
            old(self).wf(),
            idx < old(self).slots().len(),
            !old(self).free_ids().contains(idx),
        ensures
            final(self).wf(),
            final(self).slots() == old(self).slots(),
            final(self).free_ids() == old(self).free_ids().push(idx),
    {
        self.free_list.push(idx);
        assert forall|k: int| 0 <= k < self.free_ids().len() implies #[trigger] self.free_ids()[k]
            < self.slots().len() by {
            if k < old(self).free_ids().len() {
                assert(old(self).free_ids()[k] == self.free_ids()[k]);
            }
        }
    }
}

/// A table like `Handles` whose fresh slots start from the default value and are
/// filled in place by an initialiser.
pub struct HandlePool<T> {
    pub items: Vec<T>,
    free_list: Vec<usize>,
}

impl<T: Default> HandlePool<T> {
    /// The stored items, one for each index handed out so far.
    pub closed spec fn slots(&self) -> Seq<T> {
        self.items@
    }

    /// The released indices, in the order in which they were released.
    pub closed spec fn free_ids(&self) -> Seq<usize> {
        self.free_list@
    }

    /// The item stored at `idx`.
    pub fn get(&self, idx: usize) -> (r: &T)
        requires
            idx < self.slots().len(),
        ensures
            *r == self.slots()[idx as int],
    {
        &self.items[idx]
    }

    pub open spec fn wf(&self) -> bool {
        forall|k: int| 0 <= k < self.free_ids().len() ==> self.free_ids()[k] < self.slots().len()
    }

    pub fn new() -> (r: Self)
        ensures
            r.wf(),
            r.slots().len() == 0,
            r.free_ids().len() == 0,
    {
        HandlePool { items: Vec::new(), free_list: Vec::new() }
    }

    /// The slot that the next `track` fills: the most recently released one, or a
    /// new one at the end.
    fn find_free(&mut self) -> (r: usize)
        requires
            old(self).wf(),
        ensures
            final(self).wf(),
            r < final(self).slots().len(),
            old(self).free_ids().len() > 0 ==> {
                &&& r == old(self).free_ids().last()
                &&& final(self).slots() == old(self).slots()
                &&& final(self).free_ids() == old(self).free_ids().drop_last()
            },
            old(self).free_ids().len() == 0 ==> {
                &&& r == old(self).slots().len()
                &&& final(self).slots().len() == old(self).slots().len() + 1
                &&& final(self).slots().take(r as int) == old(self).slots()
                &&& final(self).free_ids() == old(self).free_ids()
            },
    {
        if let Some(idx) = self.free_list.pop() {
            idx
        } else {
            let idx = self.items.len();
            self.items.push(T::default());
            assert(self.items@.take(idx as int) =~= old(self).slots());
            idx
        }
    }

    /// Takes a slot as `find_free` does and stores there what `init` makes of the
    /// slot's current value.
    pub fn track<I: Fn(T) -> T>(&mut self, init: I) -> (r: usize)
        requires
            old(self).wf(),
            forall|t: T| init.requires((t,)),
        ensures
            final(self).wf(),
            r < final(self).slots().len(),
            final(self).slots().len() == old(self).slots().len() + if old(self).free_ids().len()
                > 0 {
                0int
            } else {
                1int
            },
            forall|i: int|
                0 <= i < old(self).slots().len() && i != r ==> final(self).slots()[i]
                    == old(self).slots()[i],
            exists|t: T| init.ensures((t,), final(self).slots()[r as int]),
            old(self).free_ids().len() > 0 ==> init.ensures(
                (old(self).slots()[r as int],),
                final(self).slots()[r as int],
            ),
            old(self).free_ids().len() > 0 ==> {
                &&& r == old(self).free_ids().last()
                &&& final(self).free_ids() == old(self).free_ids().drop_last()
            },
            old(self).free_ids().len() == 0 ==> {
                &&& r == old(self).slots().len()
                &&& final(self).free_ids() == old(self).free_ids()
            },
    {
        let idx = self.find_free();
        let ghost before = self.slots();
        let mut cur = T::default();
        std::mem::swap(&mut cur, &mut self.items[idx]);
        let ghost seen = cur;
        let next = init(cur);
        self.items.set(idx, next);
        assert(init.ensures((seen,), self.slots()[idx as int]));
        assert(seen == before[idx as int]);
        idx
    }

    /// Releases the slot `idx` for reuse by a later `track`.
    pub fn untrack(&mut self, idx: usize)
        requires
            old(self).wf(),
            idx < old(self).slots().len(),
            !old(self).free_ids().contains(idx),
        ensures
            final(self).wf(),
            final(self).slots() == old(self).slots(),
            final(self).free_ids() == old(self).free_ids().push(idx),
    {
        self.free_list.push(idx);
        assert forall|k: int| 0 <= k < self.free_ids().len() implies #[trigger] self.free_ids()[k]
            < self.slots().len() by {
            if k < old(self).free_ids().len() {
                assert(old(self).free_ids()[k] == self.free_ids()[k]);
            }
        }
    }
}


/// Bit `j` of `w`, for `j < 64`.
pub open spec fn bit_of(w: u64, j: int) -> bool {
    (w >> (j as u64)) & 1u64 == 1u64
}

proof fn lemma_bit_set(w: u64, b: u64, j: u64)
    requires
        b < 64,
        j < 64,
    ensures
        ((w | (1u64 << b)) >> j) & 1u64 == 1u64 <==> (j == b || (w >> j) & 1u64 == 1u64),
{
    assert(((w | (1u64 << b)) >> j) & 1u64 == 1u64 <==> (j == b || (w >> j) & 1u64 == 1u64))
        by (bit_vector)
        requires
            b < 64,
            j < 64,
    ;
}

proof fn lemma_bit_clear(w: u64, b: u64, j: u64)
    requires
        b < 64,
        j < 64,
    ensures
        ((w & !(1u64 << b)) >> j) & 1u64 == 1u64 <==> (j != b && (w >> j) & 1u64 == 1u64),
{
    assert(((w & !(1u64 << b)) >> j) & 1u64 == 1u64 <==> (j != b && (w >> j) & 1u64 == 1u64))
        by (bit_vector)
        requires
            b < 64,
            j < 64,
    ;
}

proof fn lemma_all_ones(j: u64)
    requires
        j < 64,
    ensures
        (0xffff_ffff_ffff_ffffu64 >> j) & 1u64 == 1u64,
        (0u64 >> j) & 1u64 == 0u64,
{
    assert((0xffff_ffff_ffff_ffffu64 >> j) & 1u64 == 1u64) by (bit_vector)
        requires
            j < 64,
    ;
    assert((0u64 >> j) & 1u64 == 0u64) by (bit_vector);
}

/// A fixed number of slots, each used or free, with a stack of released slots
/// that are handed out again first.
pub struct BitMap {
    words: Vec<u64>,
    free_list: Vec<usize>,
    size: usize,
}

pub const WORD_BITS: usize = 64;

impl BitMap {
    /// The number of slots.
    pub closed spec fn capacity(&self) -> nat {
        self.size as nat
    }

    /// Whether slot `i` is in use.
    pub closed spec fn is_used(&self, i: int) -> bool {
        bit_of(self.words@[i / 64], i % 64)
    }

    /// The slots in use.
    pub open spec fn used(&self) -> Set<int> {
        Set::new(|i: int| 0 <= i < self.capacity() && self.is_used(i))
    }

    /// The released slots, most recent last.
    pub closed spec fn free_ids(&self) -> Seq<usize> {
        self.free_list@
    }

    pub closed spec fn wf(&self) -> bool {
        &&& self.words@.len() == (self.size + 63) / 64
        &&& self.size + 63 <= usize::MAX
        &&& forall|k: int|
            0 <= k < self.free_list@.len() ==> {
                let i = #[trigger] self.free_list@[k];
                &&& i < self.size
                &&& !self.is_used(i as int)
            }
        &&& forall|k: int, l: int|
            0 <= k < l < self.free_list@.len() ==> self.free_list@[k] != self.free_list@[l]
    }

    /// A map of `size` free slots.
    pub fn new(size: usize) -> (r: Self)
        requires
            size + 63 <= usize::MAX,
        ensures
            r.wf(),
            r.capacity() == size,
            r.used() == Set::<int>::empty(),
            r.free_ids().len() == 0,
    {
        let num_words = (size + (WORD_BITS - 1)) / WORD_BITS;
        let mut words: Vec<u64> = Vec::new();
        while words.len() < num_words
            invariant
                words@.len() <= num_words,
                forall|k: int| 0 <= k < words@.len() ==> words@[k] == 0u64,
            decreases num_words - words@.len(),
        {
            words.push(0);
        }
        let r = BitMap { words, free_list: Vec::new(), size };
        assert forall|i: int| 0 <= i < size implies !r.is_used(i) by {
            lemma_all_ones((i % 64) as u64);
        }
        assert(r.used() =~= Set::<int>::empty());
        r
    }

    /// Marks a free slot used and returns it: the most recently released slot if
    /// there is one, else the lowest free slot. Fails only when every slot is used.
    pub fn set_any(&mut self) -> (r: Option<usize>)
        requires
            old(self).wf(),
        ensures
            final(self).wf(),
            final(self).capacity() == old(self).capacity(),
            match r {
                Some(i) => {
                    &&& i < old(self).capacity()
                    &&& !old(self).used().contains(i as int)
                    &&& final(self).used() == old(self).used().insert(i as int)
                    &&& old(self).free_ids().len() > 0 ==> i == old(self).free_ids().last()
                        && final(self).free_ids() == old(self).free_ids().drop_last()
                    &&& old(self).free_ids().len() == 0 ==> final(self).free_ids()
                        == old(self).free_ids()
                        && forall|j: int| 0 <= j < i ==> old(self).used().contains(j)
                },
                None => {
                    &&& old(self).used() == Set::new(|j: int| 0 <= j < old(self).capacity())
                    &&& final(self).used() == old(self).used()
                    &&& final(self).free_ids() == old(self).free_ids()
                },
            },
    {
        if self.free_list.len() > 0 {
            let idx = self.free_list.pop().unwrap();
            assert(old(self).free_list@[old(self).free_list@.len() - 1] == idx);
            self.mark(idx);
            assert forall|k: int| 0 <= k < self.free_list@.len() implies {
                let i = #[trigger] self.free_list@[k];
                &&& i < self.size
                &&& !self.is_used(i as int)
            } by {
                assert(self.free_list@[k] == old(self).free_list@[k]);
            }
            Some(idx)
        } else {
            let n = self.words.len();
            let mut word_idx: usize = 0;
            while word_idx < n
                invariant
                    self.wf(),
                    self.words@ == old(self).words@,
                    self.free_list@ == old(self).free_list@,
                    self.size == old(self).size,
                    n == self.words@.len(),
                    self.free_list@.len() == 0,
                    word_idx <= n,
                    forall|j: int| 0 <= j < word_idx * 64 ==> #[trigger] self.is_used(j),
                decreases n - word_idx,
            {
                let word = self.words[word_idx];
                if word != u64::MAX {
                    let bit_idx = word.trailing_ones() as usize;
                    proof {
                        vstd::std_specs::bits::axiom_u64_trailing_ones(word);
                    }
                    let idx = word_idx * WORD_BITS + bit_idx;
                    assert forall|j: int| 0 <= j < idx implies #[trigger] self.is_used(j) by {
                        if j >= word_idx * 64 {
                            assert(j / 64 == word_idx as int);
                            assert(((word >> ((j % 64) as u64)) & 1u64) == 1u64);
                        }
                    }
                    if idx >= self.size {
                        assert(self.used() =~= Set::new(|j: int| 0 <= j < self.capacity()));
                        return None;
                    }
                    assert(idx / 64 == word_idx as int && idx % 64 == bit_idx as int);
                    assert(!self.is_used(idx as int));
                    assert forall|j: int| 0 <= j < idx implies old(self).used().contains(j) by {
                        assert(self.is_used(j));
                    }
                    self.mark(idx);
                    return Some(idx);
                }
                assert forall|j: int| 0 <= j < (word_idx + 1) * 64 implies #[trigger] self.is_used(
                    j,
                ) by {
                    if j >= word_idx * 64 {
                        assert(j / 64 == word_idx as int);
                        lemma_all_ones((j % 64) as u64);
                    }
                }
                word_idx += 1;
            }
            assert forall|j: int| 0 <= j < self.capacity() implies #[trigger] self.is_used(j) by {
                assert(j < n * 64);
            }
            assert(self.used() =~= Set::new(|j: int| 0 <= j < self.capacity()));
            None
        }
    }

    /// Sets the bit of the free slot `idx`.
    fn mark(&mut self, idx: usize)
        requires
            idx < old(self).size,
            old(self).words@.len() == (old(self).size + 63) / 64,
            !old(self).is_used(idx as int),
        ensures
            final(self).size == old(self).size,
            final(self).free_list == old(self).free_list,
            final(self).words@.len() == old(self).words@.len(),
            forall|j: int|
                0 <= j < final(self).size ==> #[trigger] final(self).is_used(j) == (old(
                    self,
                ).is_used(j) || j == idx),
            final(self).used() == old(self).used().insert(idx as int),
    {
        let word_idx = idx / WORD_BITS;
        let bit_idx = idx % WORD_BITS;
        let w = self.words[word_idx];
        self.words.set(word_idx, w | (1u64 << (bit_idx as u64)));
        assert forall|j: int| 0 <= j < self.size implies #[trigger] self.is_used(j) == (old(
            self,
        ).is_used(j) || j == idx) by {
            if j / 64 == word_idx as int {
                lemma_bit_set(w, bit_idx as u64, (j % 64) as u64);
            }
        }
        assert(self.used() =~= old(self).used().insert(idx as int));
    }

    /// The used slots are finite, and they are all the slots exactly when they
    /// number as many as the capacity: from an empty map of `n` slots, `set_any`
    /// (which adds one new slot each time it succeeds, and fails only when all are
    /// used) succeeds `n` times and then fails.
    pub proof fn lemma_exhaustion(&self)
        requires
            self.wf(),
        ensures
            self.used().finite(),
            self.used().len() <= self.capacity(),
            self.used() == Set::new(|j: int| 0 <= j < self.capacity()) <==> self.used().len()
                == self.capacity(),
    {
        let cap = self.capacity() as int;
        let all = vstd::set_lib::set_int_range(0, cap);
        vstd::set_lib::lemma_int_range(0, cap);
        assert(self.used().subset_of(all));
        vstd::set_lib::lemma_len_subset(self.used(), all);
        assert(all =~= Set::new(|j: int| 0 <= j < self.capacity()));
        if self.used().len() == self.capacity() && !(self.used() =~= all) {
            let j = choose|j: int| !(all.contains(j) <==> self.used().contains(j));
            assert(all.contains(j) && !self.used().contains(j));
            assert forall|x: int| self.used().contains(x) implies all.remove(j).contains(x) by {}
            vstd::set_lib::lemma_len_subset(self.used(), all.remove(j));
            assert(all.remove(j).len() == cap - 1);
        }
        if self.used().len() == self.capacity() {
            assert(self.used() =~= all);
        }
    }

    /// Releases the used slot `idx`, which the next `set_any` hands out again.
    pub fn unset(&mut self, idx: usize)
        requires
            old(self).wf(),
            old(self).used().contains(idx as int),
        ensures
            final(self).wf(),
            final(self).capacity() == old(self).capacity(),
            final(self).used() == old(self).used().remove(idx as int),
            final(self).free_ids() == old(self).free_ids().push(idx),
    {
        self.free_list.push(idx);
        let word_idx = idx / WORD_BITS;
        let bit_idx = idx % WORD_BITS;
        let w = self.words[word_idx];
        self.words.set(word_idx, w & !(1u64 << (bit_idx as u64)));
        assert forall|j: int| 0 <= j < self.size implies #[trigger] self.is_used(j) == (old(
            self,
        ).is_used(j) && j != idx) by {
            if j / 64 == word_idx as int {
                lemma_bit_clear(w, bit_idx as u64, (j % 64) as u64);
            }
        }
        assert forall|k: int| 0 <= k < self.free_list@.len() implies {
            let i = #[trigger] self.free_list@[k];
            &&& i < self.size
            &&& !self.is_used(i as int)
        } by {
            if k < old(self).free_list@.len() {
                assert(self.free_list@[k] == old(self).free_list@[k]);
                assert(!old(self).is_used(old(self).free_list@[k] as int));
            }
        }
        assert(self.used() =~= old(self).used().remove(idx as int));
    }
}

/// Steps from order `k` up to the first order whose blocks hold `size` bytes,
/// trying at most `steps` orders.
pub open spec fn fit_order(size: int, k: int, steps: nat) -> int
    decreases steps,
{
    if steps == 0 || block_len(k) >= size {
        k
    } else {
        fit_order(size, k + 1, (steps - 1) as nat)
    }
}

/// The order of the block that a request of `size` bytes gets: the smallest order
/// of at least `min` whose blocks hold `size` bytes.
pub open spec fn order_for(min: int, size: int) -> int {
    fit_order(size, min, 64)
}

proof fn lemma_fit_step(size: int, k: int, steps: nat)
    requires
        steps > 0,
        block_len(k) < size,
    ensures
        fit_order(size, k, steps) == fit_order(size, k + 1, (steps - 1) as nat),
{
}

proof fn lemma_fit_at_least(size: int, k: int, steps: nat)
    ensures
        fit_order(size, k, steps) >= k,
    decreases steps,
{
    if steps > 0 && block_len(k) < size {
        lemma_fit_at_least(size, k + 1, (steps - 1) as nat);
    }
}

proof fn lemma_fit_exact(k: int, j: int, steps: nat)
    requires
        0 <= j <= k,
        k - j <= steps,
    ensures
        fit_order(block_len(k), j, steps) == k,
    decreases steps,
{
    if j < k {
        vstd::arithmetic::power2::lemma_pow2_strictly_increases(j as nat, k as nat);
        lemma_fit_exact(k, j + 1, (steps - 1) as nat);
    }
}

proof fn lemma_orders_below_64(max: int)
    requires
        max >= 0,
        block_len(max) <= usize::MAX,
    ensures
        max < 64,
{
    if max >= 64 {
        lemma_len_grows(64, max);
        vstd::arithmetic::power2::lemma2_to64();
    }
}

/// Free list `j` after a block of order `c` at `off` is taken from the front of
/// its list and halved down to order `k`: each order from `k` below `c` gains the
/// upper half made at that order.
pub open spec fn split_list(l: Seq<Seq<usize>>, off: int, k: int, c: int, j: int) -> Seq<usize> {
    if j == c {
        l[c].subrange(1, l[c].len() as int)
    } else if k <= j < c {
        l[j].push((off + block_len(j)) as usize)
    } else {
        l[j]
    }
}

/// A region handed out by `MetaAllocator`.
pub struct MetaAlloc {
    pub range: Range<usize>,
}

impl Default for MetaAlloc {
    fn default() -> (r: Self)
        ensures
            r.range.start == 0,
            r.range.end == 0,
    {
        MetaAlloc { range: Range { start: 0, end: 0 } }
    }
}

/// A buddy allocator over an arena of `2^max` bytes: blocks of a power-of-two
/// length between `2^min` and `2^max`, one free list for each order.
pub struct MetaAllocator {
    min_order: usize,
    max_order: usize,
    min_size: usize,
    free_lists: Vec<VecDeque<usize>>,
    handed: Ghost<Set<Block>>,
    owner: Ghost<spec_fn(int) -> Block>,
}

impl MetaAllocator {
    /// The free lists: the offsets of the free blocks of each order.
    pub closed spec fn lists(&self) -> Seq<Seq<usize>> {
        self.free_lists@.map_values(|d: VecDeque<usize>| d@)
    }

    /// The blocks handed out and not yet given back, as (offset, order).
    pub closed spec fn handed_out(&self) -> Set<Block> {
        self.handed@
    }

    pub closed spec fn min_ord(&self) -> int {
        self.min_order as int
    }

    pub closed spec fn max_ord(&self) -> int {
        self.max_order as int
    }

    /// Whether `allocate(size)` succeeds: the order it asks for is not above the
    /// top order and some free list from that order up holds a block.
    pub open spec fn can_fit(&self, size: int) -> bool {
        let k = order_for(self.min_ord(), size);
        k <= self.max_ord() && exists|c: int| k <= c <= self.max_ord() && #[trigger] self.lists()[c].len() > 0
    }

    /// The length of the arena.
    pub open spec fn capacity(&self) -> int {
        block_len(self.max_ord())
    }

    pub closed spec fn wf(&self) -> bool {
        &&& tiling(
            self.lists(),
            self.handed@,
            Set::empty(),
            self.owner@,
            self.min_order as int,
            self.max_order as int,
        )
        &&& self.min_size == block_len(self.min_order as int)
    }

    /// An allocator over `size` bytes rounded up to a power of two, whose blocks
    /// are at least `min_size` bytes rounded up to a power of two, or the whole
    /// arena where that is larger.
    pub fn new(size: usize, min_size: usize) -> (r: Self)
        requires
            size <= usize::MAX / 2 + 1,
        ensures
            r.wf(),
            r.handed_out() == Set::<Block>::empty(),
            r.capacity() >= size,
            r.capacity() == 1 || r.capacity() < 2 * size,
            r.min_ord() <= r.max_ord(),
            block_len(r.min_ord()) >= min_size || r.min_ord() == r.max_ord(),
            r.min_ord() == 0 || block_len(r.min_ord()) < 2 * min_size,
            r.lists()[r.max_ord()] == seq![0usize],
            forall|j: int| 0 <= j < r.max_ord() ==> #[trigger] r.lists()[j].len() == 0,
    {
        let mut max_order: usize = 0;
        let mut cap: usize = 1;
        proof {
            lemma_len_double(0);
            vstd::arithmetic::power2::lemma2_to64();
        }
        while cap < size
            invariant
                cap == block_len(max_order as int),
                0 < cap <= usize::MAX,
                max_order < 64,
                max_order == 0 || cap < 2 * size,
                size <= usize::MAX / 2 + 1,
            decreases 64 - max_order,
        {
            proof {
                lemma_len_double(max_order as int);
                lemma_orders_below_64(max_order as int + 1);
            }
            cap = cap * 2;
            max_order += 1;
        }
        let mut min_order: usize = 0;
        let mut min_sz: usize = 1;
        while min_sz < min_size && min_order < max_order
            invariant
                min_sz == block_len(min_order as int),
                min_order <= max_order,
                cap == block_len(max_order as int),
                min_order == 0 || min_sz < 2 * min_size,
            decreases max_order - min_order,
        {
            proof {
                lemma_len_double(min_order as int);
                lemma_len_grows(min_order as int + 1, max_order as int);
            }
            min_sz = min_sz * 2;
            min_order += 1;
        }
        let mut free_lists: Vec<VecDeque<usize>> = Vec::new();
        while free_lists.len() < max_order
            invariant
                free_lists.len() <= max_order,
                forall|j: int| 0 <= j < free_lists@.len() ==> #[trigger] free_lists@[j]@.len() == 0,
            decreases max_order - free_lists.len(),
        {
            free_lists.push(VecDeque::new());
        }
        let mut top: VecDeque<usize> = VecDeque::new();
        top.push_back(0);
        free_lists.push(top);
        let r = MetaAllocator {
            min_order,
            max_order,
            min_size: min_sz,
            free_lists,
            handed: Ghost(Set::empty()),
            owner: Ghost(|a: int| (0int, max_order as int)),
        };
        proof {
            let l = r.lists();
            let mx = max_order as int;
            assert(l[mx] =~= seq![0usize]);
            assert forall|j: int| 0 <= j < mx implies #[trigger] l[j].len() == 0 by {
                assert(r.free_lists@[j]@.len() == 0);
            }
            lemma_len_double(mx);
            lemma_len_grows(min_order as int, mx);
            assert forall|b: Block| is_free(l, b) <==> b == (0int, mx) by {
                if is_free(l, b) {
                    let i = choose|i: int| 0 <= i < l[b.1].len() && l[b.1][i] as int == b.0;
                    assert(b.1 == mx);
                }
                if b == (0int, mx) {
                    assert(l[mx][0] as int == 0);
                }
            }
            assert(l[mx].len() == 1);
            let h = Set::<Block>::empty();
            let o = r.owner@;
            assert(block_len(mx) <= usize::MAX);
            assert(l.len() == mx + 1);
            assert forall|k: int, i: int| 0 <= k < l.len() && 0 <= i < l[k].len() implies crate::buddy::block_ok(
                (#[trigger] l[k][i] as int, k),
                min_order as int,
                mx,
            ) by {
                assert(k == mx);
                assert(l[k][i] == 0);
                vstd::arithmetic::div_mod::lemma_small_mod(0, block_len(mx) as nat);
            }
            assert forall|a: int| 0 <= a < block_len(mx) implies crate::buddy::present(
                l,
                h,
                h,
                #[trigger] o(a),
            ) && crate::buddy::covers(o(a), a) by {
                assert(is_free(l, (0int, mx)));
            }
            assert(tiling(l, h, h, o, min_order as int, mx));
        }
        r
    }

    /// Hands out a free block of order `order_for(min, size)`: the first block of
    /// the lowest non-empty free list of at least that order, halved down to it;
    /// each upper half goes onto the free list of its order. Fails when that order
    /// is above the top order or no list from it up holds a block.
    pub fn allocate(&mut self, size: usize) -> (r: Option<MetaAlloc>)
        requires
            old(self).wf(),
        ensures
            final(self).wf(),
            final(self).min_ord() == old(self).min_ord(),
            final(self).max_ord() == old(self).max_ord(),
            r is Some <==> old(self).can_fit(size as int),
            match r {
                Some(a) => {
                    let k = order_for(old(self).min_ord(), size as int);
                    let b = (a.range.start as int, k);
                    let l = old(self).lists();
                    &&& a.range.end == a.range.start + block_len(k)
                    &&& k == order_for(old(self).min_ord(), a.range.end - a.range.start)
                    &&& (a.range.start as int) % block_len(k) == 0
                    &&& a.range.end <= old(self).capacity()
                    &&& exists|c: int|
                        k <= c <= old(self).max_ord() && #[trigger] l[c].len() > 0 && l[c][0]
                            == a.range.start && (forall|j: int| k <= j < c ==> l[j].len() == 0)
                            && final(self).lists().len() == l.len() && forall|j: int|
                            0 <= j < l.len() ==> #[trigger] final(self).lists()[j] == split_list(
                                l,
                                a.range.start as int,
                                k,
                                c,
                                j,
                            )
                    &&& !old(self).handed_out().contains(b)
                    &&& final(self).handed_out() == old(self).handed_out().insert(b)
                    &&& forall|b2: Block, x: int|
                        old(self).handed_out().contains(b2) && covers_range(b2.0, b2.1, x)
                            ==> !covers_range(b.0, b.1, x)
                },
                None => {
                    &&& final(self).lists() == old(self).lists()
                    &&& final(self).handed_out() == old(self).handed_out()
                },
            },
    {
        let ghost min = self.min_order as int;
        let ghost max = self.max_order as int;
        let ghost l0 = self.lists();
        proof {
            lemma_orders_below_64(max);
            lemma_len_double(min);
        }
        let mut order = self.min_order;
        let mut s = self.min_size;
        while s < size && order < self.max_order
            invariant
                self.wf(),
                self.min_order == min && self.max_order == max,
                min <= order <= max < 64,
                s == block_len(order as int),
                order_for(min, size as int) == fit_order(
                    size as int,
                    order as int,
                    (64 - (order - min)) as nat,
                ),
            decreases max - order,
        {
            proof {
                lemma_fit_step(size as int, order as int, (64 - (order - min)) as nat);
                lemma_len_double(order as int);
                lemma_len_grows(order as int + 1, max);
            }
            s = s * 2;
            order += 1;
        }
        proof {
            lemma_fit_at_least(size as int, order as int + 1, (64 - (order - min) - 1) as nat);
        }
        if s < size {
            proof {
                lemma_fit_step(size as int, order as int, (64 - (order - min)) as nat);
            }
            return None;
        }
        let ghost k = order as int;
        assert(order_for(min, size as int) == k);
        let mut cur = order;
        while cur <= self.max_order && self.free_lists[cur].len() == 0
            invariant
                self.wf(),
                self.lists() == l0,
                self.min_order == min && self.max_order == max,
                max < 64,
                k <= cur <= max + 1,
                forall|j: int| k <= j < cur ==> #[trigger] l0[j].len() == 0,
            decreases max + 1 - cur,
        {
            cur += 1;
        }
        if cur > self.max_order {
            return None;
        }
        let mut h = s;
        let mut j = order;
        while j < cur
            invariant
                k <= j <= cur <= max,
                h == block_len(j as int),
                block_len(max) <= usize::MAX,
            decreases cur - j,
        {
            proof {
                lemma_len_double(j as int);
                lemma_len_grows(j as int + 1, max);
            }
            h = h * 2;
            j += 1;
        }
        let ghost c = cur as int;
        let off = self.free_lists[cur].pop_front().unwrap();
        proof {
            lemma_take(l0, self.handed@, self.owner@, min, max, c);
            assert(self.lists() =~= l0.update(c, l0[c].subrange(1, l0[c].len() as int)));
        }
        let mut split = cur;
        while split > order
            invariant
                tiling(
                    self.lists(),
                    self.handed@,
                    set![(off as int, split as int)],
                    self.owner@,
                    min,
                    max,
                ),
                self.handed@ == old(self).handed@,
                self.min_order == min && self.max_order == max,
                self.min_size == block_len(min),
                min <= k <= split <= c,
                order == k,
                h == block_len(split as int),
                self.lists().len() == l0.len(),
                forall|j: int|
                    0 <= j < l0.len() ==> #[trigger] self.lists()[j] == split_list(
                        l0,
                        off as int,
                        split as int,
                        c,
                        j,
                    ),
            decreases split,
        {
            proof {
                lemma_len_double(split as int - 1);
                assert(set![(off as int, split as int)].contains((off as int, split as int)));
            }
            h = h / 2;
            split -= 1;
            let ghost l1 = self.lists();
            let ghost s1 = split as int;
            proof {
                lemma_split_step(l1, self.handed@, self.owner@, min, max, off as int, s1);
            }
            self.free_lists[split].push_back(off + h);
            proof {
                assert(self.lists() =~= l1.update(s1, l1[s1].push((off + h) as usize)));
                self.owner@ = split_owner(self.owner@, off as int, s1);
                assert forall|j: int| 0 <= j < l0.len() implies #[trigger] self.lists()[j]
                    == split_list(l0, off as int, s1, c, j) by {
                    if j != s1 {
                        assert(self.lists()[j] == l1[j]);
                    }
                }
            }
        }
        let ghost b = (off as int, k);
        proof {
            assert(set![b].contains(b));
            lemma_finish_alloc(self.lists(), self.handed@, self.owner@, min, max, b);
            assert forall|b2: Block, x: int|
                old(self).handed_out().contains(b2) && covers_range(b2.0, b2.1, x) implies !covers_range(
                b.0,
                b.1,
                x,
            ) by {
                if covers_range(b.0, b.1, x) {
                    lemma_present_disjoint(
                        self.lists(),
                        self.handed@,
                        set![b],
                        self.owner@,
                        min,
                        max,
                        b2,
                        b,
                        x,
                    );
                }
            }
            self.handed@ = self.handed@.insert(b);
            lemma_fit_exact(k, min, 64);
            assert(l0[c][0] == off);
        }
        Some(MetaAlloc { range: Range { start: off, end: off + h } })
    }

    /// Gives back a block handed out by `allocate`, joining it with its buddy for as
    /// long as the buddy is free and the order is below the top.
    pub fn free(&mut self, region: MetaAlloc)
        requires
            old(self).wf(),
            region.range.start <= region.range.end,
            old(self).handed_out().contains(
                (
                    region.range.start as int,
                    order_for(old(self).min_ord(), region.range.end - region.range.start),
                ),
            ),
        ensures
            final(self).wf(),
            final(self).min_ord() == old(self).min_ord(),
            final(self).max_ord() == old(self).max_ord(),
            final(self).handed_out() == old(self).handed_out().remove(
                (
                    region.range.start as int,
                    order_for(old(self).min_ord(), region.range.end - region.range.start),
                ),
            ),
    {
        let ghost min = self.min_order as int;
        let ghost max = self.max_order as int;
        let start = region.range.start;
        let len = region.range.end - region.range.start;
        let ghost b = (start as int, order_for(min, len as int));
        proof {
            lemma_orders_below_64(max);
            lemma_len_double(min);
            assert(self.handed@.contains(b));
        }
        let mut order = self.min_order;
        let mut s = self.min_size;
        while s < len && order < self.max_order
            invariant
                self.wf(),
                self.min_order == min && self.max_order == max,
                min <= order <= max < 64,
                s == block_len(order as int),
                order_for(min, len as int) == fit_order(
                    len as int,
                    order as int,
                    (64 - (order - min)) as nat,
                ),
            decreases max - order,
        {
            proof {
                lemma_fit_step(len as int, order as int, (64 - (order - min)) as nat);
                lemma_len_double(order as int);
                lemma_len_grows(order as int + 1, max);
            }
            s = s * 2;
            order += 1;
        }
        proof {
            if s < len {
                lemma_fit_step(len as int, order as int, (64 - (order - min)) as nat);
                lemma_fit_at_least(len as int, order as int + 1, (64 - (order - min) - 1) as nat);
            }
            assert(order as int == b.1);
            lemma_start_free(self.lists(), self.handed@, self.owner@, min, max, b);
            self.handed@ = self.handed@.remove(b);
        }
        let mut cur_off = start;
        let mut cur = order;
        let mut h = s;
        let mut done = false;
        while !done && cur < self.max_order
            invariant
                tiling(
                    self.lists(),
                    self.handed@,
                    set![(cur_off as int, cur as int)],
                    self.owner@,
                    min,
                    max,
                ),
                self.handed@ == old(self).handed@.remove(b),
                self.min_order == min && self.max_order == max,
                self.min_size == block_len(min),
                min <= cur <= max,
                h == block_len(cur as int),
                done ==> !is_free(self.lists(), (buddy_of(cur_off as int, cur as int), cur as int)),
            decreases max - cur + if done {
                0int
            } else {
                1int
            },
        {
            let ghost held = (cur_off as int, cur as int);
            proof {
                assert(set![held].contains(held));
                lemma_len_double(cur as int);
                lemma_len_grows(cur as int + 1, max);
                crate::buddy::lemma_present_ok(
                    self.lists(),
                    self.handed@,
                    set![held],
                    self.owner@,
                    min,
                    max,
                    held,
                );
                crate::buddy_math::lemma_merge(cur_off as int, cur as int);
            }
            let buddy = if (cur_off / h) % 2 == 0 {
                cur_off + h
            } else {
                cur_off - h
            };
            assert(buddy as int == buddy_of(cur_off as int, cur as int));
            let n = self.free_lists[cur].len();
            let mut pos: usize = 0;
            while pos < n && self.free_lists[cur][pos] != buddy
                invariant
                    n == self.lists()[cur as int].len(),
                    cur < self.free_lists@.len(),
                    pos <= n,
                    forall|i: int| 0 <= i < pos ==> self.lists()[cur as int][i] != buddy,
                decreases n - pos,
            {
                pos += 1;
            }
            if pos == n {
                done = true;
                proof {
                    let l = self.lists();
                    if is_free(l, (buddy as int, cur as int)) {
                        let i = choose|i: int|
                            0 <= i < l[cur as int].len() && l[cur as int][i] as int == buddy as int;
                        assert(l[cur as int][i] != buddy);
                    }
                }
            } else {
                let ghost l1 = self.lists();
                let ghost p = if cur_off < buddy {
                    cur_off as int
                } else {
                    buddy as int
                };
                proof {
                    lemma_merge_step(
                        l1,
                        self.handed@,
                        self.owner@,
                        min,
                        max,
                        cur_off as int,
                        cur as int,
                        pos as int,
                    );
                }
                self.free_lists[cur].remove(pos);
                proof {
                    assert(self.lists() =~= l1.update(cur as int, l1[cur as int].remove(pos as int)));
                    self.owner@ = merge_owner(self.owner@, p, cur as int);
                }
                if buddy < cur_off {
                    cur_off = buddy;
                }
                cur += 1;
                h = h * 2;
            }
        }
        let ghost l2 = self.lists();
        proof {
            lemma_place_held(l2, self.handed@, self.owner@, min, max, cur_off as int, cur as int);
        }
        self.free_lists[cur].push_back(cur_off);
        proof {
            assert(self.lists() =~= l2.update(cur as int, l2[cur as int].push(cur_off)));
        }
    }

    /// No two blocks that are handed out share an address.
    /// The orders lie between 0 and 63, and the arena fits in `usize`.
    pub proof fn lemma_orders(&self)
        requires
            self.wf(),
        ensures
            0 <= self.min_ord() <= self.max_ord() < 64,
            self.capacity() <= usize::MAX,
    {
        lemma_orders_below_64(self.max_ord());
    }

    /// A block handed out is aligned to its length and lies inside the arena.
    pub proof fn lemma_handed_out_inside(&self, b: Block)
        requires
            self.wf(),
            self.handed_out().contains(b),
        ensures
            b.0 >= 0,
            b.1 >= self.min_ord(),
            b.0 % block_len(b.1) == 0,
            b.0 + block_len(b.1) <= self.capacity(),
    {
    }

    pub proof fn lemma_handed_out_disjoint(&self, b1: Block, b2: Block, x: int)
        requires
            self.wf(),
            self.handed_out().contains(b1),
            self.handed_out().contains(b2),
            covers_range(b1.0, b1.1, x),
            covers_range(b2.0, b2.1, x),
        ensures
            b1 == b2,
    {
        lemma_present_disjoint(
            self.lists(),
            self.handed@,
            Set::empty(),
            self.owner@,
            self.min_order as int,
            self.max_order as int,
            b1,
            b2,
            x,
        );
    }

    /// Once every block handed out has been given back, the free lists hold the
    /// whole arena as one block of the top order and nothing else.
    pub proof fn lemma_fully_coalesced(&self)
        requires
            self.wf(),
            self.handed_out() == Set::<Block>::empty(),
        ensures
            self.lists()[self.max_ord()] == seq![0usize],
            forall|j: int| 0 <= j < self.max_ord() ==> #[trigger] self.lists()[j].len() == 0,
    {
        lemma_all_free(
            self.lists(),
            self.owner@,
            self.min_order as int,
            self.max_order as int,
        );
    }
}

} // verus!
