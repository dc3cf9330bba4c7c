//! A planner that hands out aligned byte ranges for tensor storage and
//! reuses released ones.
use vstd::prelude::*;
use crate::dtype::{DType, spec_dtype_bytes};

verus! {

/// The alignment of every planned block, in bytes.
pub const DEFAULT_ALIGNMENT: usize = 256;

/// A byte range of planned memory.
#[derive(Debug, Clone, Copy, PartialEq, Eq, Structural)]
pub struct MemoryBlock {
    pub offset: usize,
    pub size: usize,
}

/// The smallest multiple of the alignment that holds `bytes`.
pub open spec fn spec_align_up(bytes: int) -> int {
    ((bytes + 255) / 256) * 256
}

/// The index of the first free block of at least `needed` bytes.
pub open spec fn first_fit(free: Seq<MemoryBlock>, needed: int) -> Option<int>
    decreases free.len(),
{
    if free.len() == 0 {
        None
    } else {
        match first_fit(free.drop_last(), needed) {
            Some(i) => Some(i),
            None => if free.last().size >= needed { Some(free.len() - 1) } else { None },
        }
    }
}

/// Hands out aligned blocks: a released block is reused by the first later
/// request it can hold; otherwise a new block starts where the planned
/// memory ends.
pub struct MemoryPlanner {
    alignment: usize,
    cursor: usize,
    free: Vec<MemoryBlock>,
}

impl MemoryPlanner {
    /// The planner's alignment is the default one.
    pub closed spec fn wf(&self) -> bool {
        self.alignment == DEFAULT_ALIGNMENT
    }

    /// The bytes planned so far.
    pub closed spec fn cursor(&self) -> nat {
        self.cursor as nat
    }

    /// The released blocks, in the order the planner searches them.
    pub closed spec fn free_blocks(&self) -> Seq<MemoryBlock> {
        self.free@
    }

    pub fn new() -> (r: Self)
        ensures
            r.wf(),
            r.cursor() == 0,
            r.free_blocks() == Seq::<MemoryBlock>::empty(),
    {
        MemoryPlanner { alignment: DEFAULT_ALIGNMENT, cursor: 0, free: Vec::new() }
    }

    /// `bytes` rounded up to the alignment.
    pub fn align_up(&self, bytes: usize) -> (r: usize)
        requires
            self.wf(),
            bytes + 255 <= usize::MAX,
        ensures
            r == spec_align_up(bytes as int),
    {
        let mask = self.alignment - 1;
        let s = bytes + mask;
        let r = s & !mask;
        assert((s & !255usize) == (s / 256usize) * 256usize) by (bit_vector);
        r
    }

    /// The aligned size of `elements` values of type `dtype`.
    pub fn bytes_for(&self, elements: usize, dtype: DType) -> (r: usize)
        requires
            self.wf(),
            elements * spec_dtype_bytes(dtype) + 255 <= usize::MAX,
        ensures
            r == spec_align_up(elements * spec_dtype_bytes(dtype)),
    {
        let b = dtype.bytes();
        self.align_up(elements * b)
    }

    /// A block for `elements` values of type `dtype`: the first released
    /// block large enough, taken out of the free list by swapping the last
    /// one into its place, or else a new block at the end of the planned
    /// memory (which then grows by its size, saturating).
    pub fn allocate(&mut self, elements: usize, dtype: DType) -> (r: MemoryBlock)
        requires
            old(self).wf(),
            elements * spec_dtype_bytes(dtype) + 255 <= usize::MAX,
        ensures
            final(self).wf(),
            ({
                let needed = spec_align_up(elements * spec_dtype_bytes(dtype));
                match first_fit(old(self).free_blocks(), needed) {
                    Some(i) => {
                        &&& r == old(self).free_blocks()[i]
                        &&& final(self).free_blocks() == old(self).free_blocks().update(i, old(self).free_blocks().last()).drop_last()
                        &&& final(self).cursor() == old(self).cursor()
                    },
                    None => {
                        &&& r == MemoryBlock { offset: old(self).cursor() as usize, size: needed as usize }
                        &&& final(self).free_blocks() == old(self).free_blocks()
                        &&& final(self).cursor() == if old(self).cursor() + needed > usize::MAX { usize::MAX as int } else { old(self).cursor() + needed }
                    },
                }
            }),
    {
        let needed = self.bytes_for(elements, dtype);
        let mut i: usize = 0;
        while i < self.free.len()
            invariant
                i <= self.free.len(),
                self.wf(),
                self.cursor == old(self).cursor,
                self.free@ == old(self).free@,
                needed == spec_align_up(elements * spec_dtype_bytes(dtype)),
                first_fit(self.free@.take(i as int), needed as int) is None,
            decreases self.free.len() - i,
        {
            assert(self.free@.take(i + 1).drop_last() =~= self.free@.take(i as int));
            if self.free[i].size >= needed {
                proof { lemma_first_fit_prefix(self.free@, i as int + 1, needed as int); }
                return self.free.swap_remove(i);
            }
            i += 1;
        }
        assert(self.free@.take(i as int) =~= self.free@);
        let block = MemoryBlock { offset: self.cursor, size: needed };
        self.cursor = self.cursor.saturating_add(needed);
        block
    }

    /// Gives a block back for reuse.
    pub fn release(&mut self, block: MemoryBlock)
        ensures
            final(self).wf() == old(self).wf(),
            final(self).cursor() == old(self).cursor(),
            final(self).free_blocks() == old(self).free_blocks().push(block),
    {
        self.free.push(block);
    }

    /// The bytes planned so far.
    pub fn planned_bytes(&self) -> (r: usize)
        ensures
            r == self.cursor(),
    {
        self.cursor
    }
}

/// A first fit found in a prefix is the first fit of the whole list.
proof fn lemma_first_fit_prefix(free: Seq<MemoryBlock>, k: int, needed: int)
    requires
        0 < k <= free.len(),
        first_fit(free.take(k - 1), needed) is None,
        free[k - 1].size >= needed,
    ensures
        first_fit(free, needed) == Some(k - 1),
    decreases free.len() - k,
{
    assert(free.take(k).drop_last() =~= free.take(k - 1));
    assert(first_fit(free.take(k), needed) == Some(k - 1));
    lemma_first_fit_extends(free, k, needed);
}

proof fn lemma_first_fit_extends(free: Seq<MemoryBlock>, k: int, needed: int)
    requires
        0 <= k <= free.len(),
        first_fit(free.take(k), needed) is Some,
    ensures
        first_fit(free, needed) == first_fit(free.take(k), needed),
    decreases free.len() - k,
{
    if k < free.len() {
        assert(free.take(k + 1).drop_last() =~= free.take(k));
        lemma_first_fit_extends(free, k + 1, needed);
    } else {
        assert(free.take(k) =~= free);
    }
}

/// A released block that fits, with nothing free before it, is the next
/// block handed out for a request it holds.
pub proof fn lemma_release_then_reuse(free: Seq<MemoryBlock>, block: MemoryBlock, needed: int)
    requires
        first_fit(free, needed) is None,
        block.size >= needed,
    ensures
        first_fit(free.push(block), needed) == Some(free.len() as int),
{
    assert(free.push(block).drop_last() =~= free);
}

/// Whether two blocks share no byte.
pub open spec fn disjoint(a: MemoryBlock, b: MemoryBlock) -> bool {
    a.offset + a.size <= b.offset || b.offset + b.size <= a.offset
}

/// Whether the blocks are pairwise disjoint and all lie within the first
/// `cursor` bytes.
pub open spec fn laid_out(blocks: Seq<MemoryBlock>, cursor: nat) -> bool {
    &&& forall|i: int| 0 <= i < blocks.len() ==> #[trigger] blocks[i].offset + blocks[i].size <= cursor
    &&& forall|i: int, j: int| 0 <= i < j < blocks.len() ==> disjoint(#[trigger] blocks[i], #[trigger] blocks[j])
}

/// Blocks taken from a laid-out sequence, each from its own place, are laid
/// out too.
proof fn lemma_laid_out_moved(old: Seq<MemoryBlock>, new: Seq<MemoryBlock>, from: spec_fn(int) -> int, cursor: nat)
    requires
        laid_out(old, cursor),
        forall|p: int| 0 <= p < new.len() ==> 0 <= #[trigger] from(p) < old.len() && new[p] == old[from(p)],
        forall|p: int, q: int| 0 <= p < q < new.len() ==> #[trigger] from(p) != #[trigger] from(q),
    ensures
        laid_out(new, cursor),
{
    assert forall|p: int| 0 <= p < new.len() implies #[trigger] new[p].offset + new[p].size <= cursor by {
        assert(old[from(p)] == new[p]);
    }
    assert forall|p: int, q: int| 0 <= p < q < new.len() implies disjoint(#[trigger] new[p], #[trigger] new[q]) by {
        let a = from(p);
        let b = from(q);
        assert(a != b);
        if a < b {
            assert(disjoint(old[a], old[b]));
        } else {
            assert(disjoint(old[b], old[a]));
        }
    }
}

/// The blocks handed out and the blocks released stay pairwise disjoint and
/// within the planned bytes across an allocation: the block `allocate`
/// hands out is the first released block that fits, moved out of the free
/// list, or a new block at the end of the planned bytes, which then grow by
/// its size (as long as they do not reach the end of the address space).
pub proof fn lemma_allocate_keeps_blocks_apart(handed: Seq<MemoryBlock>, free: Seq<MemoryBlock>, cursor: nat, needed: nat)
    requires
        laid_out(handed + free, cursor),
        cursor + needed <= usize::MAX,
    ensures
        match first_fit(free, needed as int) {
            Some(i) => laid_out(handed.push(free[i]) + free.update(i, free.last()).drop_last(), cursor),
            None => laid_out(handed.push(MemoryBlock { offset: cursor as usize, size: needed as usize }) + free, cursor + needed),
        },
{
    let h = handed.len() as int;
    let old = handed + free;
    match first_fit(free, needed as int) {
        Some(i) => {
            lemma_first_fit_index(free, needed as int);
            let rest = free.update(i, free.last()).drop_last();
            let new = handed.push(free[i]) + rest;
            let last = free.len() - 1;
            let from = |p: int| if p < h { p } else if p == h { h + i } else if p - h - 1 == i { h + last } else { p - 1 };
            assert forall|p: int| 0 <= p < new.len() implies 0 <= #[trigger] from(p) < old.len() && new[p] == old[from(p)] by {
                if p < h {
                } else if p == h {
                } else {
                    assert(new[p] == rest[p - h - 1]);
                }
            }
            lemma_laid_out_moved(old, new, from, cursor);
        },
        None => {
            let nb = MemoryBlock { offset: cursor as usize, size: needed as usize };
            let new = handed.push(nb) + free;
            assert forall|p: int| 0 <= p < new.len() implies #[trigger] new[p].offset + new[p].size <= cursor + needed by {
                if p < h {
                    assert(new[p] == old[p]);
                } else if p > h {
                    assert(new[p] == old[p - 1]);
                }
            }
            assert forall|p: int, q: int| 0 <= p < q < new.len() implies disjoint(#[trigger] new[p], #[trigger] new[q]) by {
                if q == h {
                    assert(new[p] == old[p]);
                    assert(old[p].offset + old[p].size <= cursor);
                } else if p == h {
                    assert(new[q] == old[q - 1]);
                    assert(old[q - 1].offset + old[q - 1].size <= cursor);
                } else {
                    let a = if p < h { p } else { p - 1 };
                    let b = if q < h { q } else { q - 1 };
                    assert(new[p] == old[a]);
                    assert(new[q] == old[b]);
                    assert(disjoint(old[a], old[b]));
                }
            }
        },
    }
}

/// Releasing a block that is handed out keeps the blocks pairwise disjoint
/// and within the planned bytes: it moves from the handed-out blocks to
/// the end of the free list.
pub proof fn lemma_release_keeps_blocks_apart(handed: Seq<MemoryBlock>, free: Seq<MemoryBlock>, cursor: nat, k: int)
    requires
        laid_out(handed + free, cursor),
        0 <= k < handed.len(),
    ensures
        laid_out(handed.remove(k) + free.push(handed[k]), cursor),
{
    let h = handed.len() as int;
    let old = handed + free;
    let new = handed.remove(k) + free.push(handed[k]);
    let from = |p: int| if p < k { p } else if p < h - 1 { p + 1 } else if p < new.len() - 1 { p + 1 } else { k };
    assert forall|p: int| 0 <= p < new.len() implies 0 <= #[trigger] from(p) < old.len() && new[p] == old[from(p)] by {
        if p < h - 1 {
            assert(new[p] == handed.remove(k)[p]);
        } else if p < new.len() - 1 {
            assert(new[p] == free[p - (h - 1)]);
        } else {
            assert(new[p] == handed[k]);
        }
    }
    lemma_laid_out_moved(old, new, from, cursor);
}

/// Where `first_fit` finds a block, the block is in the list and large
/// enough.
proof fn lemma_first_fit_index(free: Seq<MemoryBlock>, needed: int)
    ensures
        first_fit(free, needed) matches Some(i) ==> 0 <= i < free.len() && free[i].size >= needed,
    decreases free.len(),
{
    if free.len() > 0 {
        lemma_first_fit_index(free.drop_last(), needed);
    }
}

} // verus!
