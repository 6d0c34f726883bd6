//! An allocator that knows how many bytes are live.

use vstd::prelude::*;

use crate::alloc_stats;
use crate::alloc_stats::AllocStats;
use crate::recycle;
use crate::recycle::{Allocated, BlockLayout, Cache, Freed, MoveFinished, Realloc, Resize};

verus! {

/// Keeps count of the bytes that the system allocator has handed out. The count wraps around,
/// as it must: threads add to it and subtract from it in any order.
pub struct StatsAlloc {
    pub alloc_size: usize,
}

/// The live bytes once `allocated` is carried out.
pub open spec fn size_after_alloc(size: usize, allocated: Allocated, layout: BlockLayout) -> usize {
    if allocated is System {
        size.wrapping_add(recycle::system_layout(layout).size)
    } else {
        size
    }
}

/// The live bytes once `freed` is carried out.
pub open spec fn size_after_free(size: usize, freed: Freed, layout: BlockLayout) -> usize {
    if freed is System {
        size.wrapping_sub(recycle::system_layout(layout).size)
    } else {
        size
    }
}

impl StatsAlloc {
    /// Count a block of `layout` that comes from `allocated`.
    fn count_alloc(&mut self, allocated: Allocated, layout: BlockLayout)
        ensures
            final(self).alloc_size == size_after_alloc(old(self).alloc_size, allocated, layout),
    {
        match allocated {
            Allocated::System(_) => {
                self.alloc_size = self.alloc_size.wrapping_add(recycle::system_size(layout));
            },
            Allocated::Cached(_) => {},
        }
    }

    /// Allocate `layout`.
    pub fn alloc_block(
        &mut self,
        cache: &mut Cache,
        stats: &mut AllocStats,
        layout: BlockLayout,
    ) -> (r: Allocated)
        requires
            old(cache).wf(),
            old(stats).wf(),
        ensures
            final(cache).wf(),
            final(stats).wf(),
            r == recycle::alloc_from(old(cache)@, layout),
            final(cache)@ == recycle::after_alloc(old(cache)@, layout),
            final(self).alloc_size == size_after_alloc(old(self).alloc_size, r, layout),
            alloc_stats::recorded(*old(stats), *final(stats), layout.size),
    {
        alloc_stats::record(stats, layout.size);
        let allocated = recycle::alloc_block(cache, layout);
        self.count_alloc(allocated, layout);
        allocated
    }

    /// Allocate `layout`, cleared. The second part of the answer says how many bytes of a cached
    /// block to clear.
    pub fn alloc_zeroed(
        &mut self,
        cache: &mut Cache,
        stats: &mut AllocStats,
        layout: BlockLayout,
    ) -> (r: (Allocated, usize))
        requires
            old(cache).wf(),
            old(stats).wf(),
        ensures
            final(cache).wf(),
            final(stats).wf(),
            r.0 == recycle::alloc_from(old(cache)@, layout),
            r.1 == if r.0 is Cached {
                recycle::system_layout(layout).size
            } else {
                0
            },
            final(cache)@ == recycle::after_alloc(old(cache)@, layout),
            final(self).alloc_size == size_after_alloc(old(self).alloc_size, r.0, layout),
            alloc_stats::recorded(*old(stats), *final(stats), layout.size),
    {
        alloc_stats::record(stats, layout.size);
        let (allocated, clear) = recycle::alloc_zeroed(cache, layout);
        self.count_alloc(allocated, layout);
        (allocated, clear)
    }

    /// Free `ptr`, which was allocated with `layout`.
    pub fn dealloc(&mut self, cache: &mut Cache, ptr: u64, layout: BlockLayout) -> (r: Freed)
        requires
            old(cache).wf(),
        ensures
            final(cache).wf(),
            r == recycle::freed_to(old(cache).retained, layout),
            final(cache)@ == recycle::after_dealloc(
                old(cache)@,
                old(cache).retained,
                ptr,
                layout,
            ),
            final(self).alloc_size == size_after_free(old(self).alloc_size, r, layout),
    {
        let freed = recycle::dealloc(cache, ptr, layout);
        match freed {
            Freed::System(_) => {
                self.alloc_size = self.alloc_size.wrapping_sub(recycle::system_size(layout));
            },
            Freed::Parked => {},
        }
        freed
    }

    /// Decide how a block of `layout` gets `new_size` bytes. A move is finished by
    /// [`Self::finish_realloc`], which also counts it; what the system allocator resizes by
    /// itself is counted here.
    pub fn realloc(
        &mut self,
        cache: &mut Cache,
        stats: &mut AllocStats,
        layout: BlockLayout,
        new_size: usize,
    ) -> (r: Resize)
        requires
            old(cache).wf(),
            old(stats).wf(),
        ensures
            final(cache).wf(),
            final(stats).wf(),
            r == recycle::resize_how(old(cache)@, layout, new_size),
            final(cache)@ == if r is Move {
                recycle::after_alloc(
                    old(cache)@,
                    (BlockLayout { size: new_size, align: layout.align }),
                )
            } else {
                old(cache)@
            },
            alloc_stats::recorded(
                *old(stats),
                *final(stats),
                (if new_size >= layout.size {
                    (new_size - layout.size) as usize
                } else {
                    0
                }),
            ),
            final(self).alloc_size == if !(r is Passthrough) {
                old(self).alloc_size
            } else if new_size > layout.size {
                old(self).alloc_size.wrapping_add((new_size - layout.size) as usize)
            } else {
                old(self).alloc_size.wrapping_sub((layout.size - new_size) as usize)
            },
    {
        alloc_stats::record(stats, new_size.saturating_sub(layout.size));
        let how = recycle::realloc(cache, layout, new_size);
        match how {
            Resize::InPlace => {},
            Resize::Move(_) => {},
            Resize::Passthrough => {
                if new_size > layout.size {
                    self.alloc_size = self.alloc_size.wrapping_add(new_size - layout.size);
                } else if new_size < layout.size {
                    self.alloc_size = self.alloc_size.wrapping_sub(layout.size - new_size);
                }
            },
        }
        how
    }

    /// Finish moving the block `ptr` of `layout` to `new_ptr`, which has `new_size` bytes and
    /// came from `allocated`. `new_ptr` is 0 if there was no memory: then nothing is counted.
    pub fn finish_realloc(
        &mut self,
        cache: &mut Cache,
        ptr: u64,
        layout: BlockLayout,
        new_ptr: u64,
        new_size: usize,
        allocated: Allocated,
    ) -> (r: MoveFinished)
        requires
            old(cache).wf(),
        ensures
            final(cache).wf(),
            new_ptr == 0 ==> {
                &&& r.result == (Realloc::Moved { ptr: 0, system_alloc: false, system_free: false })
                &&& r.copied == 0
                &&& r.freed is None
                &&& final(cache)@ == old(cache)@
                &&& final(self).alloc_size == old(self).alloc_size
            },
            new_ptr != 0 ==> {
                let freed = recycle::freed_to(old(cache).retained, layout);
                let new_layout = BlockLayout { size: new_size, align: layout.align };
                &&& r.freed == Some(freed)
                &&& r.result == (Realloc::Moved {
                    ptr: new_ptr,
                    system_alloc: allocated is System,
                    system_free: freed is System,
                })
                &&& r.copied == if layout.size <= new_size {
                    layout.size
                } else {
                    new_size
                }
                &&& final(cache)@ == recycle::after_dealloc(
                    old(cache)@,
                    old(cache).retained,
                    ptr,
                    layout,
                )
                &&& final(self).alloc_size == size_after_free(
                    size_after_alloc(old(self).alloc_size, allocated, new_layout),
                    freed,
                    layout,
                )
            },
    {
        let finished = recycle::finish_realloc(cache, ptr, layout, new_ptr, new_size, allocated);
        match finished.result {
            Realloc::Moved { ptr: _, system_alloc, system_free } => {
                let new_layout = BlockLayout { size: new_size, align: layout.align };
                if system_alloc {
                    self.alloc_size = self.alloc_size.wrapping_add(
                        recycle::system_size(new_layout),
                    );
                }
                if system_free {
                    self.alloc_size = self.alloc_size.wrapping_sub(recycle::system_size(layout));
                }
            },
            _ => {},
        }
        finished
    }
}

/// Bytes parked in the cache.
pub open spec fn cached_bytes(lists: Seq<Seq<u64>>) -> nat {
    recycle::parked(lists, recycle::NUM_CLASSES as nat)
}

/// The count is the size of every block in use, and of every block in the cache: allocating a
/// block adds its size to what is in use, wherever it comes from.
pub proof fn law_alloc_adds_live_bytes(size: usize, lists: Seq<Seq<u64>>, layout: BlockLayout)
    requires
        lists.len() == recycle::NUM_CLASSES,
        size + recycle::system_layout(layout).size <= usize::MAX,
    ensures
        size_after_alloc(size, recycle::alloc_from(lists, layout), layout) - cached_bytes(
            recycle::after_alloc(lists, layout),
        ) == size - cached_bytes(lists) + recycle::system_layout(layout).size,
{
    if let Some(class) = recycle::spec_class_of(layout) {
        let list = lists[class as int];
        if list.len() > 0 {
            recycle::lemma_parked_update(
                lists,
                class,
                list.drop_last(),
                recycle::NUM_CLASSES as nat,
            );
            let len = list.len();
            assert((len - 1) * ((class + 1) * 16) == len * ((class + 1) * 16) - (class + 1) * 16)
                by (nonlinear_arith);
        }
    }
}

/// Freeing a block takes its size away from what is in use, wherever it goes.
pub proof fn law_dealloc_removes_live_bytes(
    size: usize,
    lists: Seq<Seq<u64>>,
    retained: usize,
    ptr: u64,
    layout: BlockLayout,
)
    requires
        lists.len() == recycle::NUM_CLASSES,
        size >= recycle::system_layout(layout).size,
    ensures
        size_after_free(size, recycle::freed_to(retained, layout), layout) - cached_bytes(
            recycle::after_dealloc(lists, retained, ptr, layout),
        ) == size - cached_bytes(lists) - recycle::system_layout(layout).size,
{
    if let Some(class) = recycle::spec_class_of(layout) {
        let list = lists[class as int];
        recycle::lemma_parked_update(lists, class, list.push(ptr), recycle::NUM_CLASSES as nat);
        let len = list.len();
        assert((len + 1) * ((class + 1) * 16) == len * ((class + 1) * 16) + (class + 1) * 16)
            by (nonlinear_arith);
    }
}

/// Resizing a block exchanges its old size for its new one in what is in use, whichever way the
/// block is resized.
pub proof fn law_realloc_exchanges_live_bytes(
    size: usize,
    lists: Seq<Seq<u64>>,
    retained: usize,
    ptr: u64,
    layout: BlockLayout,
    new_size: usize,
)
    requires
        lists.len() == recycle::NUM_CLASSES,
        size >= recycle::system_layout(layout).size,
        size + recycle::system_layout(
            BlockLayout { size: new_size, align: layout.align },
        ).size <= usize::MAX,
    ensures
        ({
            let new_layout = BlockLayout { size: new_size, align: layout.align };
            let old_bytes = recycle::system_layout(layout).size;
            let new_bytes = recycle::system_layout(new_layout).size;
            match recycle::resize_how(lists, layout, new_size) {
                Resize::InPlace => new_bytes == old_bytes,
                Resize::Passthrough => new_bytes - old_bytes == new_size - layout.size,
                Resize::Move(allocated) => {
                    let after = recycle::after_alloc(lists, new_layout);
                    size_after_free(
                        size_after_alloc(size, allocated, new_layout),
                        recycle::freed_to(retained, layout),
                        layout,
                    ) - cached_bytes(recycle::after_dealloc(after, retained, ptr, layout)) == size
                        - cached_bytes(lists) + new_bytes - old_bytes
                },
            }
        }),
{
    let new_layout = BlockLayout { size: new_size, align: layout.align };
    if let Resize::Move(allocated) = recycle::resize_how(lists, layout, new_size) {
        let after = recycle::after_alloc(lists, new_layout);
        law_alloc_adds_live_bytes(size, lists, new_layout);
        law_dealloc_removes_live_bytes(
            size_after_alloc(size, allocated, new_layout),
            after,
            retained,
            ptr,
            layout,
        );
    }
}

} // verus!
