//! Where blocks of memory come from and where they go.

use vstd::prelude::*;

use crate::alloc_stats;
use crate::alloc_stats::AllocStats;
use crate::recycle;
use crate::recycle::{Allocated, BlockLayout, Cache, Freed, MoveFinished, Realloc, Resize};
use crate::stats_alloc::StatsAlloc;

verus! {

/// Whether the cache handles blocks of a layout: small ones, aligned to 16 bytes at most.
pub open spec fn handled(layout: BlockLayout) -> bool {
    layout.align <= 16 && layout.size > 0 && layout.size <= 1024
}

/// Whether `class` is the class of a layout: its blocks have the smallest multiple of 16 bytes
/// that is large enough.
pub open spec fn in_class(layout: BlockLayout, class: int) -> bool {
    handled(layout) && 16 * class < layout.size <= 16 * class + 16
}

/// The layout that the system allocator sees.
pub open spec fn asked_of_system(layout: BlockLayout, class: int) -> BlockLayout {
    if handled(layout) {
        BlockLayout { size: (16 * class + 16) as usize, align: 16 }
    } else {
        layout
    }
}

/// The class of a layout, the layout of a class, and the size that the system allocator sees.
pub proof fn law_classes(
    layout: BlockLayout,
    class: int,
    r: Option<usize>,
    k: usize,
    canonical: BlockLayout,
    size: usize,
)
    requires
        call_ensures(recycle::class_of, (layout,), r),
        k < 64,
        call_ensures(recycle::canonical_layout, (k,), canonical),
        call_ensures(recycle::system_size, (layout,), size),
        handled(layout) ==> in_class(layout, class),
    ensures
        r is Some <==> handled(layout),
        r matches Some(c) ==> c == class && c < 64,
        canonical.size == 16 * k + 16,
        canonical.align == 16,
        size == asked_of_system(layout, class).size,
        size >= layout.size,
{
}

/// What is cached under a class.
pub open spec fn blocks_of(cache: Cache, class: int) -> Seq<u64> {
    cache.free_lists@[class]@
}

proof fn lemma_lists(cache: Cache, class: int)
    requires
        cache.wf(),
        0 <= class < 64,
    ensures
        cache@[class] == blocks_of(cache, class),
{
}

/// A block is taken from the cache if one of its class is there: the one that came last. Otherwise
/// the system allocator is asked. Other classes stay as they were, and what the cache retains is
/// known.
pub proof fn law_allocation(
    before: Cache,
    cache: &mut Cache,
    layout: BlockLayout,
    class: int,
    r: Allocated,
    other: int,
)
    requires
        before.wf(),
        *cache == before,
        call_ensures(recycle::alloc_block, (cache, layout), r),
        handled(layout) ==> in_class(layout, class),
        0 <= other < 64,
    ensures
        r is Cached <==> handled(layout) && blocks_of(before, class).len() > 0,
        r matches Allocated::Cached(ptr) ==> {
            &&& ptr == blocks_of(before, class)[blocks_of(before, class).len() - 1]
            &&& blocks_of(*final(cache), class).len() == blocks_of(before, class).len() - 1
            &&& forall|i: int|
                0 <= i < blocks_of(*final(cache), class).len() ==> #[trigger] blocks_of(
                    *final(cache),
                    class,
                )[i] == blocks_of(before, class)[i]
            &&& final(cache).retained == before.retained - (16 * class + 16)
        },
        r matches Allocated::System(asked) ==> {
            &&& asked == asked_of_system(layout, class)
            &&& final(cache).retained == before.retained
        },
        r is System || other != class ==> blocks_of(*final(cache), other) == blocks_of(
            before,
            other,
        ),
{
    lemma_lists(before, other);
    lemma_lists(*final(cache), other);
    let lists = before@;
    if handled(layout) {
        lemma_lists(before, class);
        lemma_lists(*final(cache), class);
        assert(recycle::spec_class_of(layout) == Some(class as nat));
        let list = lists[class];
        if list.len() > 0 {
            recycle::lemma_parked_update(lists, class as nat, list.drop_last(), 64);
            let len = list.len();
            assert((len - 1) * ((class + 1) * 16) == len * ((class + 1) * 16) - (class + 1) * 16)
                by (nonlinear_arith);
        }
    }
}

/// A cleared block comes from where any block comes from. All of one out of the cache is cleared,
/// and nothing of one from the system allocator, which does that itself.
pub proof fn law_cleared_allocation(
    a: &mut Cache,
    b: &mut Cache,
    layout: BlockLayout,
    class: int,
    r: Allocated,
    z: (Allocated, usize),
)
    requires
        a.wf(),
        *b == *a,
        call_ensures(recycle::alloc_block, (a, layout), r),
        call_ensures(recycle::alloc_zeroed, (b, layout), z),
        handled(layout) ==> in_class(layout, class),
    ensures
        z.0 == r,
        z.1 == if r is Cached {
            16 * class + 16
        } else {
            0
        },
        final(b)@ == final(a)@,
{
}

/// A block that is given up is parked if the cache handles it and has room for it, four mebibytes
/// in all. It is then the next one of its class to be handed out. Otherwise the system allocator
/// gets it back, with the layout that it was asked for.
pub proof fn law_release(
    before: Cache,
    cache: &mut Cache,
    ptr: u64,
    layout: BlockLayout,
    class: int,
    r: Freed,
    other: int,
    again: &mut Cache,
    request: BlockLayout,
    next: Allocated,
)
    requires
        before.wf(),
        *cache == before,
        call_ensures(recycle::dealloc, (cache, ptr, layout), r),
        handled(layout) ==> in_class(layout, class),
        0 <= other < 64,
        *again == *final(cache),
        in_class(request, class),
        call_ensures(recycle::alloc_block, (again, request), next),
    ensures
        r is Parked <==> handled(layout) && before.retained + 16 * class + 16 <= 4 * 1024 * 1024,
        r matches Freed::System(given) ==> given == asked_of_system(layout, class)
            && final(cache).retained == before.retained,
        r is Parked ==> {
            &&& next == Allocated::Cached(ptr)
            &&& final(again)@ == before@
            &&& blocks_of(*final(cache), class).len() == blocks_of(before, class).len() + 1
            &&& final(cache).retained == before.retained + 16 * class + 16
        },
        r is System || other != class ==> blocks_of(*final(cache), other) == blocks_of(
            before,
            other,
        ),
        final(cache).retained <= 4 * 1024 * 1024,
{
    lemma_lists(before, other);
    lemma_lists(*final(cache), other);
    let lists = before@;
    if handled(layout) {
        lemma_lists(before, class);
        lemma_lists(*final(cache), class);
        assert(recycle::spec_class_of(layout) == Some(class as nat));
        assert(recycle::spec_class_of(request) == Some(class as nat));
        let list = lists[class];
        recycle::lemma_parked_update(lists, class as nat, list.push(ptr), 64);
        let len = list.len();
        assert((len + 1) * ((class + 1) * 16) == len * ((class + 1) * 16) + (class + 1) * 16)
            by (nonlinear_arith);
        if r is Parked {
            recycle::law_parked_block_comes_back(
                lists,
                before.retained,
                ptr,
                layout,
                request,
            );
        }
    }
}

/// A new cache is empty.
pub proof fn law_new_cache(cache: Cache, class: int)
    requires
        call_ensures(<Cache as Default>::default, (), cache),
        0 <= class < 64,
    ensures
        cache.retained == 0,
        blocks_of(cache, class).len() == 0,
{
    lemma_lists(cache, class);
}

/// How a block is resized: by the system allocator if the cache handles neither size, not at all
/// if both are of one class, and otherwise by moving to a block of the new size.
pub proof fn law_resizing(
    a: &mut Cache,
    b: &mut Cache,
    layout: BlockLayout,
    new_size: usize,
    new_layout: BlockLayout,
    from: int,
    to: int,
    r: Resize,
    allocated: Allocated,
)
    requires
        a.wf(),
        *b == *a,
        new_layout.size == new_size,
        new_layout.align == layout.align,
        handled(layout) ==> in_class(layout, from),
        handled(new_layout) ==> in_class(new_layout, to),
        call_ensures(recycle::realloc, (a, layout, new_size), r),
        call_ensures(recycle::alloc_block, (b, new_layout), allocated),
    ensures
        r is Passthrough <==> !handled(layout) && !handled(new_layout),
        r is InPlace <==> handled(layout) && handled(new_layout) && from == to,
        r matches Resize::Move(x) ==> x == allocated && final(a)@ == final(b)@,
        !(r is Move) ==> final(a)@ == old(a)@,
{
}

/// Finishing a move: as much is copied as both blocks hold, and the old block is given up. If
/// there is no new block, the old one stays.
pub proof fn law_moving(
    a: &mut Cache,
    b: &mut Cache,
    ptr: u64,
    layout: BlockLayout,
    new_ptr: u64,
    new_size: usize,
    allocated: Allocated,
    r: MoveFinished,
    freed: Freed,
)
    requires
        a.wf(),
        *b == *a,
        call_ensures(
            recycle::finish_realloc,
            (a, ptr, layout, new_ptr, new_size, allocated),
            r,
        ),
        call_ensures(recycle::dealloc, (b, ptr, layout), freed),
    ensures
        new_ptr == 0 ==> r.copied == 0 && r.freed is None && final(a)@ == old(a)@ && r.result == (
        Realloc::Moved { ptr: 0, system_alloc: false, system_free: false }),
        new_ptr != 0 ==> {
            &&& r.copied <= layout.size && r.copied <= new_size
            &&& r.copied == layout.size || r.copied == new_size
            &&& r.freed == Some(freed)
            &&& final(a)@ == final(b)@
            &&& r.result == (Realloc::Moved {
                ptr: new_ptr,
                system_alloc: allocated is System,
                system_free: freed is System,
            })
        },
{
}

/// The live bytes count what the system allocator hands out and takes back, as it is asked for,
/// and nothing that the cache does. Each request is attributed to the current phase.
pub proof fn law_live_bytes(
    s: &mut StatsAlloc,
    cache: &mut Cache,
    stats: &mut AllocStats,
    layout: BlockLayout,
    class: int,
    r: Allocated,
    t: &mut StatsAlloc,
    cache2: &mut Cache,
    ptr: u64,
    freed: Freed,
    c1: &mut Cache,
    r1: Allocated,
    c2: &mut Cache,
    freed2: Freed,
    rec: &mut AllocStats,
)
    requires
        cache.wf(),
        cache2.wf(),
        stats.wf(),
        handled(layout) ==> in_class(layout, class),
        call_ensures(StatsAlloc::alloc_block, (s, cache, stats, layout), r),
        call_ensures(StatsAlloc::dealloc, (t, cache2, ptr, layout), freed),
        *c1 == *cache,
        call_ensures(recycle::alloc_block, (c1, layout), r1),
        *c2 == *cache2,
        call_ensures(recycle::dealloc, (c2, ptr, layout), freed2),
        *rec == *stats,
        call_ensures(alloc_stats::record, (rec, layout.size), ()),
    ensures
        r == r1 && final(cache)@ == final(c1)@,
        freed == freed2 && final(cache2)@ == final(c2)@,
        final(s).alloc_size == if r is System {
            old(s).alloc_size.wrapping_add(asked_of_system(layout, class).size)
        } else {
            old(s).alloc_size
        },
        final(t).alloc_size == if freed is System {
            old(t).alloc_size.wrapping_sub(asked_of_system(layout, class).size)
        } else {
            old(t).alloc_size
        },
        final(stats).count@ == final(rec).count@,
        final(stats).bytes@ == final(rec).bytes@,
        final(stats).phase == old(stats).phase,
{
}

/// The same for cleared blocks and for resized ones. A block that the system allocator resizes
/// changes the live bytes by the difference, and only what a block grows by is attributed.
pub proof fn law_live_bytes_of_resized_blocks(
    s: &mut StatsAlloc,
    cache: &mut Cache,
    stats: &mut AllocStats,
    layout: BlockLayout,
    class: int,
    z: (Allocated, usize),
    c1: &mut Cache,
    z1: (Allocated, usize),
    t: &mut StatsAlloc,
    cache2: &mut Cache,
    stats2: &mut AllocStats,
    new_size: usize,
    how: Resize,
    c2: &mut Cache,
    how2: Resize,
    rec: &mut AllocStats,
    grown: usize,
)
    requires
        cache.wf(),
        cache2.wf(),
        stats.wf(),
        stats2.wf(),
        handled(layout) ==> in_class(layout, class),
        call_ensures(StatsAlloc::alloc_zeroed, (s, cache, stats, layout), z),
        *c1 == *cache,
        call_ensures(recycle::alloc_zeroed, (c1, layout), z1),
        call_ensures(StatsAlloc::realloc, (t, cache2, stats2, layout, new_size), how),
        *c2 == *cache2,
        call_ensures(recycle::realloc, (c2, layout, new_size), how2),
        *rec == *stats2,
        grown == if new_size > layout.size {
            new_size - layout.size
        } else {
            0
        },
        call_ensures(alloc_stats::record, (rec, grown), ()),
    ensures
        z == z1 && final(cache)@ == final(c1)@,
        how == how2 && final(cache2)@ == final(c2)@,
        final(s).alloc_size == if z.0 is System {
            old(s).alloc_size.wrapping_add(asked_of_system(layout, class).size)
        } else {
            old(s).alloc_size
        },
        !(how is Passthrough) ==> final(t).alloc_size == old(t).alloc_size,
        how is Passthrough ==> {
            let size = old(t).alloc_size + new_size - layout.size;
            ||| final(t).alloc_size == size
            ||| final(t).alloc_size == size + (usize::MAX + 1)
            ||| final(t).alloc_size == size - (usize::MAX + 1)
        },
        final(stats2).count@ == final(rec).count@,
        final(stats2).bytes@ == final(rec).bytes@,
{
}

/// The live bytes after a move: what the new block took of the system allocator, less what the old
/// one gave back.
pub proof fn law_live_bytes_of_moved_blocks(
    t: &mut StatsAlloc,
    cache: &mut Cache,
    ptr: u64,
    layout: BlockLayout,
    new_ptr: u64,
    new_size: usize,
    allocated: Allocated,
    r: MoveFinished,
    c: &mut Cache,
    r2: MoveFinished,
    from: int,
    to: int,
    new_layout: BlockLayout,
)
    requires
        cache.wf(),
        new_layout.size == new_size,
        new_layout.align == layout.align,
        handled(layout) ==> in_class(layout, from),
        handled(new_layout) ==> in_class(new_layout, to),
        call_ensures(
            StatsAlloc::finish_realloc,
            (t, cache, ptr, layout, new_ptr, new_size, allocated),
            r,
        ),
        *c == *cache,
        call_ensures(
            recycle::finish_realloc,
            (c, ptr, layout, new_ptr, new_size, allocated),
            r2,
        ),
    ensures
        r == r2 && final(cache)@ == final(c)@,
        new_ptr == 0 ==> final(t).alloc_size == old(t).alloc_size,
        new_ptr != 0 ==> {
            let taken = if allocated is System {
                asked_of_system(new_layout, to).size
            } else {
                0
            };
            let given = if r.freed matches Some(f) && f is System {
                asked_of_system(layout, from).size
            } else {
                0
            };
            final(t).alloc_size == old(t).alloc_size.wrapping_add(taken).wrapping_sub(given)
        },
{
}

/// A request is counted in the current phase, and only while tracking is on.
pub proof fn law_attribution(
    fresh: AllocStats,
    e: &mut AllocStats,
    before: AllocStats,
    stats: &mut AllocStats,
    size: usize,
    p: int,
)
    requires
        call_ensures(<AllocStats as Default>::default, (), fresh),
        call_ensures(alloc_stats::enable, (e,), ()),
        before.wf(),
        *stats == before,
        call_ensures(alloc_stats::record, (stats, size), ()),
        0 <= p < 1024,
    ensures
        !fresh.tracking && fresh.phase == 0 && fresh.count@[p] == 0 && fresh.bytes@[p] == 0,
        fresh.count@.len() == 1024,
        final(e).tracking && final(e).phase == old(e).phase && final(e).count@ == old(e).count@
            && final(e).bytes@ == old(e).bytes@,
        final(stats).count@[p] == if before.tracking && p == before.phase {
            before.count@[p].wrapping_add(1)
        } else {
            before.count@[p]
        },
        final(stats).bytes@[p] == if before.tracking && p == before.phase {
            before.bytes@[p].wrapping_add(size)
        } else {
            before.bytes@[p]
        },
        final(stats).phase == before.phase,
        final(stats).tracking == before.tracking,
{
}

/// Phases nest: entering one returns what it displaced, and restoring that puts it back. A phase
/// that has no bucket counts as none. Nothing happens while tracking is off.
pub proof fn law_phases(
    before: AllocStats,
    stats: &mut AllocStats,
    phase: usize,
    displaced: usize,
    back: &mut AllocStats,
)
    requires
        before.wf(),
        *stats == before,
        call_ensures(alloc_stats::set_phase, (stats, phase), displaced),
        *back == *final(stats),
        call_ensures(alloc_stats::restore_phase, (back, displaced), ()),
    ensures
        before.tracking ==> {
            &&& displaced == before.phase
            &&& final(stats).phase == if phase < 1024 {
                phase
            } else {
                0
            }
        },
        !before.tracking ==> displaced == 0 && final(stats).phase == before.phase,
        final(back).phase == before.phase,
        final(back).count@ == before.count@,
        final(back).bytes@ == before.bytes@,
        final(back).tracking == before.tracking,
{
}

} // verus!
