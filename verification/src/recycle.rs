//! Per-thread recycling cache for the small, short-lived blocks the JIT compilers churn through.
//!
//! A block that is freed and then immediately requested again at the same size does not need
//! any work from the system allocator, so freed blocks are parked on a per-size-class free list
//! and handed straight back out. The effect is a compile-scoped arena without any lifetime
//! plumbing through the compiler.
//!
//! What keeps this sound:
//!
//! * Only layouts with `align <= GRANULE` and `size <= MAX_RECYCLE_SIZE` participate. Everything
//!   else goes straight to the system allocator with its original layout.
//! * A participating layout is *always* turned into its canonical layout (`size` rounded up to a
//!   multiple of `GRANULE`, `align == GRANULE`) before it reaches the system allocator, on both
//!   the allocate and the free side. So every cached block is exactly its class's size and
//!   alignment and can serve any request in that class, and the layout the system allocator sees
//!   on free is the one it saw on allocate.
//! * Retention is capped, so an unusual allocation pattern cannot turn the cache into a leak.
//!
//! Blocks are known by their addresses here. Each function says what to ask of the system
//! allocator and what to copy or clear; the caller does that.

use vstd::prelude::*;

verus! {

/// Size and alignment granularity of the cache.
pub const GRANULE: usize = 16;

/// Largest request the cache serves.
pub const MAX_RECYCLE_SIZE: usize = 1024;

/// Number of size classes.
pub const NUM_CLASSES: usize = 64;

/// Upper bound on bytes parked in one thread's cache. Past it, frees go back to the system
/// allocator so that a workload which allocates in a lopsided pattern cannot grow the cache
/// without bound.
pub const MAX_RETAINED: usize = 4194304;

/// Size and alignment of a block.
#[derive(Clone, Copy, Debug, PartialEq, Eq, Structural)]
pub struct BlockLayout {
    pub size: usize,
    pub align: usize,
}

/// The size class serving `layout`, or None if the cache does not handle it.
pub open spec fn spec_class_of(layout: BlockLayout) -> Option<nat> {
    if layout.align <= 16 && 1 <= layout.size <= 1024 {
        Some(((layout.size - 1) / 16) as nat)
    } else {
        None
    }
}

/// The layout every block in `class` is allocated and freed with.
pub open spec fn spec_canonical_layout(class: nat) -> BlockLayout {
    BlockLayout { size: ((class + 1) * 16) as usize, align: 16 }
}

/// The layout that the system allocator sees for `layout`.
pub open spec fn system_layout(layout: BlockLayout) -> BlockLayout {
    match spec_class_of(layout) {
        Some(class) => spec_canonical_layout(class),
        None => layout,
    }
}

/// A per-thread cache of free blocks.
pub struct Cache {
    /// The free blocks of each size class, the one freed last at the end.
    pub free_lists: Vec<Vec<u64>>,
    /// Bytes currently parked across all free lists.
    pub retained: usize,
}

/// The free blocks of each size class.
pub open spec fn lists_of(lists: Seq<Vec<u64>>) -> Seq<Seq<u64>> {
    lists.map_values(|list: Vec<u64>| list@)
}

/// Bytes parked in the first `n` classes.
pub open spec fn parked(lists: Seq<Seq<u64>>, n: nat) -> nat
    decreases n,
{
    if n == 0 {
        0
    } else {
        parked(lists, (n - 1) as nat) + lists[n - 1].len() * (n * 16)
    }
}

/// Adding a block to a class, or taking one from it, changes what is parked by the size of the
/// class.
pub proof fn lemma_parked_update(lists: Seq<Seq<u64>>, class: nat, list: Seq<u64>, n: nat)
    requires
        n <= lists.len(),
        class < lists.len(),
    ensures
        parked(lists.update(class as int, list), n) == parked(lists, n) + if class < n {
            list.len() * ((class + 1) * 16) - lists[class as int].len() * ((class + 1) * 16)
        } else {
            0
        },
    decreases n,
{
    if n > 0 {
        lemma_parked_update(lists, class, list, (n - 1) as nat);
    }
}

impl View for Cache {
    type V = Seq<Seq<u64>>;

    /// The free blocks of each size class.
    open spec fn view(&self) -> Seq<Seq<u64>> {
        lists_of(self.free_lists@)
    }
}

/// What is asked of the system allocator to get a block.
#[derive(Clone, Copy, Debug, PartialEq, Eq, Structural)]
pub enum Allocated {
    /// This block, out of the cache.
    Cached(u64),
    /// A block of this layout, from the system allocator.
    System(BlockLayout),
}

/// What becomes of a block that is given up.
#[derive(Clone, Copy, Debug, PartialEq, Eq, Structural)]
pub enum Freed {
    /// It is parked in the cache.
    Parked,
    /// It goes back to the system allocator, with this layout.
    System(BlockLayout),
}

impl Default for Cache {
    fn default() -> (r: Self)
        ensures
            r.wf(),
            r.retained == 0,
            forall|c: int| 0 <= c < NUM_CLASSES ==> #[trigger] r@[c] == Seq::<u64>::empty(),
    {
        let mut free_lists: Vec<Vec<u64>> = Vec::new();
        let mut idx: usize = 0;
        assert(parked(lists_of(free_lists@), 0) == 0);
        while idx < NUM_CLASSES
            invariant
                idx <= NUM_CLASSES,
                free_lists@.len() == idx,
                forall|c: int| 0 <= c < idx ==> (#[trigger] free_lists@[c])@ == Seq::<u64>::empty(),
            decreases NUM_CLASSES - idx,
        {
            free_lists.push(Vec::new());
            idx = idx + 1;
        }
        let r = Cache { free_lists, retained: 0 };
        proof {
            lemma_nothing_parked(r@, NUM_CLASSES as nat);
        }
        r
    }
}

proof fn lemma_nothing_parked(lists: Seq<Seq<u64>>, n: nat)
    requires
        n <= lists.len(),
        forall|c: int| 0 <= c < lists.len() ==> #[trigger] lists[c] == Seq::<u64>::empty(),
    ensures
        parked(lists, n) == 0,
    decreases n,
{
    if n > 0 {
        lemma_nothing_parked(lists, (n - 1) as nat);
        assert(lists[n - 1] == Seq::<u64>::empty());
    }
}

impl Cache {
    /// The cache knows how much it retains, and that is capped.
    pub open spec fn wf(&self) -> bool {
        &&& self.free_lists@.len() == NUM_CLASSES
        &&& self.retained == parked(self@, NUM_CLASSES as nat)
        &&& self.retained <= MAX_RETAINED
    }

    /// Take a block out of `class`'s free list, or None if it is empty.
    fn pop(&mut self, class: usize) -> (r: Option<u64>)
        requires
            old(self).wf(),
            class < NUM_CLASSES,
        ensures
            final(self).wf(),
            match r {
                Some(ptr) => {
                    &&& old(self)@[class as int].len() > 0
                    &&& ptr == old(self)@[class as int].last()
                    &&& final(self)@ == old(self)@.update(
                        class as int,
                        old(self)@[class as int].drop_last(),
                    )
                    &&& final(self).retained == old(self).retained - (class + 1) * 16
                },
                None => {
                    &&& old(self)@[class as int].len() == 0
                    &&& final(self)@ == old(self)@
                    &&& final(self).retained == old(self).retained
                },
            },
    {
        let ghost before = self@;
        let head: Option<u64> = self.free_lists[class].pop();
        match head {
            Some(ptr) => {
                proof {
                    let list = before[class as int].drop_last();
                    lemma_parked_update(before, class as nat, list, NUM_CLASSES as nat);
                    assert(self@ =~= before.update(class as int, list));
                    let len = before[class as int].len();
                    let size = (class + 1) * 16;
                    assert((len - 1) * size == len * size - size) by (nonlinear_arith);
                }
                self.retained = self.retained - canonical_layout(class).size;
                Some(ptr)
            },
            None => {
                assert(self@ =~= before);
                None
            },
        }
    }

    /// Park `ptr` on `class`'s free list. Returns false if the cache is full and the caller
    /// should free the block for real.
    fn push(&mut self, class: usize, ptr: u64) -> (r: bool)
        requires
            old(self).wf(),
            class < NUM_CLASSES,
        ensures
            final(self).wf(),
            r == (old(self).retained + (class + 1) * 16 <= MAX_RETAINED),
            final(self)@ == if r {
                old(self)@.update(class as int, old(self)@[class as int].push(ptr))
            } else {
                old(self)@
            },
            final(self).retained == if r {
                old(self).retained + (class + 1) * 16
            } else {
                old(self).retained as int
            },
    {
        let ghost before = self@;
        let size: usize = canonical_layout(class).size;
        let held: usize = self.retained;
        if held + size > MAX_RETAINED {
            return false;
        }
        self.free_lists[class].push(ptr);
        proof {
            let list = before[class as int].push(ptr);
            lemma_parked_update(before, class as nat, list, NUM_CLASSES as nat);
            assert(self@ =~= before.update(class as int, list));
            let len = before[class as int].len();
            assert((len + 1) * ((class + 1) * 16) == len * ((class + 1) * 16) + (class + 1) * 16)
                by (nonlinear_arith);
        }
        self.retained = held + size;
        true
    }
}

/// The size class serving `layout`, or None if the cache does not handle it.
pub fn class_of(layout: BlockLayout) -> (r: Option<usize>)
    ensures
        match r {
            Some(class) => class < NUM_CLASSES && spec_class_of(layout) == Some(class as nat),
            None => spec_class_of(layout) is None,
        },
{
    let size: usize = layout.size;
    if layout.align <= GRANULE && size.wrapping_sub(1) < MAX_RECYCLE_SIZE {
        Some((size - 1) / GRANULE)
    } else {
        None
    }
}

/// The layout every block in `class` is allocated and freed with.
pub fn canonical_layout(class: usize) -> (r: BlockLayout)
    requires
        class < NUM_CLASSES,
    ensures
        r == spec_canonical_layout(class as nat),
        r.size == (class + 1) * 16,
{
    BlockLayout { size: (class + 1) * GRANULE, align: GRANULE }
}

/// The cache after a block of a layout was allocated.
pub open spec fn after_alloc(lists: Seq<Seq<u64>>, layout: BlockLayout) -> Seq<Seq<u64>> {
    match spec_class_of(layout) {
        Some(class) => if lists[class as int].len() > 0 {
            lists.update(class as int, lists[class as int].drop_last())
        } else {
            lists
        },
        None => lists,
    }
}

/// Where a block of a layout comes from: the block of its class that was freed last, if there is
/// one.
pub open spec fn alloc_from(lists: Seq<Seq<u64>>, layout: BlockLayout) -> Allocated {
    match spec_class_of(layout) {
        Some(class) => if lists[class as int].len() > 0 {
            Allocated::Cached(lists[class as int].last())
        } else {
            Allocated::System(spec_canonical_layout(class))
        },
        None => Allocated::System(layout),
    }
}

/// Allocate `layout`, preferring a cached block.
pub fn alloc_block(cache: &mut Cache, layout: BlockLayout) -> (r: Allocated)
    requires
        old(cache).wf(),
    ensures
        final(cache).wf(),
        r == alloc_from(old(cache)@, layout),
        final(cache)@ == after_alloc(old(cache)@, layout),
{
    match class_of(layout) {
        Some(class) => match cache.pop(class) {
            Some(ptr) => Allocated::Cached(ptr),
            None => Allocated::System(canonical_layout(class)),
        },
        None => Allocated::System(layout),
    }
}

/// As [`alloc_block`], for a block that holds zeros. For a block out of the cache, the second
/// part says how many bytes of it to clear: all of them. The system allocator clears its own.
pub fn alloc_zeroed(cache: &mut Cache, layout: BlockLayout) -> (r: (Allocated, usize))
    requires
        old(cache).wf(),
    ensures
        final(cache).wf(),
        r.0 == alloc_from(old(cache)@, layout),
        r.1 == if r.0 is Cached {
            system_layout(layout).size
        } else {
            0
        },
        final(cache)@ == after_alloc(old(cache)@, layout),
{
    let allocated = alloc_block(cache, layout);
    match allocated {
        Allocated::Cached(_) => (allocated, system_size(layout)),
        Allocated::System(_) => (allocated, 0),
    }
}

/// Whether a block of a layout can be parked.
pub open spec fn can_park(retained: usize, layout: BlockLayout) -> bool {
    spec_class_of(layout) is Some && retained + system_layout(layout).size <= MAX_RETAINED
}

/// The cache after a block of a layout was given up.
pub open spec fn after_dealloc(
    lists: Seq<Seq<u64>>,
    retained: usize,
    ptr: u64,
    layout: BlockLayout,
) -> Seq<Seq<u64>> {
    match spec_class_of(layout) {
        Some(class) => if can_park(retained, layout) {
            lists.update(class as int, lists[class as int].push(ptr))
        } else {
            lists
        },
        None => lists,
    }
}

/// What becomes of a block of a layout that is given up.
pub open spec fn freed_to(retained: usize, layout: BlockLayout) -> Freed {
    if can_park(retained, layout) {
        Freed::Parked
    } else {
        Freed::System(system_layout(layout))
    }
}

/// Free `ptr`, which was allocated with `layout`, parking it in the cache when possible.
pub fn dealloc(cache: &mut Cache, ptr: u64, layout: BlockLayout) -> (r: Freed)
    requires
        old(cache).wf(),
    ensures
        final(cache).wf(),
        r == freed_to(old(cache).retained, layout),
        final(cache)@ == after_dealloc(old(cache)@, old(cache).retained, ptr, layout),
{
    match class_of(layout) {
        Some(class) => {
            if cache.push(class, ptr) {
                Freed::Parked
            } else {
                Freed::System(canonical_layout(class))
            }
        },
        None => Freed::System(layout),
    }
}

/// How a block is resized.
#[derive(Clone, Copy, Debug, PartialEq, Eq, Structural)]
pub enum Resize {
    /// The block already sits in the class that serves the new size, so the same block is used
    /// untouched. This is the common case for the first few pushes into a small vector.
    InPlace,
    /// A new block is needed, from here. Once it is there, call [`finish_realloc`].
    Move(Allocated),
    /// Neither the old nor the new size is cacheable; the system allocator resizes the block,
    /// which it can often do in place.
    Passthrough,
}

/// Result of a `realloc` that the cache handled itself.
#[derive(Clone, Copy, Debug, PartialEq, Eq, Structural)]
pub enum Realloc {
    /// The same block is returned untouched.
    InPlace(u64),
    /// A new block was taken from the cache or the system allocator and the old one released.
    /// `system_alloc`/`system_free` say which side of that exchange touched the system
    /// allocator.
    Moved { ptr: u64, system_alloc: bool, system_free: bool },
    /// The caller should fall through to the system allocator.
    Passthrough,
}

/// How a block of `layout` gets `new_size` bytes.
pub open spec fn resize_how(
    lists: Seq<Seq<u64>>,
    layout: BlockLayout,
    new_size: usize,
) -> Resize {
    let new_layout = BlockLayout { size: new_size, align: layout.align };
    if spec_class_of(layout) is None && spec_class_of(new_layout) is None {
        Resize::Passthrough
    } else if spec_class_of(layout) == spec_class_of(new_layout) {
        Resize::InPlace
    } else {
        Resize::Move(alloc_from(lists, new_layout))
    }
}

/// Decide how a block of `layout` gets `new_size` bytes.
pub fn realloc(cache: &mut Cache, layout: BlockLayout, new_size: usize) -> (r: Resize)
    requires
        old(cache).wf(),
    ensures
        final(cache).wf(),
        r == resize_how(old(cache)@, layout, new_size),
        final(cache)@ == if r is Move {
            after_alloc(old(cache)@, (BlockLayout { size: new_size, align: layout.align }))
        } else {
            old(cache)@
        },
{
    let new_layout = BlockLayout { size: new_size, align: layout.align };
    let old_class: Option<usize> = class_of(layout);
    let new_class: Option<usize> = class_of(new_layout);
    match (old_class, new_class) {
        (None, None) => Resize::Passthrough,
        (Some(a), Some(b)) => {
            if a == b {
                Resize::InPlace
            } else {
                Resize::Move(alloc_block(cache, new_layout))
            }
        },
        _ => Resize::Move(alloc_block(cache, new_layout)),
    }
}

/// What finishing a move comes to.
#[derive(Clone, Copy, Debug, PartialEq, Eq, Structural)]
pub struct MoveFinished {
    pub result: Realloc,
    /// Bytes to copy from the old block to the new one, before the old one is freed.
    pub copied: usize,
    /// What becomes of the old block. None if there is no new block, and the old one stays.
    pub freed: Option<Freed>,
}

/// Finish moving the block `ptr` of `layout` to `new_ptr`, which has `new_size` bytes.
/// `allocated` is where `new_ptr` came from. `new_ptr` is 0 if there was no memory.
pub fn finish_realloc(
    cache: &mut Cache,
    ptr: u64,
    layout: BlockLayout,
    new_ptr: u64,
    new_size: usize,
    allocated: Allocated,
) -> (r: MoveFinished)
    requires
        old(cache).wf(),
    ensures
        final(cache).wf(),
        new_ptr == 0 ==> {
            &&& r.result == (Realloc::Moved { ptr: 0, system_alloc: false, system_free: false })
            &&& r.copied == 0
            &&& r.freed is None
            &&& final(cache)@ == old(cache)@
        },
        new_ptr != 0 ==> {
            &&& r.freed == Some(freed_to(old(cache).retained, layout))
            &&& r.result == (Realloc::Moved {
                ptr: new_ptr,
                system_alloc: allocated is System,
                system_free: freed_to(old(cache).retained, layout) is System,
            })
            &&& r.copied == if layout.size <= new_size {
                layout.size
            } else {
                new_size
            }
            &&& final(cache)@ == after_dealloc(old(cache)@, old(cache).retained, ptr, layout)
        },
{
    if new_ptr == 0 {
        return MoveFinished {
            result: Realloc::Moved { ptr: new_ptr, system_alloc: false, system_free: false },
            copied: 0,
            freed: None,
        };
    }
    let copied: usize = if layout.size <= new_size {
        layout.size
    } else {
        new_size
    };
    let freed = dealloc(cache, ptr, layout);
    let system_alloc: bool = match allocated {
        Allocated::System(_) => true,
        Allocated::Cached(_) => false,
    };
    let system_free: bool = match freed {
        Freed::System(_) => true,
        Freed::Parked => false,
    };
    MoveFinished {
        result: Realloc::Moved { ptr: new_ptr, system_alloc, system_free },
        copied,
        freed: Some(freed),
    }
}

/// Bytes the cache asks the system allocator for on behalf of `layout`, which is what the
/// live-bytes accounting has to add and subtract.
pub fn system_size(layout: BlockLayout) -> (r: usize)
    ensures
        r == system_layout(layout).size,
{
    match class_of(layout) {
        Some(class) => canonical_layout(class).size,
        None => layout.size,
    }
}

// ---------------------------------------------------------------------------
// Laws
// ---------------------------------------------------------------------------
/// Every block of a class can serve any request in that class: it is large enough, and aligned
/// well enough. What is not cached reaches the system allocator as it is.
pub proof fn law_block_serves_request(layout: BlockLayout)
    ensures
        system_layout(layout).size >= layout.size,
        system_layout(layout).align >= layout.align,
        spec_class_of(layout) matches Some(class) ==> {
            &&& class < NUM_CLASSES
            &&& system_layout(layout).size == (class + 1) * 16
            &&& system_layout(layout).size < layout.size + 16
        },
        spec_class_of(layout) is None ==> system_layout(layout) == layout,
{
}

/// The layout the system allocator sees when a block is freed is the one it saw when the block
/// was allocated.
pub proof fn law_freed_as_allocated(lists: Seq<Seq<u64>>, retained: usize, layout: BlockLayout)
    ensures
        alloc_from(lists, layout) matches Allocated::System(asked) ==> asked == system_layout(layout),
        freed_to(retained, layout) matches Freed::System(given) ==> given == system_layout(layout),
{
}

/// A block that is parked is the next one handed out in its class, and taking it out again
/// leaves the cache as it was.
pub proof fn law_parked_block_comes_back(
    lists: Seq<Seq<u64>>,
    retained: usize,
    ptr: u64,
    layout: BlockLayout,
    request: BlockLayout,
)
    requires
        lists.len() == NUM_CLASSES,
        can_park(retained, layout),
        spec_class_of(request) == spec_class_of(layout),
    ensures
        alloc_from(after_dealloc(lists, retained, ptr, layout), request) == Allocated::Cached(ptr),
        after_alloc(after_dealloc(lists, retained, ptr, layout), request) == lists,
{
    let class = spec_class_of(layout).unwrap() as int;
    let after = after_dealloc(lists, retained, ptr, layout);
    assert(after[class].drop_last() =~= lists[class]);
    assert(after_alloc(after, request) =~= lists);
}

} // verus!
