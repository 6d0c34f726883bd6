//! Per-phase allocation accounting.

use vstd::prelude::*;

verus! {

/// Number of buckets allocations can be attributed to. Indexed by the number of the enclosing
/// compile phase, so this has to stay above the number of phases; [`set_phase`] falls back to
/// [`PHASE_NONE`] if that stops being true.
pub const PHASES: usize = 1024;

/// Bucket for everything allocated outside a phase that named itself.
pub const PHASE_NONE: usize = 0;

/// What has been attributed to each phase.
pub struct AllocStats {
    /// Whether the allocator should attribute allocations at all.
    pub tracking: bool,
    /// Bucket allocations are attributed to right now. Phases set this on entry and restore
    /// the enclosing value on exit, so an allocation lands in the innermost phase that claimed
    /// it.
    pub phase: usize,
    /// Number of allocations attributed to each bucket.
    pub count: Vec<usize>,
    /// Bytes requested by the allocations attributed to each bucket. This counts every request,
    /// including memory later freed.
    pub bytes: Vec<usize>,
}

impl AllocStats {
    /// There is a bucket for every phase, and the current phase has one.
    pub open spec fn wf(&self) -> bool {
        &&& self.phase < PHASES
        &&& self.count@.len() == PHASES
        &&& self.bytes@.len() == PHASES
    }
}

impl Default for AllocStats {
    fn default() -> (r: Self)
        ensures
            r.wf(),
            !r.tracking,
            r.phase == PHASE_NONE,
            r.count@ == Seq::new(PHASES as nat, |i: int| 0usize),
            r.bytes@ == Seq::new(PHASES as nat, |i: int| 0usize),
    {
        let count: Vec<usize> = vec![0usize; PHASES];
        let bytes: Vec<usize> = vec![0usize; PHASES];
        assert(count@ =~= Seq::new(PHASES as nat, |i: int| 0usize));
        assert(bytes@ =~= Seq::new(PHASES as nat, |i: int| 0usize));
        AllocStats { tracking: false, phase: PHASE_NONE, count, bytes }
    }
}

/// Turn attribution on. Never undone: the counters are read once at exit.
pub fn enable(stats: &mut AllocStats)
    requires
        old(stats).wf(),
    ensures
        final(stats).wf(),
        *final(stats) == (AllocStats { tracking: true, ..*old(stats) }),
{
    stats.tracking = true;
}

/// The bucket of a phase.
pub open spec fn bucket_of(phase: usize) -> usize {
    if phase < PHASES {
        phase
    } else {
        PHASE_NONE
    }
}

/// Point subsequent allocations at `phase`, returning the bucket it displaced.
pub fn set_phase(stats: &mut AllocStats, phase: usize) -> (r: usize)
    requires
        old(stats).wf(),
    ensures
        final(stats).wf(),
        r < PHASES,
        r == displaced(*old(stats)),
        *final(stats) == phase_set(*old(stats), phase),
{
    if !stats.tracking {
        return PHASE_NONE;
    }
    let displaced: usize = stats.phase;
    stats.phase = if phase < PHASES {
        phase
    } else {
        PHASE_NONE
    };
    displaced
}

/// Restore the bucket [`set_phase`] displaced.
pub fn restore_phase(stats: &mut AllocStats, phase: usize)
    requires
        old(stats).wf(),
        phase < PHASES,
    ensures
        final(stats).wf(),
        *final(stats) == phase_restored(*old(stats), phase),
{
    if stats.tracking {
        stats.phase = phase;
    }
}

/// One request for `size` bytes was attributed to the current phase, if anything is attributed.
pub open spec fn recorded(before: AllocStats, after: AllocStats, size: usize) -> bool {
    let p = before.phase as int;
    &&& after.tracking == before.tracking
    &&& after.phase == before.phase
    &&& if before.tracking {
        &&& after.count@ == before.count@.update(p, before.count@[p].wrapping_add(1))
        &&& after.bytes@ == before.bytes@.update(p, before.bytes@[p].wrapping_add(size))
    } else {
        after == before
    }
}

/// Attribute one allocation of `size` bytes to the current phase. Counters wrap around.
pub fn record(stats: &mut AllocStats, size: usize)
    requires
        old(stats).wf(),
    ensures
        final(stats).wf(),
        recorded(*old(stats), *final(stats), size),
{
    if stats.tracking {
        let phase: usize = stats.phase;
        stats.count[phase] = stats.count[phase].wrapping_add(1);
        stats.bytes[phase] = stats.bytes[phase].wrapping_add(size);
    }
}

/// The accounting after [`set_phase`].
pub open spec fn phase_set(stats: AllocStats, phase: usize) -> AllocStats {
    if stats.tracking {
        AllocStats { phase: bucket_of(phase), ..stats }
    } else {
        stats
    }
}

/// What [`set_phase`] returns.
pub open spec fn displaced(stats: AllocStats) -> usize {
    if stats.tracking {
        stats.phase
    } else {
        PHASE_NONE
    }
}

/// The accounting after [`restore_phase`].
pub open spec fn phase_restored(stats: AllocStats, phase: usize) -> AllocStats {
    if stats.tracking {
        AllocStats { phase, ..stats }
    } else {
        stats
    }
}

/// Phases nest: whatever a phase recorded meanwhile, restoring what it displaced puts the
/// enclosing phase back in place. A phase that recorded nothing leaves no trace.
pub proof fn law_phases_nest(outer: AllocStats, phase: usize, inner: AllocStats)
    requires
        inner.tracking == outer.tracking,
        inner.phase == phase_set(outer, phase).phase,
    ensures
        phase_restored(inner, displaced(outer)).phase == outer.phase,
        phase_restored(phase_set(outer, phase), displaced(outer)) == outer,
{
}

} // verus!
