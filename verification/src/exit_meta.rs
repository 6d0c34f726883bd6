//! Compile-time-known interpreter state for side exits, kept off the code region.
//!
//! Every side exit has to hand the interpreter a pc, an ISEQ and a stack pointer, and a
//! guard exit additionally names the ISEQ and instruction index it is re-profiling. All of
//! that is known when the exit is compiled. So the constants live here, one [`ExitMeta`]
//! per exit, and the exit's code only loads the *index* of its record. The table is
//! indexed rather than pointed into so that pushing to it may reallocate freely.

use vstd::prelude::*;

use crate::cruby::{IseqPtr, VALUE};
use crate::growth;

verus! {

/// Interpreter state a side exit restores, plus its optional recompile trigger.
#[derive(Clone, Copy, Debug, Eq, Hash, PartialEq, Structural)]
pub struct ExitMeta {
    /// The pc the interpreter resumes at.
    pub pc: u64,
    /// The ISEQ of the exiting frame. Also the ISEQ that owns the profile entry `insn_idx`
    /// refers to.
    pub iseq: IseqPtr,
    /// The compiled unit to invalidate to force a recompile. For an exit out of inlined
    /// code this is the outer ISEQ the callee was folded into, so it is not necessarily
    /// `iseq`. Null when this exit does not profile-and-recompile.
    pub compiled_iseq: IseqPtr,
    /// The height of the Ruby stack the exit wrote out, in slots.
    pub sp_offset: u32,
    /// Instruction index within `iseq` whose re-profiling gates the recompile.
    /// Meaningless when `compiled_iseq` is null.
    pub insn_idx: u32,
}

/// `after` is where `locate` finds the ISEQ `before`. Null stays null.
pub open spec fn located_iseq<F: Fn(VALUE) -> VALUE>(
    before: IseqPtr,
    locate: F,
    after: IseqPtr,
) -> bool {
    if before == 0 {
        after == 0
    } else {
        call_ensures(locate, (VALUE(before),), VALUE(after))
    }
}

impl ExitMeta {
    /// Update the ISEQ pointers after GC compaction. `locate` says where an object has
    /// gone. `pc` points into memory that compaction does not move, so it needs no fixup.
    pub fn update_references<F: Fn(VALUE) -> VALUE>(&mut self, locate: F)
        requires
            old(self).iseq != 0 ==> call_requires(locate, (VALUE(old(self).iseq),)),
            old(self).compiled_iseq != 0 ==> call_requires(
                locate,
                (VALUE(old(self).compiled_iseq),),
            ),
        ensures
            located_iseq(old(self).iseq, locate, final(self).iseq),
            located_iseq(old(self).compiled_iseq, locate, final(self).compiled_iseq),
            *final(self) == (ExitMeta {
                iseq: final(self).iseq,
                compiled_iseq: final(self).compiled_iseq,
                ..*old(self)
            }),
    {
        if self.iseq != 0 {
            self.iseq = locate(VALUE(self.iseq)).0;
        }
        if self.compiled_iseq != 0 {
            self.compiled_iseq = locate(VALUE(self.compiled_iseq)).0;
        }
    }
}

/// Records to make room for each time the table fills up. The table only ever grows, so
/// doubling would leave up to as many bytes unused as used. Growing in fixed steps caps
/// the slack, and the extra copying only happens while compiling.
pub const GROWTH_STEP: usize = 4096;

/// Add `meta` to the table and return the index side-exit code loads. Records are never
/// freed.
///
/// The record's ISEQs have to stay alive for as long as the record does, which is forever:
/// they are added to `roots`, which the GC marks.
pub fn intern(metas: &mut Vec<ExitMeta>, roots: &mut Vec<IseqPtr>, meta: ExitMeta) -> (idx: u32)
    requires
        old(metas)@.len() <= u32::MAX,
    ensures
        idx == old(metas)@.len(),
        final(metas)@ == old(metas)@.push(meta),
        final(roots)@ == old(roots)@.push(meta.iseq).push(meta.compiled_iseq),
{
    roots.push(meta.iseq);
    roots.push(meta.compiled_iseq);
    growth::reserve_fixed_step(metas, GROWTH_STEP);
    let idx: usize = metas.len();
    vstd::pervasive::runtime_assert(idx as u64 <= u32::MAX as u64);
    metas.push(meta);
    idx as u32
}

/// Look up an interned record by its index.
pub fn get(metas: &Vec<ExitMeta>, idx: u32) -> (r: ExitMeta)
    requires
        idx < metas@.len(),
    ensures
        r == metas@[idx as int],
{
    metas[idx as usize]
}

/// Looking up the index of a new record gives the record, and every index handed out before
/// still gives the same record.
pub proof fn law_interned_records_stay(metas: Seq<ExitMeta>, meta: ExitMeta, idx: u32)
    requires
        metas.len() <= u32::MAX,
        idx <= metas.len(),
    ensures
        metas.push(meta)[idx as int] == if idx == metas.len() {
            meta
        } else {
            metas[idx as int]
        },
{
}

} // verus!
