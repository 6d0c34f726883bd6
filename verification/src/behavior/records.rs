//! What is kept for side exits, how tables grow, what the profiler does, and what words mean.

use vstd::prelude::*;

use crate::cruby::{IseqPtr, VALUE};
use crate::exit_meta;
use crate::exit_meta::ExitMeta;
use crate::growth;
use crate::signal_profiler::{Profiler, SampleAction, SamplerAction};
use crate::stats::Counters;

verus! {

/// A record is found again by its index, and so are those before it. Its ISEQs are kept alive.
pub proof fn law_interned_record(
    metas: &mut Vec<ExitMeta>,
    roots: &mut Vec<IseqPtr>,
    meta: ExitMeta,
    idx: u32,
    before: &Vec<ExitMeta>,
    after: &Vec<ExitMeta>,
    got: ExitMeta,
    other: u32,
    was: ExitMeta,
    is: ExitMeta,
)
    requires
        metas@.len() <= u32::MAX,
        *before == *metas,
        call_ensures(exit_meta::intern, (metas, roots, meta), idx),
        *after == *final(metas),
        call_ensures(exit_meta::get, (after, idx), got),
        other < before@.len(),
        call_ensures(exit_meta::get, (before, other), was),
        call_ensures(exit_meta::get, (after, other), is),
    ensures
        got == meta,
        is == was,
        other != idx,
        after@.len() == before@.len() + 1,
        final(roots)@.contains(meta.iseq) && final(roots)@.contains(meta.compiled_iseq),
        old(roots)@.is_prefix_of(final(roots)@),
        final(roots)@.len() == old(roots)@.len() + 2,
{
    let n = roots@.len() as int;
    assert(final(roots)@[n] == meta.iseq);
    assert(final(roots)@[n + 1] == meta.compiled_iseq);
    assert(final(roots)@.take(n) =~= old(roots)@);
}

/// After compaction, a record names its ISEQs where they have gone, and is otherwise the same. Null
/// stays null.
pub proof fn law_record_follows_objects<F: Fn(VALUE) -> VALUE>(
    meta: &mut ExitMeta,
    locate: F,
    to: spec_fn(u64) -> u64,
)
    requires
        call_ensures(ExitMeta::update_references::<F>, (meta, locate), ()),
        forall|object: VALUE, moved: VALUE|
            object.0 != 0 && #[trigger] call_ensures(locate, (object,), moved) ==> moved.0 == to(
                object.0,
            ),
    ensures
        final(meta).iseq == if old(meta).iseq == 0 {
            0
        } else {
            to(old(meta).iseq)
        },
        final(meta).compiled_iseq == if old(meta).compiled_iseq == 0 {
            0
        } else {
            to(old(meta).compiled_iseq)
        },
        final(meta).pc == old(meta).pc,
        final(meta).sp_offset == old(meta).sp_offset,
        final(meta).insn_idx == old(meta).insn_idx,
{
}

/// A table that only grows asks for room if it has too little: for an eighth of its length, for 64
/// KiB or for what is needed, whichever is most. One that grows in steps asks for a step once it
/// is full.
pub proof fn law_growth(
    len: usize,
    capacity: usize,
    elem_size: usize,
    additional: usize,
    r: Option<usize>,
    step: usize,
    f: Option<usize>,
)
    requires
        len <= capacity,
        elem_size > 0,
        call_ensures(growth::append_only_growth, (len, capacity, elem_size, additional), r),
        call_ensures(growth::fixed_growth, (len, capacity, step), f),
    ensures
        r is None <==> len + additional <= capacity,
        r matches Some(n) ==> {
            &&& n >= additional
            &&& 8 * n + 7 >= len
            &&& n * elem_size + elem_size > 65536
            &&& n == additional || 8 * n <= len || n * elem_size <= 65536
        },
        f == if len < capacity {
            None
        } else {
            Some(step)
        },
{
    if let Some(n) = r {
        let page = 65536int / (elem_size as int);
        let rem = 65536int % (elem_size as int);
        vstd::arithmetic::div_mod::lemma_fundamental_div_mod(65536, elem_size as int);
        assert(elem_size * page + rem == 65536);
        assert(n >= page);
        assert(n * elem_size + elem_size > 65536) by (nonlinear_arith)
            requires
                n >= page,
                elem_size > 0,
                elem_size * page + rem == 65536,
                0 <= rem < elem_size,
        ;
        if n == page {
            assert(n * elem_size <= 65536) by (nonlinear_arith)
                requires
                    n == page,
                    elem_size * page + rem == 65536,
                    0 <= rem,
            ;
        }
    }
}

/// Making room leaves the elements alone, and asks for room only if more would fit.
pub proof fn law_making_room<T>(
    a: &mut Vec<T>,
    additional: usize,
    r: Option<usize>,
    b: &mut Vec<T>,
    step: usize,
    f: Option<usize>,
)
    requires
        call_ensures(growth::reserve_append_only::<T>, (a, additional), r),
        call_ensures(growth::reserve_fixed_step::<T>, (b, step), f),
    ensures
        final(a)@ == old(a)@,
        final(b)@ == old(b)@,
        vstd::layout::size_of::<T>() == 0 ==> r is None,
        r matches Some(n) ==> n >= additional && (old(a)@.len() + n) * vstd::layout::size_of::<T>()
            <= isize::MAX,
        f matches Some(n) ==> n == step && (old(b)@.len() + n) * vstd::layout::size_of::<T>()
            <= isize::MAX,
{
}

/// A signal takes a sample if it is the one that asks for it and none is being taken. A sample is
/// done when its frames are collected, and counts if there were any.
pub proof fn law_sampling(
    p: &mut Profiler,
    signum: i32,
    sigprof: i32,
    r: SampleAction,
    q: &mut Profiler,
    collected: i32,
    after: &Profiler,
    samples: usize,
)
    requires
        call_ensures(Profiler::sample_profile_frames, (p, signum, sigprof), r),
        call_ensures(Profiler::frames_collected, (q, collected), ()),
        *after == *final(q),
        call_ensures(Profiler::samples, (after,), samples),
    ensures
        r == SampleAction::Collect(128) <==> signum == sigprof && !old(p).in_handler,
        r == SampleAction::Ignore <==> signum != sigprof || old(p).in_handler,
        final(p).in_handler == (old(p).in_handler || signum == sigprof),
        final(p).samples == old(p).samples,
        final(p).stop_sampler == old(p).stop_sampler,
        final(p).interval_usec == old(p).interval_usec,
        !after.in_handler,
        samples == if collected > 0 {
            old(q).samples.wrapping_add(1)
        } else {
            old(q).samples
        },
        after.stop_sampler == old(q).stop_sampler,
        after.interval_usec == old(q).interval_usec,
{
}

/// Signals are sent at the interval that was asked for, until the profiler is stopped.
pub proof fn law_sampler(
    interval: u64,
    started: &Profiler,
    first: SamplerAction,
    p: &mut Profiler,
    stopped: &Profiler,
    last: SamplerAction,
    any: &Profiler,
    next: SamplerAction,
)
    requires
        call_ensures(Profiler::start, (interval,), *started),
        call_ensures(Profiler::sampler_step, (started,), first),
        call_ensures(Profiler::stop, (p,), ()),
        *stopped == *final(p),
        call_ensures(Profiler::sampler_step, (stopped,), last),
        call_ensures(Profiler::sampler_step, (any,), next),
    ensures
        started.samples == 0 && !started.in_handler,
        first == SamplerAction::Signal(interval),
        last == SamplerAction::Return,
        stopped.samples == old(p).samples && stopped.in_handler == old(p).in_handler,
        next == SamplerAction::Return <==> any.stop_sampler,
        next matches SamplerAction::Signal(usec) ==> usec == any.interval_usec,
{
}

/// What a word stands for: zero is false and four is nil, one of the low three bits marks an
/// immediate, and what is neither an immediate nor false is a heap object.
pub proof fn law_words(v: VALUE, immediate: bool, truthy: bool, special: bool, nil: bool)
    requires
        call_ensures(VALUE::immediate_p, (v,), immediate),
        call_ensures(VALUE::test, (v,), truthy),
        call_ensures(VALUE::special_const_p, (v,), special),
        call_ensures(VALUE::nil_p, (v,), nil),
    ensures
        immediate <==> v.0 & 7 != 0,
        truthy <==> v.0 != 0 && v.0 != 4,
        nil <==> v.0 == 4,
        special <==> immediate || !truthy,
        !special <==> v.0 % 8 == 0 && v.0 > 0,
{
    let w = v.0;
    assert(w & 7 == w % 8) by (bit_vector);
}

/// Counting starts with zeros.
pub proof fn law_new_counters(c: Counters)
    requires
        call_ensures(<Counters as Default>::default, (), c),
    ensures
        c.exit_descriptor_count == 0,
        c.exit_descriptor_bytes == 0,
        c.bg_compile_enqueue_count == 0,
        c.bg_compile_overflow_count == 0,
        c.bg_compile_queue_high_water == 0,
        c.bg_compile_thread_restart_count == 0,
        c.bg_compile_disabled_count == 0,
        c.bg_compile_discard_count == 0,
        c.bg_compile_count == 0,
        c.skipped_native_stack_full == 0,
{
}

} // verus!
