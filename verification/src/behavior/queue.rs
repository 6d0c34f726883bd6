//! What background compilation does with the ISEQs that it is offered.

use vstd::prelude::*;

use crate::bgcompile;
use crate::bgcompile::{
    BgCompiler, CompileAction, CompileEvent, EnqueueEnv, Enqueued, IseqPayload, PostAction,
        PostLock,
    StubEnqueued, ThreadAction, ThreadEvent,
};
use crate::cruby::{IseqPtr, VALUE};
use crate::stats::Counters;

verus! {

/// Whether nothing of `b` differs from `a` but the queue and what is known of the thread.
pub open spec fn same_but_queue_and_thread(a: BgCompiler, b: BgCompiler) -> bool {
    &&& b.current == a.current
    &&& b.shutdown == a.shutdown
    &&& b.wake_deferred == a.wake_deferred
    &&& b.disabled == a.disabled
    &&& b.completed == a.completed
}

/// Whether `b` is the same as `a`.
pub open spec fn untouched(a: BgCompiler, b: BgCompiler) -> bool {
    &&& same_but_queue_and_thread(a, b)
    &&& b.queue@ == a.queue@
    &&& b.thread == a.thread
    &&& b.started == a.started
    &&& b.parked == a.parked
}

/// What an enqueue answers, leaves in the queue and records of the ISEQ. An ISEQ that waits
/// already needs nothing, and a full queue turns an ISEQ away for now.
pub proof fn law_enqueue(
    bg: &mut BgCompiler,
    payload: &mut IseqPayload,
    iseq: IseqPtr,
    heap: Option<bool>,
    alive: bool,
    counters: &mut Counters,
    r: Enqueued,
)
    requires
        call_ensures(bgcompile::enqueue_locked, (bg, payload, iseq, heap, alive, counters), r),
    ensures
        same_but_queue_and_thread(*old(bg), *final(bg)),
        // Background compilation was given up.
        old(bg).disabled ==> {
            &&& r.post == PostLock::Declined
            &&& !r.rearm
            &&& untouched(*old(bg), *final(bg))
            &&& *final(payload) == *old(payload)
            &&& *final(counters) == *old(counters)
        },
        // Already waiting.
        !old(bg).disabled && old(payload).bg_queued ==> {
            &&& r.post == PostLock::Nothing
            &&& !r.rearm
            &&& untouched(*old(bg), *final(bg))
            &&& *final(payload) == *old(payload)
            &&& *final(counters) == *old(counters)
        },
        // The queue holds at most 1024.
        !old(bg).disabled && !old(payload).bg_queued && old(bg).queue@.len() >= 1024 ==> {
            &&& r.rearm
            &&& final(bg).queue@ == old(bg).queue@
            &&& *final(payload) == *old(payload)
        },
        !old(bg).disabled && !old(payload).bg_queued && old(bg).queue@.len() < 1024 ==> {
            &&& !r.rearm
            &&& final(bg).queue@.len() == old(bg).queue@.len() + 1
            &&& final(bg).queue@[old(bg).queue@.len() as int] == iseq
            &&& forall|i: int|
                0 <= i < old(bg).queue@.len() ==> #[trigger] final(bg).queue@[i] == old(
                    bg,
                ).queue@[i]
            &&& final(payload).bg_queued
            &&& heap is Some ==> Some(final(payload).self_is_heap_object) == heap
            &&& heap is None ==> final(payload).self_is_heap_object == old(
                payload,
            ).self_is_heap_object
        },
{
}

/// What an enqueue asks for: a compile thread is started only if none is left, woken only if it
/// sleeps, and left alone only if it is awake. A thread that is found dead is forgotten.
pub proof fn law_enqueue_minds_the_thread(
    bg: &mut BgCompiler,
    payload: &mut IseqPayload,
    iseq: IseqPtr,
    heap: Option<bool>,
    alive: bool,
    counters: &mut Counters,
    r: Enqueued,
)
    requires
        call_ensures(bgcompile::enqueue_locked, (bg, payload, iseq, heap, alive, counters), r),
    ensures
        r.post == PostLock::Start ==> !final(bg).started && !(old(bg).started && alive),
        r.post == PostLock::Wake ==> final(bg).started && final(bg).parked && alive && old(
            bg,
        ).started && old(bg).parked,
        r.post == PostLock::Declined <==> old(bg).disabled,
        !old(bg).disabled && !old(payload).bg_queued ==> {
            &&& r.post == PostLock::Start <==> !(old(bg).started && alive)
            &&& r.post == PostLock::Wake <==> old(bg).started && alive && old(bg).parked
            &&& r.post == PostLock::Nothing <==> old(bg).started && alive && !old(bg).parked
            &&& old(bg).started && !alive ==> {
                &&& !final(bg).started
                &&& !final(bg).parked
                &&& final(bg).thread == VALUE(4)
            }
            &&& !old(bg).started || alive ==> {
                &&& final(bg).started == old(bg).started
                &&& final(bg).parked == old(bg).parked
                &&& final(bg).thread == old(bg).thread
            }
        },
{
}

/// What an enqueue counts: the ISEQs added, those turned away, the threads found dead, and the
/// most ISEQs that were waiting or compiling at once.
pub proof fn law_enqueue_counts(
    bg: &mut BgCompiler,
    payload: &mut IseqPayload,
    iseq: IseqPtr,
    heap: Option<bool>,
    alive: bool,
    counters: &mut Counters,
    r: Enqueued,
)
    requires
        call_ensures(bgcompile::enqueue_locked, (bg, payload, iseq, heap, alive, counters), r),
        !bg.disabled,
        !payload.bg_queued,
    ensures
        ({
            let full = old(bg).queue@.len() >= 1024;
            let lost = old(bg).started && !alive;
            let deep = old(bg).queue@.len() + 1 + if old(bg).current is Some {
                1int
            } else {
                0
            };
            let was = old(counters).bg_compile_queue_high_water;
            &&& final(counters).bg_compile_enqueue_count == if full {
                old(counters).bg_compile_enqueue_count
            } else {
                old(counters).bg_compile_enqueue_count.wrapping_add(1)
            }
            &&& final(counters).bg_compile_overflow_count == if full {
                old(counters).bg_compile_overflow_count.wrapping_add(1)
            } else {
                old(counters).bg_compile_overflow_count
            }
            &&& final(counters).bg_compile_thread_restart_count == if lost {
                old(counters).bg_compile_thread_restart_count.wrapping_add(1)
            } else {
                old(counters).bg_compile_thread_restart_count
            }
            &&& full || deep <= was ==> final(counters).bg_compile_queue_high_water == was
            &&& !full && deep > was ==> final(counters).bg_compile_queue_high_water == deep
            &&& final(counters).exit_descriptor_count == old(counters).exit_descriptor_count
            &&& final(counters).exit_descriptor_bytes == old(counters).exit_descriptor_bytes
            &&& final(counters).bg_compile_disabled_count == old(counters).bg_compile_disabled_count
            &&& final(counters).bg_compile_discard_count == old(counters).bg_compile_discard_count
            &&& final(counters).bg_compile_count == old(counters).bg_compile_count
            &&& final(counters).skipped_native_stack_full == old(counters).skipped_native_stack_full
        }),
{
}

/// An ISEQ offered at an entry point is queued like any other, from the main ractor and while
/// background compilation is asked for and usable. Otherwise the caller compiles it, and nothing
/// changes.
pub proof fn law_entry_point_enqueues(
    bg: &mut BgCompiler,
    payload: &mut IseqPayload,
    iseq: IseqPtr,
    heap: Option<bool>,
    env: EnqueueEnv,
    counters: &mut Counters,
    r: Enqueued,
    bg2: &mut BgCompiler,
    payload2: &mut IseqPayload,
    counters2: &mut Counters,
    r2: Enqueued,
)
    requires
        call_ensures(bgcompile::rb_zjit_bg_enqueue, (bg, payload, iseq, heap, env, counters), r),
        *bg2 == *bg,
        *payload2 == *payload,
        *counters2 == *counters,
        call_ensures(
            bgcompile::enqueue_locked,
            (bg2, payload2, iseq, heap, env.thread_alive, counters2),
            r2,
        ),
    ensures
        env.zjit_enabled && env.background_compile && !env.assert_compiles && env.main_ractor
            && !old(bg).disabled ==> {
            &&& r == r2
            &&& untouched(*final(bg2), *final(bg))
            &&& *final(payload) == *final(payload2)
            &&& *final(counters) == *final(counters2)
        },
        !(env.zjit_enabled && env.background_compile && !env.assert_compiles && env.main_ractor
            && !old(bg).disabled) ==> {
            &&& r.post == PostLock::Declined
            &&& !r.rearm
            &&& untouched(*old(bg), *final(bg))
            &&& *final(payload) == *old(payload)
            &&& *final(counters) == *old(counters)
        },
{
}

/// An ISEQ offered by a function stub is queued like any other, if there is a compile thread. The
/// call leaves for the interpreter unless a thread has to be started, and a thread that sleeps is
/// woken later.
pub proof fn law_stub_enqueues(
    bg: &mut BgCompiler,
    payload: &mut IseqPayload,
    iseq: IseqPtr,
    env: EnqueueEnv,
    counters: &mut Counters,
    r: StubEnqueued,
    bg2: &mut BgCompiler,
    payload2: &mut IseqPayload,
    counters2: &mut Counters,
    r2: Enqueued,
)
    requires
        call_ensures(bgcompile::enqueue_from_stub, (bg, payload, iseq, env, counters), r),
        *bg2 == *bg,
        *payload2 == *payload,
        *counters2 == *counters,
        call_ensures(
            bgcompile::enqueue_locked,
            (bg2, payload2, iseq, None, env.thread_alive, counters2),
            r2,
        ),
    ensures
        env.background_compile && !env.assert_compiles && env.main_ractor && !old(bg).disabled
            && old(bg).started ==> {
            &&& r.side_exit == (r2.post == PostLock::Nothing || r2.post == PostLock::Wake)
            &&& r.rearm == r2.rearm
            &&& final(bg).queue@ == final(bg2).queue@
            &&& final(bg).current == final(bg2).current
            &&& final(bg).thread == final(bg2).thread
            &&& final(bg).started == final(bg2).started
            &&& final(bg).parked == final(bg2).parked
            &&& final(bg).shutdown == old(bg).shutdown
            &&& final(bg).disabled == old(bg).disabled
            &&& final(bg).completed == old(bg).completed
            &&& final(bg).wake_deferred == (old(bg).wake_deferred || r2.post == PostLock::Wake)
            &&& *final(payload) == *final(payload2)
            &&& *final(counters) == *final(counters2)
        },
        !(env.background_compile && !env.assert_compiles && env.main_ractor && !old(bg).disabled
            && old(bg).started) ==> {
            &&& !r.side_exit
            &&& !r.rearm
            &&& untouched(*old(bg), *final(bg))
            &&& *final(payload) == *old(payload)
            &&& *final(counters) == *old(counters)
        },
{
}

/// What is deferred until the VM lock is released: a thread is started where that was asked for,
/// and woken where that was asked for and there is one. A deferred wake happens once.
pub proof fn law_deferred_actions(
    bg: &BgCompiler,
    post: PostLock,
    r: PostAction,
    waking: &mut BgCompiler,
    flushed: PostAction,
)
    requires
        call_ensures(bgcompile::run_post_lock, (bg, post), r),
        call_ensures(bgcompile::flush_deferred_wake, (waking,), flushed),
    ensures
        r == PostAction::Start <==> post == PostLock::Start,
        r is Wake <==> post == PostLock::Wake && bg.started,
        r matches PostAction::Wake(thread) ==> thread == bg.thread,
        !final(waking).wake_deferred,
        flushed != PostAction::Start,
        flushed is Wake <==> old(waking).wake_deferred && old(waking).started,
        flushed matches PostAction::Wake(thread) ==> thread == old(waking).thread,
        final(waking).queue@ == old(waking).queue@,
        final(waking).current == old(waking).current,
        final(waking).thread == old(waking).thread,
        final(waking).started == old(waking).started,
        final(waking).parked == old(waking).parked,
        final(waking).shutdown == old(waking).shutdown,
        final(waking).disabled == old(waking).disabled,
        final(waking).completed == old(waking).completed,
{
}

/// A thread that cannot be woken is forgotten, and another one is started. One that can be woken
/// needs nothing more.
pub proof fn law_waking(bg: &mut BgCompiler, answer: VALUE, counters: &mut Counters, r: PostAction)
    requires
        call_ensures(bgcompile::woken, (bg, answer, counters), r),
    ensures
        same_but_queue_and_thread(*old(bg), *final(bg)),
        final(bg).queue@ == old(bg).queue@,
        answer.0 == 4 ==> {
            &&& r == PostAction::Start
            &&& !final(bg).started
            &&& !final(bg).parked
            &&& final(bg).thread == VALUE(4)
            &&& final(counters).bg_compile_thread_restart_count == old(
                counters,
            ).bg_compile_thread_restart_count.wrapping_add(1)
        },
        answer.0 != 4 ==> {
            &&& r == PostAction::Done
            &&& untouched(*old(bg), *final(bg))
            &&& *final(counters) == *old(counters)
        },
{
}

/// A thread that was started is recorded, awake. If none could be started, everything queued
/// comes back in the order in which it waited, and background compilation is over.
pub proof fn law_starting_the_thread(
    bg: &mut BgCompiler,
    state: i32,
    thread: VALUE,
    counters: &mut Counters,
    r: Result<(), Vec<IseqPtr>>,
)
    requires
        call_ensures(bgcompile::thread_started, (bg, state, thread, counters), r),
    ensures
        r is Ok <==> state == 0 && thread.0 != 4,
        final(bg).current == old(bg).current,
        final(bg).shutdown == old(bg).shutdown,
        final(bg).wake_deferred == old(bg).wake_deferred,
        final(bg).completed == old(bg).completed,
        r is Ok ==> {
            &&& final(bg).started
            &&& !final(bg).parked
            &&& final(bg).thread == thread
            &&& final(bg).disabled == old(bg).disabled
            &&& final(bg).queue@ == old(bg).queue@
            &&& *final(counters) == *old(counters)
        },
        r matches Err(dropped) ==> {
            &&& dropped@ == old(bg).queue@
            &&& final(bg).queue@.len() == 0
            &&& final(bg).disabled
            &&& final(bg).started == old(bg).started
            &&& final(bg).parked == old(bg).parked
            &&& final(bg).thread == old(bg).thread
            &&& final(counters).bg_compile_disabled_count == old(
                counters,
            ).bg_compile_disabled_count.wrapping_add(1)
        },
{
}

/// One step of the compile thread: it takes the oldest ISEQ, keeps it as the current one until it
/// is done with it, sleeps when none is left, and returns instead when it was told to or
/// background compilation is over.
pub proof fn law_thread_step(bg: &mut BgCompiler, event: ThreadEvent, r: ThreadAction)
    requires
        call_ensures(bgcompile::bg_thread_main, (bg, event), r),
    ensures
        final(bg).thread == old(bg).thread,
        final(bg).shutdown == old(bg).shutdown,
        final(bg).wake_deferred == old(bg).wake_deferred,
        final(bg).disabled == old(bg).disabled,
        final(bg).completed == if event == ThreadEvent::Compiled {
            old(bg).completed.wrapping_add(1)
        } else {
            old(bg).completed
        },
        r is Compile <==> old(bg).queue@.len() > 0,
        r == ThreadAction::Exit <==> old(bg).queue@.len() == 0 && (old(bg).shutdown || old(
            bg,
        ).disabled),
        r == ThreadAction::Park <==> old(bg).queue@.len() == 0 && !old(bg).shutdown && !old(
            bg,
        ).disabled,
        r matches ThreadAction::Compile(iseq) ==> {
            &&& iseq == old(bg).queue@[0]
            &&& final(bg).current == Some(iseq)
            &&& final(bg).queue@.len() == old(bg).queue@.len() - 1
            &&& forall|i: int|
                0 < i < old(bg).queue@.len() ==> final(bg).queue@[i - 1] == #[trigger] old(
                    bg,
                ).queue@[i]
            &&& final(bg).started == old(bg).started
            &&& final(bg).parked == (old(bg).parked && event != ThreadEvent::Woken)
        },
        !(r is Compile) ==> final(bg).current is None && final(bg).queue@.len() == 0,
        r == ThreadAction::Park ==> final(bg).parked && final(bg).started == old(bg).started,
        r == ThreadAction::Exit ==> !final(bg).parked && !final(bg).started,
{
}

/// One step of compiling an ISEQ: it leaves the queue when it is taken, code is generated only
/// if nothing else compiled it, asked before and under the lock, and only if the stack has room.
/// What became of it is counted once.
pub proof fn law_compile_step(
    event: CompileEvent,
    payload: &mut IseqPayload,
    counters: &mut Counters,
    r: CompileAction,
)
    requires
        call_ensures(bgcompile::compile_one, (event, payload, counters), r),
    ensures
        final(payload).bg_queued == (old(payload).bg_queued && !(event is Taken)),
        final(payload).self_is_heap_object == old(payload).self_is_heap_object,
        r == CompileAction::CheckStack <==> event == (CompileEvent::Taken { has_jit_entry: false }),
        r == CompileAction::Lock <==> event == (CompileEvent::StackChecked { full: false }),
        r == CompileAction::Generate <==> event == (CompileEvent::Locked { has_jit_entry: false }),
        final(counters).bg_compile_count == if event is Installed {
            old(counters).bg_compile_count.wrapping_add(1)
        } else {
            old(counters).bg_compile_count
        },
        final(counters).skipped_native_stack_full == if event == (CompileEvent::StackChecked {
            full: true,
        }) {
            old(counters).skipped_native_stack_full.wrapping_add(1)
        } else {
            old(counters).skipped_native_stack_full
        },
        final(counters).bg_compile_discard_count == if event == (CompileEvent::Taken {
            has_jit_entry: true,
        }) || event == (CompileEvent::Locked { has_jit_entry: true }) {
            old(counters).bg_compile_discard_count.wrapping_add(1)
        } else {
            old(counters).bg_compile_discard_count
        },
        final(counters).bg_compile_enqueue_count == old(counters).bg_compile_enqueue_count,
        final(counters).bg_compile_overflow_count == old(counters).bg_compile_overflow_count,
        final(counters).bg_compile_queue_high_water == old(counters).bg_compile_queue_high_water,
        final(counters).bg_compile_thread_restart_count == old(
            counters,
        ).bg_compile_thread_restart_count,
        final(counters).bg_compile_disabled_count == old(counters).bg_compile_disabled_count,
{
}

/// A new compiler has no thread and nothing queued, and can be used. Whether it can is asked
/// before there is one, too.
pub proof fn law_before_the_first_enqueue(
    fresh: BgCompiler,
    asked: bool,
    must: bool,
    bg: Option<&BgCompiler>,
    usable: bool,
)
    requires
        call_ensures(BgCompiler::new, (), fresh),
        call_ensures(bgcompile::enabled, (asked, must, bg), usable),
    ensures
        fresh.queue@.len() == 0,
        fresh.current is None,
        fresh.thread == VALUE(4),
        !fresh.started,
        !fresh.parked,
        !fresh.shutdown,
        !fresh.wake_deferred,
        !fresh.disabled,
        fresh.completed == 0,
        usable <==> asked && !must && (bg is None || !bg.unwrap().disabled),
{
}

/// A caller that waits for the queue to drain goes on doing so while there is a compile thread
/// with something left to do, a hundred thousand times at most.
pub proof fn law_waiting_ends(bg: &BgCompiler, yields: u32, r: bool)
    requires
        call_ensures(bgcompile::block_until_drained, (bg, yields), r),
    ensures
        r <==> yields < 100000 && bg.started && !bg.disabled && (bg.queue@.len() > 0 || bg.current
            is Some),
{
}

/// Everything that waits, the ISEQ being compiled and the thread are marked, and nothing else.
pub proof fn law_marked_objects(bg: &BgCompiler, r: Vec<VALUE>, object: VALUE)
    requires
        call_ensures(bgcompile::mark, (bg,), r),
    ensures
        r@.contains(object) <==> {
            ||| bg.queue@.contains(object.0)
            ||| bg.current == Some(object.0)
            ||| object == bg.thread && object.0 != 4
        },
{
    let n = bg.queue@.len() as int;
    if bg.queue@.contains(object.0) {
        let i = choose|i: int| 0 <= i < n && bg.queue@[i] == object.0;
        assert(r@[i] == object);
    }
    if bg.current == Some(object.0) {
        assert(r@[n] == object);
    }
    if object == bg.thread && object.0 != 4 {
        assert(r@[r@.len() - 1] == object);
    }
    if r@.contains(object) {
        let k = choose|k: int| 0 <= k < r@.len() && r@[k] == object;
        if k < n {
            assert(bg.queue@[k] == object.0);
        }
    }
}

/// After compaction, what waits is what waited, in the same order, wherever it has gone.
pub proof fn law_compaction_follows_objects<F: Fn(VALUE) -> VALUE>(
    bg: &mut BgCompiler,
    locate: F,
    to: spec_fn(u64) -> u64,
)
    requires
        call_ensures(bgcompile::update_references, (bg, locate), ()),
        forall|object: VALUE, moved: VALUE| #[trigger]
            call_ensures(locate, (object,), moved) ==> moved.0 == to(object.0),
    ensures
        final(bg).queue@.len() == old(bg).queue@.len(),
        forall|i: int|
            0 <= i < old(bg).queue@.len() ==> #[trigger] final(bg).queue@[i] == to(
                old(bg).queue@[i],
            ),
        old(bg).current is None ==> final(bg).current is None,
        old(bg).current matches Some(iseq) ==> final(bg).current == Some(to(iseq)),
        final(bg).thread.0 == if old(bg).thread.0 == 4 {
            4
        } else {
            to(old(bg).thread.0)
        },
        final(bg).started == old(bg).started,
        final(bg).parked == old(bg).parked,
        final(bg).shutdown == old(bg).shutdown,
        final(bg).wake_deferred == old(bg).wake_deferred,
        final(bg).disabled == old(bg).disabled,
        final(bg).completed == old(bg).completed,
{
}

/// Whether there is a compile thread: one that is found dead is forgotten, and what is asked for
/// depends on what is left.
pub proof fn law_liveness(bg: &mut BgCompiler, alive: bool, counters: &mut Counters, r: PostLock)
    requires
        call_ensures(bgcompile::check_liveness, (bg, alive, counters), r),
    ensures
        same_but_queue_and_thread(*old(bg), *final(bg)),
        final(bg).queue@ == old(bg).queue@,
        final(bg).started <==> old(bg).started && alive,
        old(bg).started && !alive ==> !final(bg).parked && final(bg).thread == VALUE(4),
        !old(bg).started || alive ==> untouched(*old(bg), *final(bg)) && *final(counters) == *old(
            counters,
        ),
        r == PostLock::Start <==> !final(bg).started,
        r == PostLock::Wake <==> final(bg).started && final(bg).parked,
        r == PostLock::Nothing <==> final(bg).started && !final(bg).parked,
        final(counters).bg_compile_thread_restart_count == if old(bg).started && !alive {
            old(counters).bg_compile_thread_restart_count.wrapping_add(1)
        } else {
            old(counters).bg_compile_thread_restart_count
        },
        final(counters).bg_compile_enqueue_count == old(counters).bg_compile_enqueue_count,
        final(counters).bg_compile_overflow_count == old(counters).bg_compile_overflow_count,
        final(counters).bg_compile_disabled_count == old(counters).bg_compile_disabled_count,
{
}

/// Giving up background compilation hands back all that waited, in order, and leaves the thread
/// alone. It cannot be used from then on.
pub proof fn law_giving_up(
    bg: &mut BgCompiler,
    counters: &mut Counters,
    dropped: Vec<IseqPtr>,
    after: &BgCompiler,
    asked: bool,
    must: bool,
    usable: bool,
)
    requires
        call_ensures(bgcompile::disable_locked, (bg, counters), dropped),
        *after == *final(bg),
        call_ensures(bgcompile::enabled, (asked, must, Some(after)), usable),
    ensures
        dropped@ == old(bg).queue@,
        after.queue@.len() == 0,
        !usable,
        after.current == old(bg).current,
        after.thread == old(bg).thread,
        after.started == old(bg).started,
        after.parked == old(bg).parked,
        after.shutdown == old(bg).shutdown,
        after.wake_deferred == old(bg).wake_deferred,
        after.completed == old(bg).completed,
        final(counters).bg_compile_disabled_count == old(
            counters,
        ).bg_compile_disabled_count.wrapping_add(1),
        final(counters).bg_compile_discard_count == old(counters).bg_compile_discard_count,
        final(counters).bg_compile_enqueue_count == old(counters).bg_compile_enqueue_count,
{
}

} // verus!
