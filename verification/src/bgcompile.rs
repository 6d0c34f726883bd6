//! Optional background compilation: move ISEQ compilation off the thread that tripped the
//! call threshold and onto a dedicated Ruby thread, so application threads never pay
//! compile latency.
//!
//! This file holds the queue of ISEQs waiting to compile, what is known of the thread that
//! drains it, and every decision about them. Talking to the VM -- taking its lock, starting
//! and waking threads, compiling -- is left to the caller: each function here says what to
//! do next and is told what came of it. All of them are called while holding the GVL.
//!
//! # Liveness
//!
//! The thread starts lazily on the first enqueue and parks when the queue drains. Because
//! the enqueuer and the thread both hold the GVL, and neither releases it between "queue
//! looks empty" and "park", there is no lost wakeup.
//!
//! A lost compile thread (killed, or left behind by a fork) is detected on the next enqueue
//! by asking whether it is alive, and a fresh one is started, which drains whatever was left
//! queued. A full queue means only that an enqueuing thread outran the compile thread.

use vstd::prelude::*;

use std::collections::VecDeque;

use crate::cruby::{IseqPtr, QNIL, VALUE};
use crate::stats::Counters;

verus! {

/// Most ISEQs that may be waiting to compile at once. Overflow drops the request and
/// re-arms the ISEQ's threshold, so the work is not lost, only deferred; a request thread
/// never blocks to make room.
pub const MAX_QUEUE_LEN: usize = 1024;

/// Most times that a thread yields to let the queue drain. Bounded so that a wedged compile
/// thread degrades to "these ISEQs stay interpreted" rather than hanging the process.
pub const MAX_DRAIN_YIELDS: u32 = 100_000;

/// Queue of ISEQs waiting to be compiled, plus the state of the thread that drains it.
pub struct BgCompiler {
    /// ISEQs waiting to compile, oldest first.
    pub queue: VecDeque<IseqPtr>,
    /// The ISEQ the compile thread has taken off the queue but not finished with. Held here
    /// so that GC marking keeps it alive for the window between the pop and the compile.
    pub current: Option<IseqPtr>,
    /// The compile thread, or nil before the first enqueue.
    pub thread: VALUE,
    /// Whether `thread` is a thread we started and have not seen die.
    pub started: bool,
    /// Whether the compile thread is parked.
    pub parked: bool,
    /// Set when the thread should return instead of parking again.
    pub shutdown: bool,
    /// An enqueue that happened under the VM lock wants the compile thread woken.
    pub wake_deferred: bool,
    /// Give up on background compilation for the rest of the process.
    pub disabled: bool,
    /// Compiles the thread has finished.
    pub completed: u64,
}

/// The state of a [`BgCompiler`].
pub struct BgModel {
    pub queue: Seq<IseqPtr>,
    pub current: Option<IseqPtr>,
    pub thread: VALUE,
    pub started: bool,
    pub parked: bool,
    pub shutdown: bool,
    pub wake_deferred: bool,
    pub disabled: bool,
    pub completed: u64,
}

/// What the compiler keeps per ISEQ for background compilation.
#[derive(Clone, Copy, Debug, PartialEq, Eq, Structural)]
pub struct IseqPayload {
    /// Whether the ISEQ is waiting to compile.
    pub bg_queued: bool,
    /// Whether `self` is always a heap object in this ISEQ.
    pub self_is_heap_object: bool,
}

/// What an enqueue needs its caller to do once the VM lock is released.
///
/// Nothing that touches the thread scheduler may run under the VM lock: waking a thread or
/// creating one there deadlocks. Both are safe immediately after: the GVL is not released
/// between the push and the action, so no wakeup can be lost.
#[derive(Clone, Copy, Debug, PartialEq, Eq, Structural)]
pub enum PostLock {
    /// Declined: the caller should compile synchronously.
    Declined,
    /// Enqueued, and the compile thread does not need poking.
    Nothing,
    /// Enqueued; wake the parked compile thread.
    Wake,
    /// Enqueued; there is no compile thread yet, so start one.
    Start,
}

/// What an enqueue comes to.
#[derive(Clone, Copy, Debug, PartialEq, Eq, Structural)]
pub struct Enqueued {
    /// What to do once the VM lock is released.
    pub post: PostLock,
    /// Whether to put the ISEQ's call counter back one short of the threshold, so that a
    /// later call offers it again.
    pub rearm: bool,
}

/// What to do outside the VM lock.
#[derive(Clone, Copy, Debug, PartialEq, Eq, Structural)]
pub enum PostAction {
    /// Nothing is left to do.
    Done,
    /// Start a compile thread and report it to [`thread_started`].
    Start,
    /// Wake this thread and report the answer to [`woken`].
    Wake(VALUE),
}

/// What just happened on the compile thread.
#[derive(Clone, Copy, Debug, PartialEq, Eq, Structural)]
pub enum ThreadEvent {
    /// It started.
    Started,
    /// It is done with the ISEQ it was given.
    Compiled,
    /// It was woken while parked.
    Woken,
}

/// What the compile thread does next.
#[derive(Clone, Copy, Debug, PartialEq, Eq, Structural)]
pub enum ThreadAction {
    /// Compile this ISEQ.
    Compile(IseqPtr),
    /// Sleep until woken.
    Park,
    /// Return.
    Exit,
}

/// What just happened to the ISEQ being compiled.
#[derive(Clone, Copy, Debug, PartialEq, Eq, Structural)]
pub enum CompileEvent {
    /// It was taken off the queue.
    Taken { has_jit_entry: bool },
    /// The native stack was measured.
    StackChecked { full: bool },
    /// The VM lock was taken.
    Locked { has_jit_entry: bool },
    /// Its code was generated and installed, and the VM lock released.
    Installed,
}

/// What to do next with the ISEQ being compiled.
#[derive(Clone, Copy, Debug, PartialEq, Eq, Structural)]
pub enum CompileAction {
    /// See whether the native stack is nearly full.
    CheckStack,
    /// Take the VM lock.
    Lock,
    /// Generate code and install it.
    Generate,
    /// Nothing is left to do.
    Finish,
}

/// What a thread that offers an ISEQ knows.
#[derive(Clone, Copy, Debug, PartialEq, Eq, Structural)]
pub struct EnqueueEnv {
    /// Whether the JIT is on.
    pub zjit_enabled: bool,
    /// Whether background compilation is asked for.
    pub background_compile: bool,
    /// Whether compilation has to happen by the time the caller returns.
    pub assert_compiles: bool,
    /// Whether the thread belongs to the main ractor.
    pub main_ractor: bool,
    /// Whether the compile thread has not been killed.
    pub thread_alive: bool,
}

impl View for BgCompiler {
    type V = BgModel;

    open spec fn view(&self) -> BgModel {
        BgModel {
            queue: self.queue@,
            current: self.current,
            thread: self.thread,
            started: self.started,
            parked: self.parked,
            shutdown: self.shutdown,
            wake_deferred: self.wake_deferred,
            disabled: self.disabled,
            completed: self.completed,
        }
    }
}

/// What every operation keeps: the queue is bounded, and background compilation that was
/// given up has nothing queued.
pub open spec fn bg_wf(m: BgModel) -> bool {
    &&& m.queue.len() <= MAX_QUEUE_LEN
    &&& m.disabled ==> m.queue.len() == 0
}

/// Before anything was enqueued.
pub open spec fn bg_idle() -> BgModel {
    BgModel {
        queue: Seq::empty(),
        current: None,
        thread: VALUE(QNIL),
        started: false,
        parked: false,
        shutdown: false,
        wake_deferred: false,
        disabled: false,
        completed: 0,
    }
}

/// The compile thread is gone.
pub open spec fn without_thread(m: BgModel) -> BgModel {
    BgModel { started: false, parked: false, thread: VALUE(QNIL), ..m }
}

/// The state once it has been checked whether the compile thread is alive.
pub open spec fn after_liveness(m: BgModel, alive: bool) -> BgModel {
    if m.started && !alive {
        without_thread(m)
    } else {
        m
    }
}

/// What it takes to have the queue looked at.
pub open spec fn wanted(m: BgModel) -> PostLock {
    if !m.started {
        PostLock::Start
    } else if m.parked {
        PostLock::Wake
    } else {
        PostLock::Nothing
    }
}

/// The counters once it has been checked whether the compile thread is alive.
pub open spec fn count_liveness(c: Counters, m: BgModel, alive: bool) -> Counters {
    if m.started && !alive {
        Counters {
            bg_compile_thread_restart_count: c.bg_compile_thread_restart_count.wrapping_add(1),
            ..c
        }
    } else {
        c
    }
}

/// ISEQs waiting or compiling.
pub open spec fn depth(m: BgModel) -> nat {
    m.queue.len() + if m.current is Some {
        1nat
    } else {
        0
    }
}

/// The state after an ISEQ was added to the queue.
pub open spec fn pushed(m: BgModel, iseq: IseqPtr) -> BgModel {
    BgModel { queue: m.queue.push(iseq), ..m }
}

/// The counters after an ISEQ was added to the queue, which is now `m`'s.
pub open spec fn count_pushed(c: Counters, m: BgModel) -> Counters {
    Counters {
        bg_compile_enqueue_count: c.bg_compile_enqueue_count.wrapping_add(1),
        bg_compile_queue_high_water: if depth(m) > c.bg_compile_queue_high_water {
            depth(m) as u64
        } else {
            c.bg_compile_queue_high_water
        },
        ..c
    }
}

/// How an enqueue comes out.
pub enum EnqueueCase {
    /// Background compilation was given up.
    Disabled,
    /// The ISEQ is waiting already.
    Waiting,
    /// The queue is full.
    Full,
    /// The ISEQ is added.
    Added,
}

pub open spec fn enqueue_case(m: BgModel, payload: IseqPayload) -> EnqueueCase {
    if m.disabled {
        EnqueueCase::Disabled
    } else if payload.bg_queued {
        EnqueueCase::Waiting
    } else if m.queue.len() >= MAX_QUEUE_LEN {
        EnqueueCase::Full
    } else {
        EnqueueCase::Added
    }
}

/// The state after an enqueue.
pub open spec fn enqueue_model(
    m: BgModel,
    payload: IseqPayload,
    iseq: IseqPtr,
    alive: bool,
) -> BgModel {
    match enqueue_case(m, payload) {
        EnqueueCase::Disabled => m,
        EnqueueCase::Waiting => m,
        EnqueueCase::Full => after_liveness(m, alive),
        EnqueueCase::Added => after_liveness(pushed(m, iseq), alive),
    }
}

/// What an enqueue tells its caller.
pub open spec fn enqueue_result(
    m: BgModel,
    payload: IseqPayload,
    iseq: IseqPtr,
    alive: bool,
) -> Enqueued {
    match enqueue_case(m, payload) {
        EnqueueCase::Disabled => Enqueued { post: PostLock::Declined, rearm: false },
        EnqueueCase::Waiting => Enqueued { post: PostLock::Nothing, rearm: false },
        EnqueueCase::Full => Enqueued { post: wanted(after_liveness(m, alive)), rearm: true },
        EnqueueCase::Added => Enqueued {
            post: wanted(after_liveness(pushed(m, iseq), alive)),
            rearm: false,
        },
    }
}

/// The payload of the ISEQ after an enqueue.
pub open spec fn enqueue_payload(
    m: BgModel,
    payload: IseqPayload,
    self_is_heap_object: Option<bool>,
) -> IseqPayload {
    match enqueue_case(m, payload) {
        EnqueueCase::Added => IseqPayload {
            bg_queued: true,
            self_is_heap_object: match self_is_heap_object {
                Some(heap) => heap,
                None => payload.self_is_heap_object,
            },
        },
        _ => payload,
    }
}

/// The counters after an enqueue.
pub open spec fn enqueue_counters(
    c: Counters,
    m: BgModel,
    payload: IseqPayload,
    iseq: IseqPtr,
    alive: bool,
) -> Counters {
    match enqueue_case(m, payload) {
        EnqueueCase::Disabled => c,
        EnqueueCase::Waiting => c,
        EnqueueCase::Full => count_liveness(
            Counters {
                bg_compile_overflow_count: c.bg_compile_overflow_count.wrapping_add(1),
                ..c
            },
            m,
            alive,
        ),
        EnqueueCase::Added => count_liveness(
            count_pushed(c, pushed(m, iseq)),
            pushed(m, iseq),
            alive,
        ),
    }
}

impl BgCompiler {
    /// Nothing is queued and there is no compile thread.
    pub fn new() -> (r: Self)
        ensures
            r@ == bg_idle(),
            bg_wf(r@),
    {
        BgCompiler {
            queue: VecDeque::new(),
            current: None,
            thread: VALUE(QNIL),
            started: false,
            parked: false,
            shutdown: false,
            wake_deferred: false,
            disabled: false,
            completed: 0,
        }
    }

    /// Forget a compile thread that is gone.
    fn forget_thread(&mut self, counters: &mut Counters)
        ensures
            final(self)@ == without_thread(old(self)@),
            *final(counters) == (Counters {
                bg_compile_thread_restart_count: old(
                    counters,
                ).bg_compile_thread_restart_count.wrapping_add(1),
                ..*old(counters)
            }),
    {
        self.started = false;
        self.parked = false;
        self.thread = VALUE(QNIL);
        counters.bg_compile_thread_restart_count = counters.bg_compile_thread_restart_count.wrapping_add(
            1,
        );
    }
}

/// Whether background compilation is asked for and usable right now.
///
/// Where compilation has to happen by the time the caller returns, deferring it would not
/// do. `bg` is None before the first enqueue.
pub fn enabled(background_compile: bool, assert_compiles: bool, bg: Option<&BgCompiler>) -> (r:
    bool)
    ensures
        r == (background_compile && !assert_compiles && !(bg matches Some(b) && b.disabled)),
{
    if !background_compile {
        return false;
    }
    if assert_compiles {
        return false;
    }
    match bg {
        Some(b) => !b.disabled,
        None => true,
    }
}

/// Decide what the caller has to do to make sure the compile thread will pick up what is
/// queued: start one, wake a parked one, or nothing.
///
/// The liveness check is what keeps a lost compile thread from silently stopping the JIT
/// from ever compiling again.
pub fn check_liveness(bg: &mut BgCompiler, thread_alive: bool, counters: &mut Counters) -> (r:
    PostLock)
    ensures
        final(bg)@ == after_liveness(old(bg)@, thread_alive),
        r == wanted(final(bg)@),
        *final(counters) == count_liveness(*old(counters), old(bg)@, thread_alive),
{
    if bg.started && !thread_alive {
        bg.forget_thread(counters);
    }
    if !bg.started {
        PostLock::Start
    } else if bg.parked {
        PostLock::Wake
    } else {
        PostLock::Nothing
    }
}

/// Push `iseq` onto the queue. Must be called with the VM lock held, because it touches the
/// ISEQ's payload.
///
/// `self_is_heap_object` is what the frame in which the threshold was tripped says of
/// `self`. None when the caller has already recorded that.
pub fn enqueue_locked(
    bg: &mut BgCompiler,
    payload: &mut IseqPayload,
    iseq: IseqPtr,
    self_is_heap_object: Option<bool>,
    thread_alive: bool,
    counters: &mut Counters,
) -> (r: Enqueued)
    requires
        bg_wf(old(bg)@),
    ensures
        bg_wf(final(bg)@),
        final(bg)@ == enqueue_model(old(bg)@, *old(payload), iseq, thread_alive),
        r == enqueue_result(old(bg)@, *old(payload), iseq, thread_alive),
        *final(payload) == enqueue_payload(old(bg)@, *old(payload), self_is_heap_object),
        *final(counters) == enqueue_counters(
            *old(counters),
            old(bg)@,
            *old(payload),
            iseq,
            thread_alive,
        ),
{
    if bg.disabled {
        return Enqueued { post: PostLock::Declined, rearm: false };
    }
    if payload.bg_queued {
        // Already waiting. Nothing to do, and definitely don't compile here.
        return Enqueued { post: PostLock::Nothing, rearm: false };
    }
    if bg.queue.len() >= MAX_QUEUE_LEN {
        counters.bg_compile_overflow_count = counters.bg_compile_overflow_count.wrapping_add(1);
        let post = check_liveness(bg, thread_alive, counters);
        return Enqueued { post, rearm: true };
    }
    if let Some(heap) = self_is_heap_object {
        payload.self_is_heap_object = heap;
    }
    payload.bg_queued = true;
    bg.queue.push_back(iseq);
    assert(bg@ == pushed(old(bg)@, iseq));
    counters.bg_compile_enqueue_count = counters.bg_compile_enqueue_count.wrapping_add(1);
    let mut deep: u64 = bg.queue.len() as u64;
    if bg.current.is_some() {
        deep = deep + 1;
    }
    if deep > counters.bg_compile_queue_high_water {
        counters.bg_compile_queue_high_water = deep;
    }
    let post = check_liveness(bg, thread_alive, counters);
    Enqueued { post, rearm: false }
}

/// Hand an ISEQ to the compile thread instead of compiling it here. The caller compiles
/// synchronously if the answer is [`PostLock::Declined`]; otherwise it hands the answer to
/// [`run_post_lock`] once it has released the VM lock.
///
/// The compile thread lives in the main ractor. Work queued from another ractor would be
/// stranded when that terminates.
pub fn rb_zjit_bg_enqueue(
    bg: &mut BgCompiler,
    payload: &mut IseqPayload,
    iseq: IseqPtr,
    self_is_heap_object: Option<bool>,
    env: EnqueueEnv,
    counters: &mut Counters,
) -> (r: Enqueued)
    requires
        bg_wf(old(bg)@),
    ensures
        bg_wf(final(bg)@),
        !(env.zjit_enabled && env.background_compile && !env.assert_compiles && !old(bg)@.disabled
            && env.main_ractor) ==> {
            &&& r == (Enqueued { post: PostLock::Declined, rearm: false })
            &&& final(bg)@ == old(bg)@
            &&& *final(payload) == *old(payload)
            &&& *final(counters) == *old(counters)
        },
        env.zjit_enabled && env.background_compile && !env.assert_compiles && !old(bg)@.disabled
            && env.main_ractor ==> {
            &&& r == enqueue_result(old(bg)@, *old(payload), iseq, env.thread_alive)
            &&& r.post != PostLock::Declined
            &&& final(bg)@ == enqueue_model(old(bg)@, *old(payload), iseq, env.thread_alive)
            &&& *final(payload) == enqueue_payload(
                old(bg)@,
                *old(payload),
                self_is_heap_object,
            )
            &&& *final(counters) == enqueue_counters(
                *old(counters),
                old(bg)@,
                *old(payload),
                iseq,
                env.thread_alive,
            )
        },
{
    if !env.zjit_enabled || !enabled(env.background_compile, env.assert_compiles, Some(&*bg)) {
        return Enqueued { post: PostLock::Declined, rearm: false };
    }
    if !env.main_ractor {
        return Enqueued { post: PostLock::Declined, rearm: false };
    }
    enqueue_locked(bg, payload, iseq, self_is_heap_object, env.thread_alive, counters)
}

/// Whether a thread that waits for the queue to drain, and has yielded `yields` times so
/// far, yields once more. Keyed on the queue being empty rather than on a particular ISEQ,
/// which a compacting GC may move meanwhile.
pub fn block_until_drained(bg: &BgCompiler, yields: u32) -> (r: bool)
    ensures
        r == (yields < MAX_DRAIN_YIELDS && !bg@.disabled && bg@.started && depth(bg@) > 0),
{
    if yields >= MAX_DRAIN_YIELDS {
        return false;
    }
    if bg.disabled || !bg.started {
        return false;
    }
    if bg.queue.len() == 0 && bg.current.is_none() {
        return false;
    }
    true
}

/// What to do about what an enqueue deferred. To be called with the GVL held and the VM lock
/// released.
pub fn run_post_lock(bg: &BgCompiler, post: PostLock) -> (r: PostAction)
    ensures
        r == match post {
            PostLock::Declined => PostAction::Done,
            PostLock::Nothing => PostAction::Done,
            PostLock::Start => PostAction::Start,
            PostLock::Wake => if bg@.started {
                PostAction::Wake(bg@.thread)
            } else {
                PostAction::Done
            },
        },
{
    match post {
        PostLock::Declined => PostAction::Done,
        PostLock::Nothing => PostAction::Done,
        PostLock::Start => PostAction::Start,
        PostLock::Wake => {
            if bg.started {
                PostAction::Wake(bg.thread)
            } else {
                PostAction::Done
            }
        },
    }
}

/// The compile thread was told to wake up, with this answer. Nil says that it was killed, or
/// that this is a forked child: then a fresh one is started, which will drain everything
/// still queued.
pub fn woken(bg: &mut BgCompiler, answer: VALUE, counters: &mut Counters) -> (r: PostAction)
    ensures
        answer.0 == QNIL ==> {
            &&& r == PostAction::Start
            &&& final(bg)@ == without_thread(old(bg)@)
            &&& *final(counters) == (Counters {
                bg_compile_thread_restart_count: old(
                    counters,
                ).bg_compile_thread_restart_count.wrapping_add(1),
                ..*old(counters)
            })
        },
        answer.0 != QNIL ==> {
            &&& r == PostAction::Done
            &&& final(bg)@ == old(bg)@
            &&& *final(counters) == *old(counters)
        },
{
    if answer.nil_p() {
        bg.forget_thread(counters);
        PostAction::Start
    } else {
        PostAction::Done
    }
}

/// Give up on background compilation. Everything still queued goes back to tripping its
/// threshold and compiling synchronously: the caller clears `bg_queued` of the ISEQs that
/// come back and re-arms their thresholds, in this order.
pub fn disable_locked(bg: &mut BgCompiler, counters: &mut Counters) -> (r: Vec<IseqPtr>)
    ensures
        bg_wf(final(bg)@),
        r@ == old(bg)@.queue,
        final(bg)@ == (BgModel { disabled: true, queue: Seq::empty(), ..old(bg)@ }),
        *final(counters) == (Counters {
            bg_compile_disabled_count: old(counters).bg_compile_disabled_count.wrapping_add(1),
            ..*old(counters)
        }),
{
    bg.disabled = true;
    let mut dropped: Vec<IseqPtr> = Vec::new();
    let mut idx: usize = 0;
    while idx < bg.queue.len()
        invariant
            idx <= bg.queue@.len(),
            dropped@ == bg.queue@.take(idx as int),
        decreases bg.queue@.len() - idx,
    {
        dropped.push(bg.queue[idx]);
        idx = idx + 1;
        assert(bg.queue@.take(idx as int) =~= bg.queue@.take(idx - 1).push(bg.queue@[idx - 1]));
    }
    assert(bg.queue@.take(idx as int) =~= bg.queue@);
    bg.queue.clear();
    counters.bg_compile_disabled_count = counters.bg_compile_disabled_count.wrapping_add(1);
    dropped
}

/// Enqueue the callee of a JIT-to-JIT function stub. The caller holds the VM lock, so waking
/// the compile thread has to wait until that lock is released: the caller then calls
/// [`flush_deferred_wake`].
///
/// Declines when there is no compile thread yet, because starting one from inside the lock
/// is not safe; until the entry-point path starts one, stub hits compile synchronously.
///
/// `side_exit` of the answer is true when the caller should side-exit to the interpreter for
/// this call.
pub fn enqueue_from_stub(
    bg: &mut BgCompiler,
    payload: &mut IseqPayload,
    iseq: IseqPtr,
    env: EnqueueEnv,
    counters: &mut Counters,
) -> (r: StubEnqueued)
    requires
        bg_wf(old(bg)@),
    ensures
        bg_wf(final(bg)@),
        !(env.background_compile && !env.assert_compiles && !old(bg)@.disabled && env.main_ractor
            && old(bg)@.started) ==> {
            &&& r == (StubEnqueued { side_exit: false, rearm: false })
            &&& final(bg)@ == old(bg)@
            &&& *final(payload) == *old(payload)
            &&& *final(counters) == *old(counters)
        },
        env.background_compile && !env.assert_compiles && !old(bg)@.disabled && env.main_ractor
            && old(bg)@.started ==> {
            let m = enqueue_model(old(bg)@, *old(payload), iseq, env.thread_alive);
            let e = enqueue_result(old(bg)@, *old(payload), iseq, env.thread_alive);
            &&& r == (StubEnqueued {
                side_exit: e.post == PostLock::Nothing || e.post == PostLock::Wake,
                rearm: e.rearm,
            })
            &&& final(bg)@ == if e.post == PostLock::Wake {
                (BgModel { wake_deferred: true, ..m })
            } else {
                m
            }
            &&& *final(payload) == enqueue_payload(old(bg)@, *old(payload), None)
            &&& *final(counters) == enqueue_counters(
                *old(counters),
                old(bg)@,
                *old(payload),
                iseq,
                env.thread_alive,
            )
        },
{
    if !enabled(env.background_compile, env.assert_compiles, Some(&*bg)) || !env.main_ractor {
        return StubEnqueued { side_exit: false, rearm: false };
    }
    if !bg.started {
        return StubEnqueued { side_exit: false, rearm: false };
    }
    let e = enqueue_locked(bg, payload, iseq, None, env.thread_alive, counters);
    let side_exit: bool = match e.post {
        PostLock::Declined => false,
        PostLock::Start => false,
        PostLock::Nothing => true,
        PostLock::Wake => {
            bg.wake_deferred = true;
            true
        },
    };
    StubEnqueued { side_exit, rearm: e.rearm }
}

/// What an enqueue from a function stub comes to.
#[derive(Clone, Copy, Debug, PartialEq, Eq, Structural)]
pub struct StubEnqueued {
    /// Whether to side-exit to the interpreter for this call.
    pub side_exit: bool,
    /// Whether to put the ISEQ's call counter back one short of the threshold.
    pub rearm: bool,
}

/// Wake the compile thread if a call made under the VM lock asked for it. To be called with
/// the GVL held and the VM lock released. Cheap and safe to call unconditionally.
pub fn flush_deferred_wake(bg: &mut BgCompiler) -> (r: PostAction)
    ensures
        final(bg)@ == (BgModel { wake_deferred: false, ..old(bg)@ }),
        r == if old(bg)@.wake_deferred && old(bg)@.started {
            PostAction::Wake(old(bg)@.thread)
        } else {
            PostAction::Done
        },
{
    if !bg.wake_deferred {
        return PostAction::Done;
    }
    bg.wake_deferred = false;
    run_post_lock(&*bg, PostLock::Wake)
}

/// An attempt to start the compile thread gave `thread`, with `state` not 0 if it raised.
/// If there is a thread, it is recorded. If there is none, background compilation is given
/// up; the caller does with the ISEQs that come back as for [`disable_locked`].
pub fn thread_started(
    bg: &mut BgCompiler,
    state: i32,
    thread: VALUE,
    counters: &mut Counters,
) -> (r: Result<(), Vec<IseqPtr>>)
    ensures
        state != 0 || thread.0 == QNIL ==> {
            &&& r matches Err(dropped) && dropped@ == old(bg)@.queue
            &&& final(bg)@ == (BgModel { disabled: true, queue: Seq::empty(), ..old(bg)@ })
            &&& *final(counters) == (Counters {
                bg_compile_disabled_count: old(counters).bg_compile_disabled_count.wrapping_add(
                    1,
                ),
                ..*old(counters)
            })
        },
        !(state != 0 || thread.0 == QNIL) ==> {
            &&& r is Ok
            &&& final(bg)@ == (BgModel { thread, started: true, parked: false, ..old(bg)@ })
            &&& *final(counters) == *old(counters)
        },
{
    if state != 0 || thread.nil_p() {
        return Err(disable_locked(bg, counters));
    }
    bg.thread = thread;
    bg.started = true;
    bg.parked = false;
    Ok(())
}

/// The state once the compile thread has reported `event`.
pub open spec fn after_event(m: BgModel, event: ThreadEvent) -> BgModel {
    match event {
        ThreadEvent::Started => m,
        ThreadEvent::Compiled => BgModel {
            current: None,
            completed: m.completed.wrapping_add(1),
            ..m
        },
        ThreadEvent::Woken => BgModel { parked: false, ..m },
    }
}

/// What the compile thread does after `event`: compile the oldest ISEQ in the queue, or, if
/// there is none, park or return.
pub open spec fn thread_action(m: BgModel, event: ThreadEvent) -> ThreadAction {
    if m.queue.len() > 0 {
        ThreadAction::Compile(m.queue[0])
    } else if m.shutdown || m.disabled {
        ThreadAction::Exit
    } else {
        ThreadAction::Park
    }
}

/// The state that the compile thread leaves behind when it goes on after `event`.
pub open spec fn thread_model(m: BgModel, event: ThreadEvent) -> BgModel {
    let now = after_event(m, event);
    match thread_action(m, event) {
        ThreadAction::Compile(iseq) => BgModel {
            queue: m.queue.skip(1),
            current: Some(iseq),
            ..now
        },
        ThreadAction::Park => BgModel { current: None, parked: true, ..now },
        ThreadAction::Exit => BgModel { current: None, started: false, parked: false, ..now },
    }
}

/// One step of the compile thread: drain the queue, oldest first, then park; repeat when
/// woken.
///
/// The ISEQ being compiled stays in `current` until it is done, so a GC in between still
/// marks it.
pub fn bg_thread_main(bg: &mut BgCompiler, event: ThreadEvent) -> (r: ThreadAction)
    requires
        bg_wf(old(bg)@),
    ensures
        bg_wf(final(bg)@),
        final(bg)@ == thread_model(old(bg)@, event),
        r == thread_action(old(bg)@, event),
{
    match event {
        ThreadEvent::Started => {},
        ThreadEvent::Compiled => {
            bg.current = None;
            bg.completed = bg.completed.wrapping_add(1);
        },
        ThreadEvent::Woken => {
            bg.parked = false;
        },
    }
    let ghost m = bg@;
    let popped: Option<IseqPtr> = bg.queue.pop_front();
    bg.current = popped;
    match popped {
        Some(iseq) => {
            assert(bg.queue@ =~= m.queue.skip(1));
            ThreadAction::Compile(iseq)
        },
        None => {
            if bg.shutdown || bg.disabled {
                bg.started = false;
                bg.parked = false;
                ThreadAction::Exit
            } else {
                // No GVL release between the empty-queue check above and parking, so an
                // enqueue either happened before it or lands after the thread is parked,
                // and wakes it.
                bg.parked = true;
                ThreadAction::Park
            }
        },
    }
}

/// One step of compiling a queued ISEQ and installing its code.
///
/// Another path may have compiled the ISEQ while it sat in the queue. Nothing is wrong with
/// the queued request, there is just nothing left to do. That is asked once before the VM
/// lock is taken, and again under it, when nothing else can run.
pub fn compile_one(event: CompileEvent, payload: &mut IseqPayload, counters: &mut Counters) -> (r:
    CompileAction)
    ensures
        *final(payload) == if event is Taken {
            (IseqPayload { bg_queued: false, ..*old(payload) })
        } else {
            *old(payload)
        },
        r == match event {
            CompileEvent::Taken { has_jit_entry } => if has_jit_entry {
                CompileAction::Finish
            } else {
                CompileAction::CheckStack
            },
            CompileEvent::StackChecked { full } => if full {
                CompileAction::Finish
            } else {
                CompileAction::Lock
            },
            CompileEvent::Locked { has_jit_entry } => if has_jit_entry {
                CompileAction::Finish
            } else {
                CompileAction::Generate
            },
            CompileEvent::Installed => CompileAction::Finish,
        },
        *final(counters) == match event {
            CompileEvent::Taken { has_jit_entry: true } => Counters {
                bg_compile_discard_count: old(counters).bg_compile_discard_count.wrapping_add(1),
                ..*old(counters)
            },
            CompileEvent::StackChecked { full: true } => Counters {
                skipped_native_stack_full: old(counters).skipped_native_stack_full.wrapping_add(
                    1,
                ),
                ..*old(counters)
            },
            CompileEvent::Locked { has_jit_entry: true } => Counters {
                bg_compile_discard_count: old(counters).bg_compile_discard_count.wrapping_add(1),
                ..*old(counters)
            },
            CompileEvent::Installed => Counters {
                bg_compile_count: old(counters).bg_compile_count.wrapping_add(1),
                ..*old(counters)
            },
            _ => *old(counters),
        },
{
    match event {
        CompileEvent::Taken { has_jit_entry } => {
            payload.bg_queued = false;
            if has_jit_entry {
                counters.bg_compile_discard_count = counters.bg_compile_discard_count.wrapping_add(
                    1,
                );
                CompileAction::Finish
            } else {
                CompileAction::CheckStack
            }
        },
        CompileEvent::StackChecked { full } => {
            if full {
                counters.skipped_native_stack_full =
                counters.skipped_native_stack_full.wrapping_add(1);
                CompileAction::Finish
            } else {
                CompileAction::Lock
            }
        },
        CompileEvent::Locked { has_jit_entry } => {
            if has_jit_entry {
                counters.bg_compile_discard_count = counters.bg_compile_discard_count.wrapping_add(
                    1,
                );
                CompileAction::Finish
            } else {
                CompileAction::Generate
            }
        },
        CompileEvent::Installed => {
            counters.bg_compile_count = counters.bg_compile_count.wrapping_add(1);
            CompileAction::Finish
        },
    }
}

/// The objects that the queue keeps alive: the ISEQs waiting, the ISEQ being compiled, and
/// the thread.
pub open spec fn roots(m: BgModel) -> Seq<VALUE> {
    m.queue.map_values(|iseq: IseqPtr| VALUE(iseq)) + (match m.current {
        Some(iseq) => seq![VALUE(iseq)],
        None => Seq::empty(),
    }) + (if m.thread.0 != QNIL {
        seq![m.thread]
    } else {
        Seq::empty()
    })
}

/// The objects to mark for the queue. They may be moved.
pub fn mark(bg: &BgCompiler) -> (r: Vec<VALUE>)
    ensures
        r@ == roots(bg@),
{
    let mut marked: Vec<VALUE> = Vec::new();
    let ghost waiting = bg.queue@.map_values(|iseq: IseqPtr| VALUE(iseq));
    let mut idx: usize = 0;
    while idx < bg.queue.len()
        invariant
            idx <= bg.queue@.len(),
            waiting == bg.queue@.map_values(|iseq: IseqPtr| VALUE(iseq)),
            marked@ == waiting.take(idx as int),
        decreases bg.queue@.len() - idx,
    {
        marked.push(VALUE(bg.queue[idx]));
        idx = idx + 1;
        assert(waiting.take(idx as int) =~= waiting.take(idx - 1).push(waiting[idx - 1]));
    }
    assert(waiting.take(idx as int) =~= waiting);
    if let Some(iseq) = bg.current {
        marked.push(VALUE(iseq));
    }
    if !bg.thread.nil_p() {
        marked.push(bg.thread);
    }
    assert(marked@ =~= roots(bg@));
    marked
}

/// `after` is `before` with every object where `locate` finds it.
pub open spec fn relocated<F: Fn(VALUE) -> VALUE>(before: BgModel, locate: F, after: BgModel) -> bool {
    &&& after.queue.len() == before.queue.len()
    &&& forall|i: int|
        0 <= i < before.queue.len() ==> call_ensures(
            locate,
            (VALUE(before.queue[i]),),
            VALUE(#[trigger] after.queue[i]),
        )
    &&& match before.current {
        Some(iseq) => after.current matches Some(moved) && call_ensures(
            locate,
            (VALUE(iseq),),
            VALUE(moved),
        ),
        None => after.current is None,
    }
    &&& if before.thread.0 != QNIL {
        call_ensures(locate, (before.thread,), after.thread)
    } else {
        after.thread == before.thread
    }
    &&& after == (BgModel {
        queue: after.queue,
        current: after.current,
        thread: after.thread,
        ..before
    })
}

/// Mirror of [`mark`] for compaction. `locate` says where an object has gone.
pub fn update_references<F: Fn(VALUE) -> VALUE>(bg: &mut BgCompiler, locate: F)
    requires
        forall|i: int|
            0 <= i < roots(old(bg)@).len() ==> call_requires(
                locate,
                (#[trigger] roots(old(bg)@)[i],),
            ),
    ensures
        relocated(old(bg)@, locate, final(bg)@),
{
    let ghost before = bg@;
    let count: usize = bg.queue.len();
    let mut idx: usize = 0;
    proof {
        let n = before.queue.len() as int;
        assert forall|i: int| 0 <= i < n implies call_requires(
            locate,
            (VALUE(#[trigger] before.queue[i]),),
        ) by {
            assert(roots(before)[i] == VALUE(before.queue[i]));
        }
        if let Some(iseq) = before.current {
            assert(roots(before)[n] == VALUE(iseq));
        }
        if before.thread.0 != QNIL {
            assert(roots(before)[roots(before).len() - 1] == before.thread);
        }
    }
    while idx < count
        invariant
            idx <= count == before.queue.len(),
            forall|i: int|
                0 <= i < count ==> call_requires(locate, (VALUE(#[trigger] before.queue[i]),)),
            bg.queue@.len() == count,
            bg@ == (BgModel { queue: bg.queue@, ..before }),
            forall|i: int|
                idx <= i < count ==> bg.queue@[i - idx] == #[trigger] before.queue[i],
            forall|i: int|
                0 <= i < idx ==> call_ensures(
                    locate,
                    (VALUE(before.queue[i]),),
                    VALUE(#[trigger] bg.queue@[count - idx + i]),
                ),
        decreases count - idx,
    {
        let ghost now = bg.queue@;
        if let Some(iseq) = bg.queue.pop_front() {
            assert(iseq == before.queue[idx as int]);
            let moved: VALUE = locate(VALUE(iseq));
            bg.queue.push_back(moved.0);
            idx = idx + 1;
            proof {
                assert forall|i: int| idx <= i < count implies bg.queue@[i - idx]
                    == #[trigger] before.queue[i] by {
                    assert(now[i - (idx - 1)] == before.queue[i]);
                }
                assert forall|i: int| 0 <= i < idx implies call_ensures(
                    locate,
                    (VALUE(before.queue[i]),),
                    VALUE(#[trigger] bg.queue@[count - idx + i]),
                ) by {
                    if i < idx - 1 {
                        assert(bg.queue@[count - idx + i] == now[count - (idx - 1) + i]);
                    }
                }
            }
        }
    }
    if let Some(iseq) = bg.current {
        bg.current = Some(locate(VALUE(iseq)).0);
    }
    if !bg.thread.nil_p() {
        bg.thread = locate(bg.thread);
    }
    proof {
        assert forall|i: int| 0 <= i < before.queue.len() implies call_ensures(
            locate,
            (VALUE(before.queue[i]),),
            VALUE(#[trigger] bg.queue@[i]),
        ) by {
            assert(bg.queue@[count - idx + i] == bg.queue@[i]);
        }
    }
}

// ---------------------------------------------------------------------------
// Laws
// ---------------------------------------------------------------------------
/// Whether an ISEQ's payload says that it is queued exactly when it is.
pub open spec fn in_step(m: BgModel, iseq: IseqPtr, payload: IseqPayload) -> bool {
    payload.bg_queued <==> m.queue.contains(iseq)
}

/// An ISEQ is never queued twice, and its payload keeps saying whether it is queued.
pub proof fn law_no_iseq_is_queued_twice(
    m: BgModel,
    payload: IseqPayload,
    iseq: IseqPtr,
    heap: Option<bool>,
    alive: bool,
)
    requires
        m.queue.no_duplicates(),
        in_step(m, iseq, payload),
    ensures
        enqueue_model(m, payload, iseq, alive).queue.no_duplicates(),
        in_step(enqueue_model(m, payload, iseq, alive), iseq, enqueue_payload(m, payload, heap)),
        forall|other: IseqPtr| #![trigger m.queue.contains(other)]
            other != iseq ==> enqueue_model(m, payload, iseq, alive).queue.contains(other)
                == m.queue.contains(other),
{
    let after = enqueue_model(m, payload, iseq, alive).queue;
    if enqueue_case(m, payload) is Added {
        assert(after =~= m.queue.push(iseq));
        assert(after[m.queue.len() as int] == iseq);
        assert forall|other: IseqPtr| #![trigger m.queue.contains(other)] other
            != iseq implies after.contains(other) == m.queue.contains(other) by {
            if m.queue.contains(other) {
                let i = choose|i: int| 0 <= i < m.queue.len() && m.queue[i] == other;
                assert(after[i] == other);
            }
        }
    }
}

/// What is queued will be looked at without anyone doing anything: there is a compile thread, and
/// it is awake.
pub open spec fn attended(m: BgModel) -> bool {
    m.queue.len() == 0 || (m.started && !m.parked)
}

/// No wakeup is lost: an enqueue of an ISEQ that is not queued yet asks for nothing only
/// where a compile thread is alive and awake, and a compile thread that is awake parks only
/// when nothing is queued. So what is queued stays attended to by every enqueue that asks for
/// nothing, and by every step of the compile thread.
pub proof fn law_no_lost_wakeup(
    m: BgModel,
    payload: IseqPayload,
    iseq: IseqPtr,
    alive: bool,
    event: ThreadEvent,
)
    ensures
        ({
            let after = enqueue_model(m, payload, iseq, alive);
            let e = enqueue_result(m, payload, iseq, alive);
            !m.disabled && !payload.bg_queued ==> match e.post {
                PostLock::Declined => false,
                PostLock::Nothing => after.started && alive && !after.parked,
                PostLock::Wake => after.started && alive && after.parked,
                PostLock::Start => !after.started,
            }
        }),
        attended(m) && enqueue_result(m, payload, iseq, alive).post is Nothing ==> attended(
            enqueue_model(m, payload, iseq, alive),
        ),
        m.started && (event is Woken || !m.parked) ==> attended(thread_model(m, event)),
        thread_action(m, event) is Park ==> m.queue.len() == 0,
        m.queue.len() > 0 ==> thread_model(m, event).queue.len() == m.queue.len() - 1,
{
}

/// An enqueued ISEQ is compiled after exactly those that were queued before it: taking the
/// oldest off the queue moves every other one step forward, and adding one does not move
/// any.
pub proof fn law_first_in_first_out(
    m: BgModel,
    payload: IseqPayload,
    iseq: IseqPtr,
    alive: bool,
    event: ThreadEvent,
    i: int,
)
    requires
        0 <= i < m.queue.len(),
    ensures
        enqueue_model(m, payload, iseq, alive).queue.len() >= m.queue.len(),
        enqueue_model(m, payload, iseq, alive).queue[i] == m.queue[i],
        i == 0 ==> thread_action(m, event) == ThreadAction::Compile(m.queue[i]),
        i > 0 ==> thread_model(m, event).queue[i - 1] == m.queue[i],
        enqueue_case(m, payload) is Added ==> enqueue_model(m, payload, iseq, alive).queue.last()
            == iseq,
{
}

/// An ISEQ that waits or is being compiled is kept alive: it is among the objects to mark, also
/// once the compile thread has taken it off the queue, until that is done with it.
pub proof fn law_iseqs_stay_marked(m: BgModel, event: ThreadEvent, iseq: IseqPtr)
    ensures
        m.queue.contains(iseq) || m.current == Some(iseq) ==> roots(m).contains(VALUE(iseq)),
        m.queue.contains(iseq) ==> roots(thread_model(m, event)).contains(VALUE(iseq)),
{
    lemma_root(m, iseq);
    if m.queue.contains(iseq) {
        let after = thread_model(m, event);
        let i = choose|i: int| 0 <= i < m.queue.len() && m.queue[i] == iseq;
        if i > 0 {
            assert(after.queue[i - 1] == iseq);
            assert(after.queue.contains(iseq));
        } else {
            assert(after.current == Some(iseq));
        }
        lemma_root(after, iseq);
    }
}

proof fn lemma_root(m: BgModel, iseq: IseqPtr)
    ensures
        m.queue.contains(iseq) || m.current == Some(iseq) ==> roots(m).contains(VALUE(iseq)),
{
    if m.queue.contains(iseq) {
        let i = choose|i: int| 0 <= i < m.queue.len() && m.queue[i] == iseq;
        assert(roots(m)[i] == VALUE(iseq));
    } else if m.current == Some(iseq) {
        assert(roots(m)[m.queue.len() as int] == VALUE(iseq));
    }
}

/// What compaction keeps: how many ISEQs wait, and everything that is not an object.
pub proof fn law_compaction_keeps_queue<F: Fn(VALUE) -> VALUE>(
    before: BgModel,
    locate: F,
    after: BgModel,
)
    requires
        relocated(before, locate, after),
        bg_wf(before),
    ensures
        bg_wf(after),
        depth(after) == depth(before),
{
}

} // verus!
