use zjit::bgcompile;
use zjit::bgcompile::{
    BgCompiler, CompileAction, CompileEvent, EnqueueEnv, Enqueued, IseqPayload, PostAction,
    PostLock, StubEnqueued, ThreadAction, ThreadEvent, MAX_DRAIN_YIELDS, MAX_QUEUE_LEN,
};
use zjit::cruby::{QNIL, VALUE};
use zjit::stats::Counters;

const ENV: EnqueueEnv = EnqueueEnv {
    zjit_enabled: true,
    background_compile: true,
    assert_compiles: false,
    main_ractor: true,
    thread_alive: true,
};

const THREAD: VALUE = VALUE(0x1000);

fn fresh() -> IseqPayload {
    IseqPayload { bg_queued: false, self_is_heap_object: false }
}

fn offer(bg: &mut BgCompiler, counters: &mut Counters, iseq: u64) -> Enqueued {
    bgcompile::rb_zjit_bg_enqueue(bg, &mut fresh(), iseq, None, ENV, counters)
}

/// A compiler whose thread has started and parked.
fn parked(counters: &mut Counters) -> BgCompiler {
    let mut bg = BgCompiler::new();
    assert!(bgcompile::thread_started(&mut bg, 0, THREAD, counters).is_ok());
    assert_eq!(bgcompile::bg_thread_main(&mut bg, ThreadEvent::Started), ThreadAction::Park);
    bg
}

#[test]
fn the_first_enqueue_starts_a_thread() {
    let mut bg = BgCompiler::new();
    let mut counters = Counters::default();
    let mut payload = fresh();
    let enqueued = bgcompile::rb_zjit_bg_enqueue(
        &mut bg,
        &mut payload,
        0x20,
        Some(true),
        ENV,
        &mut counters,
    );
    assert_eq!(enqueued, Enqueued { post: PostLock::Start, rearm: false });
    assert_eq!(payload, IseqPayload { bg_queued: true, self_is_heap_object: true });
    assert_eq!(bgcompile::run_post_lock(&bg, enqueued.post), PostAction::Start);
    assert!(bgcompile::thread_started(&mut bg, 0, THREAD, &mut counters).is_ok());
    assert_eq!(
        bgcompile::bg_thread_main(&mut bg, ThreadEvent::Started),
        ThreadAction::Compile(0x20)
    );
    assert_eq!(bg.current, Some(0x20));
    assert_eq!(bgcompile::bg_thread_main(&mut bg, ThreadEvent::Compiled), ThreadAction::Park);
    assert_eq!((bg.completed, bg.parked), (1, true));
    assert_eq!(counters.bg_compile_enqueue_count, 1);
    assert_eq!(counters.bg_compile_queue_high_water, 1);
}

#[test]
fn a_parked_thread_is_woken() {
    let mut counters = Counters::default();
    let mut bg = parked(&mut counters);
    let enqueued = offer(&mut bg, &mut counters, 0x20);
    assert_eq!(enqueued.post, PostLock::Wake);
    assert_eq!(bgcompile::run_post_lock(&bg, enqueued.post), PostAction::Wake(THREAD));
    assert_eq!(bgcompile::woken(&mut bg, THREAD, &mut counters), PostAction::Done);
    // First in, first out.
    offer(&mut bg, &mut counters, 0x30);
    assert_eq!(
        bgcompile::bg_thread_main(&mut bg, ThreadEvent::Woken),
        ThreadAction::Compile(0x20)
    );
    assert_eq!(offer(&mut bg, &mut counters, 0x40).post, PostLock::Nothing);
    assert_eq!(
        bgcompile::bg_thread_main(&mut bg, ThreadEvent::Compiled),
        ThreadAction::Compile(0x30)
    );
    assert_eq!(counters.bg_compile_queue_high_water, 3);
}

#[test]
fn a_thread_that_is_gone_is_replaced() {
    let mut counters = Counters::default();
    let mut bg = parked(&mut counters);
    // Noticed by the enqueue.
    let dead = EnqueueEnv { thread_alive: false, ..ENV };
    let enqueued =
        bgcompile::rb_zjit_bg_enqueue(&mut bg, &mut fresh(), 0x20, None, dead, &mut counters);
    assert_eq!(enqueued.post, PostLock::Start);
    assert_eq!(counters.bg_compile_thread_restart_count, 1);
    // Noticed by the wakeup.
    let mut bg = parked(&mut counters);
    assert_eq!(bgcompile::woken(&mut bg, VALUE(QNIL), &mut counters), PostAction::Start);
    assert!(!bg.started && !bg.parked && bg.thread == VALUE(QNIL));
    assert_eq!(counters.bg_compile_thread_restart_count, 2);
    assert_eq!(bgcompile::run_post_lock(&bg, PostLock::Wake), PostAction::Done);
}

#[test]
fn an_iseq_is_not_queued_twice() {
    let mut bg = BgCompiler::new();
    let mut counters = Counters::default();
    let mut payload = fresh();
    for _ in 0..2 {
        bgcompile::enqueue_locked(&mut bg, &mut payload, 0x20, None, true, &mut counters);
    }
    assert_eq!(bg.queue.len(), 1);
    assert_eq!(counters.bg_compile_enqueue_count, 1);
}

#[test]
fn a_full_queue_rearms_the_threshold() {
    let mut bg = BgCompiler::new();
    let mut counters = Counters::default();
    for idx in 0..MAX_QUEUE_LEN {
        offer(&mut bg, &mut counters, 16 * (idx as u64 + 1));
    }
    let mut payload = fresh();
    let enqueued = bgcompile::rb_zjit_bg_enqueue(
        &mut bg,
        &mut payload,
        8,
        Some(true),
        ENV,
        &mut counters,
    );
    assert_eq!(enqueued, Enqueued { post: PostLock::Start, rearm: true });
    assert_eq!(payload, fresh());
    assert_eq!(bg.queue.len(), MAX_QUEUE_LEN);
    assert_eq!(counters.bg_compile_overflow_count, 1);
}

#[test]
fn requests_are_declined() {
    let mut bg = BgCompiler::new();
    let mut counters = Counters::default();
    let declined = Enqueued { post: PostLock::Declined, rearm: false };
    for env in [
        EnqueueEnv { zjit_enabled: false, ..ENV },
        EnqueueEnv { background_compile: false, ..ENV },
        EnqueueEnv { assert_compiles: true, ..ENV },
        EnqueueEnv { main_ractor: false, ..ENV },
    ] {
        let enqueued =
            bgcompile::rb_zjit_bg_enqueue(&mut bg, &mut fresh(), 8, None, env, &mut counters);
        assert_eq!(enqueued, declined);
        assert!(bg.queue.is_empty());
    }
    assert!(bgcompile::enabled(true, false, None));
    assert!(bgcompile::enabled(true, false, Some(&bg)));
    assert_eq!(bgcompile::disable_locked(&mut bg, &mut counters), Vec::<u64>::new());
    assert!(!bgcompile::enabled(true, false, Some(&bg)));
    assert_eq!(offer(&mut bg, &mut counters, 8), declined);
}

#[test]
fn a_thread_that_does_not_start_gives_the_queue_back() {
    let mut bg = BgCompiler::new();
    let mut counters = Counters::default();
    offer(&mut bg, &mut counters, 16);
    offer(&mut bg, &mut counters, 24);
    let dropped = bgcompile::thread_started(&mut bg, 1, VALUE(QNIL), &mut counters);
    assert_eq!(dropped, Err(vec![16, 24]));
    assert!(bg.disabled && bg.queue.is_empty());
    assert_eq!(counters.bg_compile_disabled_count, 1);
    // A thread of a compiler that was given up returns.
    assert_eq!(bgcompile::bg_thread_main(&mut bg, ThreadEvent::Started), ThreadAction::Exit);
}

#[test]
fn stubs_wake_the_thread_later() {
    let mut counters = Counters::default();
    let mut idle = BgCompiler::new();
    let declined = StubEnqueued { side_exit: false, rearm: false };
    let answer =
        bgcompile::enqueue_from_stub(&mut idle, &mut fresh(), 16, ENV, &mut counters);
    assert_eq!(answer, declined);

    let mut bg = parked(&mut counters);
    assert_eq!(bgcompile::flush_deferred_wake(&mut bg), PostAction::Done);
    let answer = bgcompile::enqueue_from_stub(&mut bg, &mut fresh(), 16, ENV, &mut counters);
    assert_eq!(answer, StubEnqueued { side_exit: true, rearm: false });
    assert!(bg.wake_deferred);
    assert_eq!(bgcompile::flush_deferred_wake(&mut bg), PostAction::Wake(THREAD));
    assert!(!bg.wake_deferred);

    // A thread cannot be started under the lock.
    let dead = EnqueueEnv { thread_alive: false, ..ENV };
    let answer = bgcompile::enqueue_from_stub(&mut bg, &mut fresh(), 24, dead, &mut counters);
    assert_eq!(answer, declined);
}

#[test]
fn waiting_for_the_queue_is_bounded() {
    let mut counters = Counters::default();
    let mut bg = parked(&mut counters);
    assert!(!bgcompile::block_until_drained(&bg, 0));
    offer(&mut bg, &mut counters, 16);
    assert!(bgcompile::block_until_drained(&bg, 0));
    assert!(bgcompile::block_until_drained(&bg, MAX_DRAIN_YIELDS - 1));
    assert!(!bgcompile::block_until_drained(&bg, MAX_DRAIN_YIELDS));
    bgcompile::bg_thread_main(&mut bg, ThreadEvent::Woken);
    assert!(bgcompile::block_until_drained(&bg, 0));
    bgcompile::bg_thread_main(&mut bg, ThreadEvent::Compiled);
    assert!(!bgcompile::block_until_drained(&bg, 0));
}

#[test]
fn an_iseq_is_compiled_once() {
    let mut counters = Counters::default();
    let mut payload = IseqPayload { bg_queued: true, self_is_heap_object: false };
    let mut step = |event| bgcompile::compile_one(event, &mut payload, &mut counters);
    assert_eq!(step(CompileEvent::Taken { has_jit_entry: false }), CompileAction::CheckStack);
    assert_eq!(step(CompileEvent::StackChecked { full: false }), CompileAction::Lock);
    assert_eq!(step(CompileEvent::Locked { has_jit_entry: false }), CompileAction::Generate);
    assert_eq!(step(CompileEvent::Installed), CompileAction::Finish);
    assert_eq!(step(CompileEvent::Taken { has_jit_entry: true }), CompileAction::Finish);
    assert_eq!(step(CompileEvent::Locked { has_jit_entry: true }), CompileAction::Finish);
    assert_eq!(step(CompileEvent::StackChecked { full: true }), CompileAction::Finish);
    assert!(!payload.bg_queued);
    assert_eq!(counters.bg_compile_count, 1);
    assert_eq!(counters.bg_compile_discard_count, 2);
    assert_eq!(counters.skipped_native_stack_full, 1);
}

#[test]
fn the_queue_keeps_objects_alive_and_follows_them() {
    let mut counters = Counters::default();
    let mut bg = parked(&mut counters);
    offer(&mut bg, &mut counters, 16);
    offer(&mut bg, &mut counters, 24);
    offer(&mut bg, &mut counters, 32);
    bgcompile::bg_thread_main(&mut bg, ThreadEvent::Woken);
    assert_eq!(bgcompile::mark(&bg), vec![VALUE(24), VALUE(32), VALUE(16), THREAD]);
    bgcompile::update_references(&mut bg, |object| VALUE(object.0 + 0x100));
    assert_eq!(bg.queue, vec![24 + 0x100, 32 + 0x100]);
    assert_eq!(bg.current, Some(16 + 0x100));
    assert_eq!(bg.thread, VALUE(0x1100));

    let mut idle = BgCompiler::new();
    assert!(bgcompile::mark(&idle).is_empty());
    bgcompile::update_references(&mut idle, |object| VALUE(object.0 + 0x100));
    assert_eq!(idle.thread, VALUE(QNIL));
}
