use zjit::alloc_stats;
use zjit::alloc_stats::{AllocStats, PHASES, PHASE_NONE};
use zjit::recycle;
use zjit::recycle::{
    Allocated, BlockLayout, Cache, Freed, MoveFinished, Realloc, Resize, MAX_RETAINED,
};
use zjit::stats_alloc::StatsAlloc;

fn layout(size: usize, align: usize) -> BlockLayout {
    BlockLayout { size, align }
}

#[test]
fn nothing_is_attributed_until_enabled() {
    let mut stats = AllocStats::default();
    assert_eq!(alloc_stats::set_phase(&mut stats, 5), PHASE_NONE);
    alloc_stats::record(&mut stats, 100);
    assert_eq!(stats.count[5], 0);
    assert_eq!(stats.count[PHASE_NONE], 0);
}

#[test]
fn phases_nest() {
    let mut stats = AllocStats::default();
    alloc_stats::enable(&mut stats);
    alloc_stats::record(&mut stats, 1);
    let outer = alloc_stats::set_phase(&mut stats, 5);
    assert_eq!(outer, PHASE_NONE);
    alloc_stats::record(&mut stats, 10);
    let inner = alloc_stats::set_phase(&mut stats, 6);
    assert_eq!(inner, 5);
    alloc_stats::record(&mut stats, 100);
    alloc_stats::record(&mut stats, 100);
    alloc_stats::restore_phase(&mut stats, inner);
    alloc_stats::record(&mut stats, 10);
    alloc_stats::restore_phase(&mut stats, outer);
    assert_eq!(stats.phase, PHASE_NONE);
    assert_eq!((stats.count[0], stats.bytes[0]), (1, 1));
    assert_eq!((stats.count[5], stats.bytes[5]), (2, 20));
    assert_eq!((stats.count[6], stats.bytes[6]), (2, 200));
}

#[test]
fn an_unknown_phase_is_no_phase() {
    let mut stats = AllocStats::default();
    alloc_stats::enable(&mut stats);
    alloc_stats::set_phase(&mut stats, PHASES);
    assert_eq!(stats.phase, PHASE_NONE);
}

#[test]
fn layouts_have_classes() {
    assert_eq!(recycle::class_of(layout(1, 1)), Some(0));
    assert_eq!(recycle::class_of(layout(16, 16)), Some(0));
    assert_eq!(recycle::class_of(layout(17, 8)), Some(1));
    assert_eq!(recycle::class_of(layout(1024, 8)), Some(63));
    assert_eq!(recycle::class_of(layout(1025, 8)), None);
    assert_eq!(recycle::class_of(layout(0, 8)), None);
    assert_eq!(recycle::class_of(layout(16, 32)), None);
    assert_eq!(recycle::canonical_layout(1), layout(32, 16));
    assert_eq!(recycle::system_size(layout(17, 8)), 32);
    assert_eq!(recycle::system_size(layout(2000, 8)), 2000);
}

#[test]
fn freed_blocks_come_back_last_first() {
    let mut cache = Cache::default();
    assert_eq!(
        recycle::alloc_block(&mut cache, layout(20, 8)),
        Allocated::System(layout(32, 16))
    );
    assert_eq!(recycle::dealloc(&mut cache, 0x100, layout(20, 8)), Freed::Parked);
    assert_eq!(recycle::dealloc(&mut cache, 0x200, layout(32, 16)), Freed::Parked);
    assert_eq!(cache.retained, 64);
    assert_eq!(
        recycle::alloc_zeroed(&mut cache, layout(25, 1)),
        (Allocated::Cached(0x200), 32)
    );
    assert_eq!(recycle::alloc_block(&mut cache, layout(17, 1)), Allocated::Cached(0x100));
    assert_eq!(cache.retained, 0);
    assert_eq!(
        recycle::alloc_zeroed(&mut cache, layout(17, 1)),
        (Allocated::System(layout(32, 16)), 0)
    );
}

#[test]
fn large_blocks_pass_through() {
    let mut cache = Cache::default();
    let large = layout(4096, 64);
    assert_eq!(recycle::alloc_block(&mut cache, large), Allocated::System(large));
    assert_eq!(recycle::dealloc(&mut cache, 0x100, large), Freed::System(large));
}

#[test]
fn retention_is_capped() {
    let mut cache = Cache::default();
    for idx in 0..(MAX_RETAINED / 1024) {
        assert_eq!(recycle::dealloc(&mut cache, idx as u64 + 1, layout(1024, 8)), Freed::Parked);
    }
    assert_eq!(cache.retained, MAX_RETAINED);
    assert_eq!(
        recycle::dealloc(&mut cache, 1, layout(5, 8)),
        Freed::System(layout(16, 16))
    );
    assert_eq!(cache.retained, MAX_RETAINED);
}

#[test]
fn resizing_within_a_class_is_free() {
    let mut cache = Cache::default();
    assert_eq!(recycle::realloc(&mut cache, layout(17, 8), 30), Resize::InPlace);
    assert_eq!(recycle::realloc(&mut cache, layout(2000, 8), 3000), Resize::Passthrough);
    let how = recycle::realloc(&mut cache, layout(17, 8), 40);
    assert_eq!(how, Resize::Move(Allocated::System(layout(48, 16))));
    let finished = recycle::finish_realloc(
        &mut cache,
        0x100,
        layout(17, 8),
        0x200,
        40,
        Allocated::System(layout(48, 16)),
    );
    assert_eq!(
        finished,
        MoveFinished {
            result: Realloc::Moved { ptr: 0x200, system_alloc: true, system_free: false },
            copied: 17,
            freed: Some(Freed::Parked),
        }
    );
    assert_eq!(recycle::alloc_block(&mut cache, layout(32, 8)), Allocated::Cached(0x100));
}

#[test]
fn a_failed_move_keeps_the_block() {
    let mut cache = Cache::default();
    let finished = recycle::finish_realloc(
        &mut cache,
        0x100,
        layout(17, 8),
        0,
        2000,
        Allocated::System(layout(2000, 8)),
    );
    assert_eq!(
        finished,
        MoveFinished {
            result: Realloc::Moved { ptr: 0, system_alloc: false, system_free: false },
            copied: 0,
            freed: None,
        }
    );
    assert_eq!(cache.retained, 0);
}

#[test]
fn live_bytes_are_counted() {
    let mut cache = Cache::default();
    let mut stats = AllocStats::default();
    alloc_stats::enable(&mut stats);
    let mut live = StatsAlloc { alloc_size: 0 };
    live.alloc_block(&mut cache, &mut stats, layout(20, 8));
    assert_eq!(live.alloc_size, 32);
    // Parked blocks stay on the books.
    assert_eq!(live.dealloc(&mut cache, 0x100, layout(20, 8)), Freed::Parked);
    assert_eq!(live.alloc_size, 32);
    assert_eq!(
        live.alloc_zeroed(&mut cache, &mut stats, layout(30, 8)),
        (Allocated::Cached(0x100), 32)
    );
    assert_eq!(live.alloc_size, 32);
    live.alloc_block(&mut cache, &mut stats, layout(5000, 8));
    assert_eq!(live.alloc_size, 5032);
    assert_eq!(
        live.realloc(&mut cache, &mut stats, layout(5000, 8), 6000),
        Resize::Passthrough
    );
    assert_eq!(live.alloc_size, 6032);
    assert_eq!(
        live.realloc(&mut cache, &mut stats, layout(6000, 8), 2000),
        Resize::Passthrough
    );
    assert_eq!(live.alloc_size, 2032);
    // Moving from the system allocator into a cached class.
    let how = live.realloc(&mut cache, &mut stats, layout(2000, 8), 100);
    assert_eq!(how, Resize::Move(Allocated::System(layout(112, 16))));
    let finished = live.finish_realloc(
        &mut cache,
        0x500,
        layout(2000, 8),
        0x600,
        100,
        Allocated::System(layout(112, 16)),
    );
    assert_eq!(finished.copied, 100);
    assert_eq!(finished.freed, Some(Freed::System(layout(2000, 8))));
    assert_eq!(live.alloc_size, 32 + 112);
    assert_eq!((stats.count[0], stats.bytes[0]), (6, 20 + 30 + 5000 + 1000));
}
