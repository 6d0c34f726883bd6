//! Counters of what the compiler did.

use vstd::prelude::*;

verus! {

/// Running totals. They wrap around on overflow.
#[derive(Clone, Copy, Debug, PartialEq, Eq, Structural)]
pub struct Counters {
    /// Descriptors registered.
    pub exit_descriptor_count: u64,
    /// Bytes that registered descriptors take.
    pub exit_descriptor_bytes: u64,
    /// ISEQs handed to the compile thread.
    pub bg_compile_enqueue_count: u64,
    /// ISEQs that found the compile queue full.
    pub bg_compile_overflow_count: u64,
    /// Most ISEQs that were waiting or compiling at once.
    pub bg_compile_queue_high_water: u64,
    /// Compile threads found dead.
    pub bg_compile_thread_restart_count: u64,
    /// Times background compilation was given up.
    pub bg_compile_disabled_count: u64,
    /// Queued ISEQs that something else compiled first.
    pub bg_compile_discard_count: u64,
    /// ISEQs that the compile thread compiled.
    pub bg_compile_count: u64,
    /// ISEQs not compiled because the native stack was nearly full.
    pub skipped_native_stack_full: u64,
}

/// No counts at all.
pub open spec fn zero_counters() -> Counters {
    Counters {
        exit_descriptor_count: 0,
        exit_descriptor_bytes: 0,
        bg_compile_enqueue_count: 0,
        bg_compile_overflow_count: 0,
        bg_compile_queue_high_water: 0,
        bg_compile_thread_restart_count: 0,
        bg_compile_disabled_count: 0,
        bg_compile_discard_count: 0,
        bg_compile_count: 0,
        skipped_native_stack_full: 0,
    }
}

impl Default for Counters {
    fn default() -> (r: Self)
        ensures
            r == zero_counters(),
    {
        Counters {
            exit_descriptor_count: 0,
            exit_descriptor_bytes: 0,
            bg_compile_enqueue_count: 0,
            bg_compile_overflow_count: 0,
            bg_compile_queue_high_water: 0,
            bg_compile_thread_restart_count: 0,
            bg_compile_disabled_count: 0,
            bg_compile_discard_count: 0,
            bg_compile_count: 0,
            skipped_native_stack_full: 0,
        }
    }
}

} // verus!
