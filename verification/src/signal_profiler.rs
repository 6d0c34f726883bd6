//! A sampling profiler: a signal interrupts a thread at regular intervals, and the handler takes
//! a sample of its frames.
//!
//! Sending signals, sleeping and walking frames is left to the caller: each function here says
//! what to do next and is told what came of it.

use vstd::prelude::*;

verus! {

/// Most frames that one sample holds.
pub const PROFILE_FRAMES_LIMIT: usize = 128;

/// A profiler that runs.
#[derive(Clone, Copy, Debug, PartialEq, Eq, Structural)]
pub struct Profiler {
    /// Samples taken so far that held a frame.
    pub samples: usize,
    /// Whether a sample is being taken.
    pub in_handler: bool,
    /// Set when the thread that sends the signals should return.
    pub stop_sampler: bool,
    /// Microseconds between two signals.
    pub interval_usec: u64,
}

/// What a signal handler does.
#[derive(Clone, Copy, Debug, PartialEq, Eq, Structural)]
pub enum SampleAction {
    /// Nothing.
    Ignore,
    /// Collect up to this many frames, and report how many there were to
    /// [`Profiler::frames_collected`].
    Collect(usize),
}

/// What the thread that sends the signals does next.
#[derive(Clone, Copy, Debug, PartialEq, Eq, Structural)]
pub enum SamplerAction {
    /// Send a signal, sleep for this many microseconds, and ask again.
    Signal(u64),
    /// Return.
    Return,
}

/// What a handler does about a signal.
pub open spec fn sample_action(p: Profiler, signum: i32, sigprof: i32) -> SampleAction {
    if signum != sigprof || p.in_handler {
        SampleAction::Ignore
    } else {
        SampleAction::Collect(PROFILE_FRAMES_LIMIT)
    }
}

/// The profiler once its handler has decided about a signal.
pub open spec fn signalled(p: Profiler, signum: i32, sigprof: i32) -> Profiler {
    if signum == sigprof {
        Profiler { in_handler: true, ..p }
    } else {
        p
    }
}

/// The profiler once a sample is complete.
pub open spec fn sampled(p: Profiler, collected_size: i32) -> Profiler {
    Profiler {
        samples: if collected_size > 0 {
            p.samples.wrapping_add(1)
        } else {
            p.samples
        },
        in_handler: false,
        ..p
    }
}

impl Profiler {
    /// Start to sample every `interval_usec` microseconds. The thread that sends the signals
    /// follows [`Self::sampler_step`].
    pub fn start(interval_usec: u64) -> (r: Self)
        requires
            interval_usec > 0,
        ensures
            r == (Profiler { samples: 0, in_handler: false, stop_sampler: false, interval_usec }),
    {
        vstd::pervasive::runtime_assert(interval_usec > 0);
        Profiler { samples: 0, in_handler: false, stop_sampler: false, interval_usec }
    }

    /// A signal was caught. `sigprof` is the number of the one that asks for a sample. A sample
    /// that is interrupted by another signal goes on as if nothing had happened.
    pub fn sample_profile_frames(&mut self, signum: i32, sigprof: i32) -> (r: SampleAction)
        ensures
            r == sample_action(*old(self), signum, sigprof),
            *final(self) == signalled(*old(self), signum, sigprof),
    {
        if signum != sigprof {
            return SampleAction::Ignore;
        }
        let busy: bool = self.in_handler;
        self.in_handler = true;
        if busy {
            SampleAction::Ignore
        } else {
            SampleAction::Collect(PROFILE_FRAMES_LIMIT)
        }
    }

    /// The sample held this many frames.
    pub fn frames_collected(&mut self, collected_size: i32)
        ensures
            *final(self) == sampled(*old(self), collected_size),
    {
        if collected_size > 0 {
            self.samples = self.samples.wrapping_add(1);
        }
        self.in_handler = false;
    }

    /// What the thread that sends the signals does next.
    pub fn sampler_step(&self) -> (r: SamplerAction)
        ensures
            r == if self.stop_sampler {
                SamplerAction::Return
            } else {
                SamplerAction::Signal(self.interval_usec)
            },
    {
        if self.stop_sampler {
            SamplerAction::Return
        } else {
            SamplerAction::Signal(self.interval_usec)
        }
    }

    /// Have the thread that sends the signals return.
    pub fn stop(&mut self)
        ensures
            *final(self) == (Profiler { stop_sampler: true, ..*old(self) }),
    {
        self.stop_sampler = true;
    }

    /// Samples taken so far.
    pub fn samples(&self) -> (r: usize)
        ensures
            r == self.samples,
    {
        self.samples
    }
}

/// A sample is counted once, however many signals interrupt it: a signal that arrives while one
/// is taken is ignored and leaves no trace, and the next one after it is done takes a sample
/// again.
pub proof fn law_handler_is_not_reentered(p: Profiler, signum: i32, sigprof: i32, collected: i32)
    requires
        p.in_handler,
    ensures
        sample_action(p, signum, sigprof) is Ignore,
        signalled(p, signum, sigprof) == p,
        sample_action(sampled(p, collected), sigprof, sigprof) is Collect,
        sampled(p, collected).samples == if collected > 0 {
            p.samples.wrapping_add(1)
        } else {
            p.samples
        },
{
}

} // verus!
