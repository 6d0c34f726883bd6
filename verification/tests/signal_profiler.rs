use zjit::signal_profiler::{Profiler, SampleAction, SamplerAction, PROFILE_FRAMES_LIMIT};

const SIGPROF: i32 = 27;

#[test]
fn a_signal_takes_a_sample() {
    let mut profiler = Profiler::start(100);
    assert_eq!(profiler.samples(), 0);
    assert_eq!(
        profiler.sample_profile_frames(SIGPROF, SIGPROF),
        SampleAction::Collect(PROFILE_FRAMES_LIMIT)
    );
    profiler.frames_collected(3);
    assert_eq!(profiler.samples(), 1);
    // A sample without frames does not count.
    profiler.sample_profile_frames(SIGPROF, SIGPROF);
    profiler.frames_collected(0);
    assert_eq!(profiler.samples(), 1);
}

#[test]
fn other_signals_are_ignored() {
    let mut profiler = Profiler::start(100);
    let before = profiler;
    assert_eq!(profiler.sample_profile_frames(2, SIGPROF), SampleAction::Ignore);
    assert_eq!(profiler, before);
}

#[test]
fn the_handler_is_not_reentered() {
    let mut profiler = Profiler::start(100);
    profiler.sample_profile_frames(SIGPROF, SIGPROF);
    assert_eq!(profiler.sample_profile_frames(SIGPROF, SIGPROF), SampleAction::Ignore);
    profiler.frames_collected(1);
    assert_eq!(profiler.samples(), 1);
    assert_eq!(
        profiler.sample_profile_frames(SIGPROF, SIGPROF),
        SampleAction::Collect(PROFILE_FRAMES_LIMIT)
    );
}

#[test]
fn signals_are_sent_until_it_stops() {
    let mut profiler = Profiler::start(250);
    assert_eq!(profiler.sampler_step(), SamplerAction::Signal(250));
    profiler.stop();
    assert_eq!(profiler.sampler_step(), SamplerAction::Return);
}
