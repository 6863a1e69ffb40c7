use conway::{Playback, DEFAULT_FRAMERATE, DEFAULT_STEPS_PER_FRAME, MAX_FRAMERATE, MAX_STEPS_PER_FRAME};

#[test]
fn new_playback_is_paused_at_defaults() {
    let p = Playback::new();
    assert!(!p.playing());
    assert_eq!(p.framerate(), DEFAULT_FRAMERATE);
    assert_eq!(p.steps_per_frame(), DEFAULT_STEPS_PER_FRAME);
    assert_eq!(p.step_count(), 0);
    assert_eq!(p.frame_steps(), 0);
    assert_eq!(p.sleep_nanos(0), 0);
}

#[test]
fn play_and_pause() {
    let mut p = Playback::new();
    p.play();
    assert!(p.playing());
    assert_eq!(p.frame_steps(), 1);
    // 1e9 / 24 = 41_666_666 nanoseconds per frame.
    assert_eq!(p.sleep_nanos(666), 41_666_000);
    assert_eq!(p.sleep_nanos(50_000_000), 0);
    p.pause();
    assert!(!p.playing());
    assert_eq!(p.frame_steps(), 0);
}

#[test]
fn framerate_limits() {
    let mut p = Playback::new();
    for _ in 0..200 {
        p.inc_framerate();
    }
    assert_eq!(p.framerate(), MAX_FRAMERATE + 1);
    p.play();
    assert_eq!(p.sleep_nanos(0), 0);
    p.dec_framerate();
    assert_eq!(p.framerate(), MAX_FRAMERATE);
    // 1e9 / 120 = 8_333_333.
    assert_eq!(p.sleep_nanos(333), 8_333_000);
    for _ in 0..300 {
        p.dec_framerate();
    }
    assert_eq!(p.framerate(), 1);
    assert_eq!(p.sleep_nanos(0), 1_000_000_000);
}

#[test]
fn steps_per_frame_limits() {
    let mut p = Playback::new();
    p.dec_steps_per_frame();
    assert_eq!(p.steps_per_frame(), 1);
    for _ in 0..100 {
        p.inc_steps_per_frame();
    }
    assert_eq!(p.steps_per_frame(), MAX_STEPS_PER_FRAME);
    p.play();
    assert_eq!(p.frame_steps(), MAX_STEPS_PER_FRAME);
    p.record_steps(7);
    p.record_steps(3);
    assert_eq!(p.step_count(), 10);
}
