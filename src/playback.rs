use vstd::prelude::*;

verus! {

/// Frames per second when a renderer starts.
pub const DEFAULT_FRAMERATE: u128 = 24;

/// The largest finite framerate; one more means "as fast as possible".
pub const MAX_FRAMERATE: u128 = 120;

/// Generations per frame when a renderer starts.
pub const DEFAULT_STEPS_PER_FRAME: usize = 1;

/// The largest number of generations per frame.
pub const MAX_STEPS_PER_FRAME: usize = 50;

/// Nanoseconds in a second.
pub const NANOS_PER_SECOND: u128 = 1000000000;

/// The shortest time a frame may take at `framerate`; none when unlimited.
pub open spec fn min_nanos_for(framerate: u128) -> u128 {
    if framerate > MAX_FRAMERATE {
        0
    } else {
        (NANOS_PER_SECOND / framerate) as u128
    }
}

/// What a renderer's playback settings amount to.
pub struct PlaybackView {
    pub play: bool,
    pub framerate: u128,
    pub min_render_nanos: u128,
    pub steps_per_frame: usize,
    pub step_count: u128,
}

/// The playback settings of a renderer: whether it advances the game after
/// each frame, how fast, by how many generations, and how many it has taken.
pub struct Playback {
    play: bool,
    framerate: u128,
    min_render_nanos: u128,
    steps_per_frame: usize,
    step_count: u128,
}

impl View for Playback {
    type V = PlaybackView;

    closed spec fn view(&self) -> PlaybackView {
        PlaybackView {
            play: self.play,
            framerate: self.framerate,
            min_render_nanos: self.min_render_nanos,
            steps_per_frame: self.steps_per_frame,
            step_count: self.step_count,
        }
    }
}

impl Playback {
    /// The framerate lies in `1..=MAX_FRAMERATE + 1`, the frame time matches
    /// it, and the generations per frame lie in `1..=MAX_STEPS_PER_FRAME`.
    pub open spec fn wf(&self) -> bool {
        &&& 1 <= self@.framerate <= MAX_FRAMERATE + 1
        &&& self@.min_render_nanos == min_nanos_for(self@.framerate)
        &&& 1 <= self@.steps_per_frame <= MAX_STEPS_PER_FRAME
    }

    /// Paused, at the default framerate and generations per frame, with no
    /// generation taken.
    pub fn new() -> (p: Playback)
        ensures
            p.wf(),
            p@ == (PlaybackView {
                play: false,
                framerate: DEFAULT_FRAMERATE,
                min_render_nanos: (NANOS_PER_SECOND / DEFAULT_FRAMERATE) as u128,
                steps_per_frame: DEFAULT_STEPS_PER_FRAME,
                step_count: 0,
            }),
    {
        Playback {
            play: false,
            framerate: DEFAULT_FRAMERATE,
            min_render_nanos: NANOS_PER_SECOND / DEFAULT_FRAMERATE,
            steps_per_frame: DEFAULT_STEPS_PER_FRAME,
            step_count: 0,
        }
    }

    /// Advance the game after each frame from now on.
    pub fn play(&mut self)
        ensures
            final(self)@ == (PlaybackView { play: true, ..old(self)@ }),
    {
        self.play = true;
    }

    /// Only show the game from now on, without advancing it.
    pub fn pause(&mut self)
        ensures
            final(self)@ == (PlaybackView { play: false, ..old(self)@ }),
    {
        self.play = false;
    }

    /// Whether the game advances after each frame.
    pub fn playing(&self) -> (b: bool)
        ensures
            b == self@.play,
    {
        self.play
    }

    /// Frames per second; `MAX_FRAMERATE + 1` stands for no limit.
    pub fn framerate(&self) -> (f: u128)
        ensures
            f == self@.framerate,
    {
        self.framerate
    }

    /// Generations taken per frame while playing.
    pub fn steps_per_frame(&self) -> (n: usize)
        ensures
            n == self@.steps_per_frame,
    {
        self.steps_per_frame
    }

    /// Generations taken so far.
    pub fn step_count(&self) -> (n: u128)
        ensures
            n == self@.step_count,
    {
        self.step_count
    }

    /// One frame per second more, up to `MAX_FRAMERATE`; one more step from
    /// there lifts the limit.
    pub fn inc_framerate(&mut self)
        requires
            old(self).wf(),
        ensures
            final(self).wf(),
            final(self)@.framerate == if old(self)@.framerate <= MAX_FRAMERATE {
                (old(self)@.framerate + 1) as u128
            } else {
                old(self)@.framerate
            },
            final(self)@ == (PlaybackView {
                framerate: final(self)@.framerate,
                min_render_nanos: final(self)@.min_render_nanos,
                ..old(self)@
            }),
    {
        if self.framerate < MAX_FRAMERATE {
            self.framerate = self.framerate + 1;
            self.min_render_nanos = NANOS_PER_SECOND / self.framerate;
        } else if self.framerate == MAX_FRAMERATE {
            self.framerate = self.framerate + 1;
            self.min_render_nanos = 0;
        }
    }

    /// One frame per second less, down to one.
    pub fn dec_framerate(&mut self)
        requires
            old(self).wf(),
        ensures
            final(self).wf(),
            final(self)@.framerate == if old(self)@.framerate > 1 {
                (old(self)@.framerate - 1) as u128
            } else {
                old(self)@.framerate
            },
            final(self)@ == (PlaybackView {
                framerate: final(self)@.framerate,
                min_render_nanos: final(self)@.min_render_nanos,
                ..old(self)@
            }),
    {
        if self.framerate > 1 {
            self.framerate = self.framerate - 1;
            self.min_render_nanos = NANOS_PER_SECOND / self.framerate;
        }
    }

    /// One generation per frame more, up to `MAX_STEPS_PER_FRAME`.
    pub fn inc_steps_per_frame(&mut self)
        ensures
            final(self)@ == (PlaybackView {
                steps_per_frame: if old(self)@.steps_per_frame < MAX_STEPS_PER_FRAME {
                    (old(self)@.steps_per_frame + 1) as usize
                } else {
                    old(self)@.steps_per_frame
                },
                ..old(self)@
            }),
    {
        if self.steps_per_frame < MAX_STEPS_PER_FRAME {
            self.steps_per_frame = self.steps_per_frame + 1;
        }
    }

    /// One generation per frame less, down to one.
    pub fn dec_steps_per_frame(&mut self)
        ensures
            final(self)@ == (PlaybackView {
                steps_per_frame: if old(self)@.steps_per_frame > 1 {
                    (old(self)@.steps_per_frame - 1) as usize
                } else {
                    old(self)@.steps_per_frame
                },
                ..old(self)@
            }),
    {
        if self.steps_per_frame > 1 {
            self.steps_per_frame = self.steps_per_frame - 1;
        }
    }

    /// How many generations to take after the frame just drawn: the
    /// generations per frame while playing, none while paused.
    pub fn frame_steps(&self) -> (n: usize)
        ensures
            n == if self@.play {
                self@.steps_per_frame
            } else {
                0
            },
    {
        if self.play {
            self.steps_per_frame
        } else {
            0
        }
    }

    /// Counts `n` more generations taken; the count stops at `u128::MAX`.
    pub fn record_steps(&mut self, n: usize)
        ensures
            final(self)@ == (PlaybackView {
                step_count: if old(self)@.step_count + n <= u128::MAX {
                    (old(self)@.step_count + n) as u128
                } else {
                    u128::MAX
                },
                ..old(self)@
            }),
    {
        self.step_count = self.step_count.saturating_add(n as u128);
    }

    /// How long to wait after a frame that took `elapsed` nanoseconds: what
    /// is left of the frame time while playing, nothing otherwise.
    pub fn sleep_nanos(&self, elapsed: u128) -> (w: u128)
        ensures
            w == if self@.play && elapsed < self@.min_render_nanos {
                (self@.min_render_nanos - elapsed) as u128
            } else {
                0
            },
    {
        if self.play && elapsed < self.min_render_nanos {
            self.min_render_nanos - elapsed
        } else {
            0
        }
    }
}

} // verus!
