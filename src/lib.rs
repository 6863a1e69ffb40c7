//! Conway's Game of Life on a fixed-size torus, with a sparse set of live
//! cells, a memoised evolution step and loaders for two pattern formats.

pub mod life;
pub mod pattern;
pub mod playback;

pub use life::{Cell, GameOfLife, ALIVE_DRAW};
pub use pattern::{
    chars_of, parse_chars, parse_coords, parse_dimensions, pattern_format, PatternError,
    PatternFormat,
};
pub use playback::{
    Playback, PlaybackView, DEFAULT_FRAMERATE, DEFAULT_STEPS_PER_FRAME, MAX_FRAMERATE,
    MAX_STEPS_PER_FRAME,
};
