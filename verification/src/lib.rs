//! Beatmap playback and hit-judgment engine for a lane-based rhythm game.
//!
//! The library models a fixed-rate simulation: a logical frame clock, a store
//! of timed note events, a scheduler that materializes notes ahead of their
//! hit time, per-tick note motion toward a judgment line, and a judge that
//! matches lane presses against active notes within a tolerance window.
//! Beatmaps are saved to and loaded from a small structured text format.

pub mod codec;
pub mod laws;
pub mod modes;
pub mod note;
pub mod sim;

pub use note::Beatmap;
pub use note::NoteId;
pub use note::NoteLane;
