//! The decisions of an audio player that drives two playback pipelines and fades from
//! one to the other at the end of a track.
//!
//! The library holds the player's state and answers each request and each message of a
//! pipeline with the actions to take; the pipelines themselves, their bus, the clock and
//! the timers belong to the program around it.
pub mod action;
pub mod crossfade;
pub mod double;
pub mod fade_laws;
pub mod laws;
pub mod number_laws;
pub mod operation_laws;
pub mod player;
pub mod rounding;
pub mod tick_laws;
pub mod transition;
pub mod uri;
