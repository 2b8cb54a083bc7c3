//! A text-driven music sequencer core: a pitch model, an event timeline,
//! a scheduler that flattens a multi-track song into one beat-ordered
//! command sequence, an ADSR envelope state machine, and a voice pool that
//! advances every sounding voice sample by sample.
//!
//! All quantities are integers: frequencies in micro-hertz, envelope
//! levels in parts per million of full scale, and times in whole samples
//! or microseconds. The surrounding application converts these to the
//! floating-point values its audio backend wants.

pub mod command;
pub mod envelope;
pub mod note;
pub mod parser;
pub mod playback;
pub mod scheduler;
pub mod sort;
pub mod song;
pub mod voice;

pub use note::NoteName;
