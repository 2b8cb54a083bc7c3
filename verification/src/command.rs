//! The command vocabulary of the audio engine. Commands are plain value
//! types; they cross from the control context to the rendering context
//! over a channel owned by the surrounding application.
//!
//! Frequencies are in micro-hertz. A voice is addressed by its track
//! index together with a key: a voice identifier drawn from a bounded
//! space of 512 identifiers per track.

use vstd::prelude::*;

verus! {

/// A command sent to the audio engine
#[derive(Debug, Clone, Copy, PartialEq, Eq, Structural)]
pub enum LiveCommand {
    /// Start playing (or retrigger) a note on a track
    NoteOn { track: usize, key: u32, freq: u64 },
    /// Stop a note on a track
    NoteOff { track: usize, key: u32 },
    /// Stop all notes (all tracks)
    AllNotesOff,
    /// Shut down the engine
    Shutdown,
}

/// The track a command addresses, or -1 for the broadcast commands.
pub open spec fn spec_command_track(c: LiveCommand) -> int {
    match c {
        LiveCommand::NoteOn { track, .. } => track as int,
        LiveCommand::NoteOff { track, .. } => track as int,
        LiveCommand::AllNotesOff => -1,
        LiveCommand::Shutdown => -1,
    }
}

} // verus!
