//! Song structure: a song is a tempo, a time signature and an ordered
//! list of tracks; each track pairs an instrument with a sequence of
//! (pattern, repeat count) segments. Pattern and instrument references
//! are plain path strings; loading and resolving the files they name is
//! the surrounding application's concern.

use vstd::prelude::*;

verus! {

use crate::note::TimeSignature;

/// One segment in a track: play this pattern N times.
#[derive(Debug, Clone)]
pub struct Segment {
    pub notes_path: String,
    pub times: u32,
}

/// One track: one instrument + a sequence of (pattern, repeat count).
#[derive(Debug, Clone)]
pub struct SongTrack {
    pub instrument_path: String,
    pub sequence: Vec<Segment>,
}

/// A song: tempo, time signature, and one or more tracks (instrument + pattern sequence).
#[derive(Debug, Clone)]
pub struct Song {
    pub tempo: u32,
    pub time_signature: TimeSignature,
    pub tracks: Vec<SongTrack>,
}

} // verus!
