//! Pitch model and timeline primitives: note names, note events, the
//! event vocabulary (note, chord, rest, bar line) and event durations.

use vstd::prelude::*;

verus! {

use vstd::arithmetic::power2::pow2;
use vstd::arithmetic::power2::lemma_pow2_pos;
use vstd::arithmetic::power2::lemma_pow2_strictly_increases;
use vstd::arithmetic::mul::lemma_mul_strict_inequality;
use vstd::arithmetic::mul::lemma_mul_inequality;

/// Musical note names (chromatic scale)
#[derive(Debug, Clone, Copy, PartialEq, Eq, Structural)]
pub enum NoteName {
    C,
    CSharp,
    D,
    DSharp,
    E,
    F,
    FSharp,
    G,
    GSharp,
    A,
    ASharp,
    B,
}

/// Semitone offset of a note name within an octave (C = 0, B = 11).
pub open spec fn spec_semitone(n: NoteName) -> int {
    match n {
        NoteName::C => 0,
        NoteName::CSharp => 1,
        NoteName::D => 2,
        NoteName::DSharp => 3,
        NoteName::E => 4,
        NoteName::F => 5,
        NoteName::FSharp => 6,
        NoteName::G => 7,
        NoteName::GSharp => 8,
        NoteName::A => 9,
        NoteName::ASharp => 10,
        NoteName::B => 11,
    }
}

/// MIDI note number of a note name at a given octave:
/// `(octave + 1) * 12 + semitone`, so C4 is MIDI 60.
pub open spec fn spec_midi(n: NoteName, octave: int) -> int {
    (octave + 1) * 12 + spec_semitone(n)
}

/// Frequency of a note name at octave 0, in micro-hertz, equal tempered
/// with A4 = 440 Hz (so A0 is exactly 27.5 Hz). Each value is the real
/// frequency rounded to the nearest micro-hertz.
pub open spec fn spec_base_micros(n: NoteName) -> int {
    match n {
        NoteName::C => 16351598,
        NoteName::CSharp => 17323914,
        NoteName::D => 18354048,
        NoteName::DSharp => 19445436,
        NoteName::E => 20601722,
        NoteName::F => 21826764,
        NoteName::FSharp => 23124651,
        NoteName::G => 24499715,
        NoteName::GSharp => 25956544,
        NoteName::A => 27500000,
        NoteName::ASharp => 29135235,
        NoteName::B => 30867706,
    }
}

/// Frequency in micro-hertz: the octave-0 frequency doubled once per octave.
pub open spec fn spec_freq_micros(n: NoteName, octave: int) -> int {
    spec_base_micros(n) * pow2(octave as nat)
}

impl NoteName {
    /// MIDI note number within an octave (C=0, B=11)
    pub fn semitone(self) -> (s: u8)
        ensures
            s == spec_semitone(self),
    {
        match self {
            NoteName::C => 0,
            NoteName::CSharp => 1,
            NoteName::D => 2,
            NoteName::DSharp => 3,
            NoteName::E => 4,
            NoteName::F => 5,
            NoteName::FSharp => 6,
            NoteName::G => 7,
            NoteName::GSharp => 8,
            NoteName::A => 9,
            NoteName::ASharp => 10,
            NoteName::B => 11,
        }
    }

    /// Convert to MIDI note number given an octave (0-8)
    /// Middle C (C4) = MIDI 60
    pub fn to_midi(self, octave: u8) -> (m: u8)
        requires
            octave <= 8,
        ensures
            m == spec_midi(self, octave as int),
            12 <= m <= 119,
    {
        (octave + 1) * 12 + self.semitone()
    }

    /// Frequency in micro-hertz (A4 = 440 Hz exactly, equal tempered).
    pub fn to_freq(self, octave: u8) -> (f: u64)
        requires
            octave <= 8,
        ensures
            f == spec_freq_micros(self, octave as int),
    {
        let base: u64 = match self {
            NoteName::C => 16351598,
            NoteName::CSharp => 17323914,
            NoteName::D => 18354048,
            NoteName::DSharp => 19445436,
            NoteName::E => 20601722,
            NoteName::F => 21826764,
            NoteName::FSharp => 23124651,
            NoteName::G => 24499715,
            NoteName::GSharp => 25956544,
            NoteName::A => 27500000,
            NoteName::ASharp => 29135235,
            NoteName::B => 30867706,
        };
        assert(pow2(0) == 1) by {
            vstd::arithmetic::power2::lemma2_to64();
        }
        let mut f: u64 = base;
        let mut i: u8 = 0;
        while i < octave
            invariant
                i <= octave <= 8,
                base == spec_base_micros(self),
                base <= 30867706,
                f == spec_base_micros(self) * pow2(i as nat),
                f <= base * pow2(i as nat),
            decreases octave - i,
        {
            proof {
                lemma_pow2_within_octaves(i as nat);
                assert(pow2((i + 1) as nat) == 2 * pow2(i as nat)) by {
                    vstd::arithmetic::power2::lemma_pow2_unfold((i + 1) as nat);
                }
                lemma_mul_inequality(
                    spec_base_micros(self),
                    30867706,
                    pow2((i + 1) as nat) as int,
                );
            }
            f = f * 2;
            i = i + 1;
        }
        f
    }
}

/// Every power of two up to the eighth is at most 256.
proof fn lemma_pow2_within_octaves(i: nat)
    requires
        i <= 8,
    ensures
        pow2(i) <= 256,
{
    vstd::arithmetic::power2::lemma2_to64();
    if i < 8 {
        lemma_pow2_strictly_increases(i, 8);
    }
}

/// The octave-0 table is strictly increasing in the semitone.
proof fn lemma_base_monotonic(n1: NoteName, n2: NoteName)
    requires
        spec_semitone(n1) < spec_semitone(n2),
    ensures
        spec_base_micros(n1) < spec_base_micros(n2),
{
}

/// Frequency is strictly monotone in the MIDI number: a higher note
/// (by `octave * 12 + semitone`) always has a strictly higher frequency.
pub proof fn lemma_freq_monotonic(n1: NoteName, o1: u8, n2: NoteName, o2: u8)
    requires
        o1 <= 8,
        o2 <= 8,
        spec_midi(n1, o1 as int) < spec_midi(n2, o2 as int),
    ensures
        spec_freq_micros(n1, o1 as int) < spec_freq_micros(n2, o2 as int),
{
    lemma_pow2_pos(o1 as nat);
    lemma_pow2_pos(o2 as nat);
    if o1 == o2 {
        assert(spec_semitone(n1) < spec_semitone(n2));
        lemma_base_monotonic(n1, n2);
        lemma_mul_strict_inequality(
            spec_base_micros(n1),
            spec_base_micros(n2),
            pow2(o1 as nat) as int,
        );
    } else {
        assert(o1 < o2);
        // freq(n1, o1) <= base(B) * pow2(o1) < 2 * base(C) * pow2(o1)
        //              == base(C) * pow2(o1 + 1) <= base(C) * pow2(o2) <= freq(n2, o2)
        lemma_mul_inequality(spec_base_micros(n1), 30867706, pow2(o1 as nat) as int);
        assert(pow2((o1 + 1) as nat) == 2 * pow2(o1 as nat)) by {
            vstd::arithmetic::power2::lemma_pow2_unfold((o1 + 1) as nat);
        }
        if o1 + 1 < o2 {
            lemma_pow2_strictly_increases((o1 + 1) as nat, o2 as nat);
        }
        lemma_mul_inequality(pow2((o1 + 1) as nat) as int, pow2(o2 as nat) as int, 16351598);
        lemma_mul_inequality(16351598, spec_base_micros(n2), pow2(o2 as nat) as int);
        assert(30867706 * pow2(o1 as nat) < 16351598 * pow2((o1 + 1) as nat));
    }
}

/// A single note event
#[derive(Debug, Clone, Copy, PartialEq, Eq, Structural)]
pub struct NoteEvent {
    pub note: NoteName,
    pub octave: u8,
}

/// An event in the composition timeline
#[derive(Debug, Clone, PartialEq)]
pub enum Event {
    /// A single note
    Note(NoteEvent),
    /// Multiple notes sounding together
    Chord(Vec<NoteEvent>),
    /// A rest (duration in whole beats)
    Rest(u32),
    /// A bar line (visual/structural marker)
    BarLine,
}

/// Duration of one event in beats: notes and chords always last exactly
/// one beat, a rest lasts its stored beat count, a bar line is instantaneous.
pub open spec fn spec_event_duration(e: Event) -> int {
    match e {
        Event::Note(_) => 1,
        Event::Chord(_) => 1,
        Event::Rest(beats) => beats as int,
        Event::BarLine => 0,
    }
}

/// Beat-length of one event (notes and chords are fixed at one beat).
pub fn event_duration(e: &Event) -> (d: u32)
    ensures
        d == spec_event_duration(*e),
{
    match e {
        Event::Note(_) => 1,
        Event::Chord(_) => 1,
        Event::Rest(beats) => *beats,
        Event::BarLine => 0,
    }
}

/// Total beat-length of a sequence of events.
pub open spec fn spec_events_len_beats(events: Seq<Event>) -> int
    decreases events.len(),
{
    if events.len() == 0 {
        0
    } else {
        spec_event_duration(events[0]) + spec_events_len_beats(events.drop_first())
    }
}

/// The length of a prefix of events never exceeds the length of the whole,
/// and both are non-negative.
pub proof fn lemma_events_len_beats_parts(events: Seq<Event>, k: int)
    requires
        0 <= k <= events.len(),
    ensures
        0 <= spec_events_len_beats(events.take(k)) <= spec_events_len_beats(events),
    decreases events.len(),
{
    if events.len() == 0 {
        assert(events.take(k) =~= events);
    } else if k == 0 {
        assert(events.take(0) =~= Seq::<Event>::empty());
        lemma_events_len_beats_nonneg(events);
    } else {
        assert(events.take(k).drop_first() =~= events.drop_first().take(k - 1));
        lemma_events_len_beats_parts(events.drop_first(), k - 1);
    }
}

/// Every event sequence has a non-negative total beat-length.
pub proof fn lemma_events_len_beats_nonneg(events: Seq<Event>)
    ensures
        0 <= spec_events_len_beats(events),
    decreases events.len(),
{
    if events.len() > 0 {
        lemma_events_len_beats_nonneg(events.drop_first());
    }
}

/// A musical time signature (beats per bar over beat unit).
#[derive(Debug, Clone, Copy, PartialEq, Eq, Structural)]
pub struct TimeSignature {
    pub num: u8,
    pub den: u8,
}

/// A reusable, named sequence of musical events with its own metadata.
#[derive(Debug, Clone, PartialEq)]
pub struct Pattern {
    pub events: Vec<Event>,
    pub loop_pattern: bool,
    pub time_signature: TimeSignature,
    pub default_octave: u8,
}

impl Pattern {
    /// Total length of the pattern in beats.
    pub fn length_beats(&self) -> (len: u64)
        requires
            spec_events_len_beats(self.events@) <= u64::MAX,
        ensures
            len == spec_events_len_beats(self.events@),
    {
        let mut total: u64 = 0;
        let mut i: usize = 0;
        while i < self.events.len()
            invariant
                i <= self.events@.len(),
                total == spec_events_len_beats(self.events@.take(i as int)),
                spec_events_len_beats(self.events@) <= u64::MAX,
            decreases self.events@.len() - i,
        {
            proof {
                lemma_events_len_beats_parts(self.events@, i + 1);
                lemma_events_len_beats_take_one_more(self.events@, i as int);
            }
            total = total + event_duration(&self.events[i]) as u64;
            i = i + 1;
        }
        proof {
            assert(self.events@.take(self.events@.len() as int) =~= self.events@);
        }
        total
    }
}

/// Taking one more event adds exactly that event's duration.
pub proof fn lemma_events_len_beats_take_one_more(events: Seq<Event>, k: int)
    requires
        0 <= k < events.len(),
    ensures
        spec_events_len_beats(events.take(k + 1)) == spec_events_len_beats(events.take(k))
            + spec_event_duration(events[k]),
    decreases events.len(),
{
    if k == 0 {
        assert(events.take(1).drop_first() =~= Seq::<Event>::empty());
        assert(events.take(0) =~= Seq::<Event>::empty());
    } else {
        assert(events.take(k + 1).drop_first() =~= events.drop_first().take(k));
        assert(events.take(k).drop_first() =~= events.drop_first().take(k - 1));
        lemma_events_len_beats_take_one_more(events.drop_first(), k - 1);
    }
}

/// A named track with its own settings and events
#[derive(Debug, Clone)]
pub struct Track {
    pub name: String,
    pub patch: Option<String>,
    pub octave: u8,
    pub events: Vec<Event>,
}

/// A full parsed composition
#[derive(Debug, Clone)]
pub struct Composition {
    pub tempo: u32,
    pub time_signature: TimeSignature,
    pub default_octave: u8,
    pub default_patch: Option<String>,
    pub tracks: Vec<Track>,
}

impl Composition {
    /// A composition with the defaults: 120 BPM, 4/4 time, octave 4.
    pub fn new() -> (c: Composition)
        ensures
            c.tempo == 120,
            c.time_signature == (TimeSignature { num: 4, den: 4 }),
            c.default_octave == 4,
            c.default_patch is None,
            c.tracks@.len() == 0,
    {
        Composition {
            tempo: 120,
            time_signature: TimeSignature { num: 4, den: 4 },
            default_octave: 4,
            default_patch: None,
            tracks: Vec::new(),
        }
    }
}

} // verus!
