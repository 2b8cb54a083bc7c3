//! Builds a sorted timeline of (beat, command) from a Song and loaded patterns.
//!
//! For each track (its index = its position in the song) a beat cursor
//! runs over the track's segments; every repetition of a pattern walks
//! the pattern's events left to right, emitting one NoteOn/NoteOff pair
//! per note — each note sounds exactly one beat — while rests and bar
//! lines only advance the cursor. Each note gets a voice key from a
//! per-track counter mapped into a space of 512 identifiers; the
//! accumulated events are then stably sorted by beat.

use vstd::prelude::*;

verus! {

use vstd::arithmetic::div_mod::lemma_mod_mod;
use vstd::arithmetic::mul::lemma_mul_inequality;
use vstd::arithmetic::mul::lemma_mul_nonnegative;

use crate::command::LiveCommand;
use crate::note::Event;
use crate::note::NoteEvent;
use crate::note::Pattern;
use crate::note::event_duration;
use crate::note::lemma_events_len_beats_nonneg;
use crate::note::lemma_events_len_beats_parts;
use crate::note::lemma_events_len_beats_take_one_more;
use crate::note::spec_event_duration;
use crate::note::spec_events_len_beats;
use crate::note::spec_freq_micros;
use crate::song::Segment;
use crate::song::Song;
use crate::song::SongTrack;

/// One scheduled event: at this beat, send this command.
/// Beats are whole numbers counted from the start of the song.
#[derive(Debug, Clone, Copy, PartialEq, Eq, Structural)]
pub struct ScheduledEvent {
    pub beat: u64,
    pub command: LiveCommand,
}

/// Why a schedule could not be built.
#[derive(Debug, Clone, PartialEq, Eq)]
pub enum SchedulingError {
    /// A segment references a pattern that is not in the resolved set;
    /// carries the referenced path.
    MissingPattern(String),
    /// The song has no tracks at all.
    EmptySchedule,
}

/// The voice key of the n-th note allocated within a track: keys are
/// drawn from a bounded space of 512 identifiers per track, so two
/// notes of one track share a key only when at least 512 other notes
/// were allocated between them — under one-beat notes their sounding
/// intervals are then far apart.
pub open spec fn spec_key_of(ctr: int) -> u32 {
    (ctr % 512) as u32
}

/// The NoteOn event for one allocated note.
pub open spec fn spec_note_on(track: int, ctr: int, n: NoteEvent, beat: int) -> ScheduledEvent {
    ScheduledEvent {
        beat: beat as u64,
        command: LiveCommand::NoteOn {
            track: track as usize,
            key: spec_key_of(ctr),
            freq: spec_freq_micros(n.note, n.octave as int) as u64,
        },
    }
}

/// The NoteOff event for one allocated note, one beat after its NoteOn.
pub open spec fn spec_note_off(track: int, ctr: int, beat: int) -> ScheduledEvent {
    ScheduledEvent {
        beat: beat as u64,
        command: LiveCommand::NoteOff { track: track as usize, key: spec_key_of(ctr) },
    }
}

/// Events of one chord: one NoteOn/NoteOff pair per constituent note,
/// all sharing the chord's timing, each with its own voice key.
pub open spec fn spec_chord_emit(notes: Seq<NoteEvent>, track: int, beat: int, ctr: int) -> Seq<
    ScheduledEvent,
>
    decreases notes.len(),
{
    if notes.len() == 0 {
        Seq::empty()
    } else {
        seq![
            spec_note_on(track, ctr, notes[0], beat),
            spec_note_off(track, ctr, beat + 1),
        ] + spec_chord_emit(notes.drop_first(), track, beat, ctr + 1)
    }
}

/// How many voice keys one event allocates.
pub open spec fn spec_event_keys(e: Event) -> int {
    match e {
        Event::Note(_) => 1,
        Event::Chord(notes) => notes@.len() as int,
        Event::Rest(_) => 0,
        Event::BarLine => 0,
    }
}

/// Events of one timeline event at an absolute beat, with the voice
/// counter at `ctr`.
pub open spec fn spec_event_emit(e: Event, track: int, beat: int, ctr: int) -> Seq<
    ScheduledEvent,
> {
    match e {
        Event::Note(n) => seq![
            spec_note_on(track, ctr, n, beat),
            spec_note_off(track, ctr, beat + 1),
        ],
        Event::Chord(notes) => spec_chord_emit(notes@, track, beat, ctr),
        Event::Rest(_) => Seq::empty(),
        Event::BarLine => Seq::empty(),
    }
}

/// Events of a sequence of timeline events walked left to right, the
/// beat advancing by each event's duration and the counter by its keys.
pub open spec fn spec_events_emit(events: Seq<Event>, track: int, beat: int, ctr: int) -> Seq<
    ScheduledEvent,
>
    decreases events.len(),
{
    if events.len() == 0 {
        Seq::empty()
    } else {
        spec_event_emit(events[0], track, beat, ctr) + spec_events_emit(
            events.drop_first(),
            track,
            beat + spec_event_duration(events[0]),
            ctr + spec_event_keys(events[0]),
        )
    }
}

/// Total voice keys allocated by a sequence of events.
pub open spec fn spec_events_keys(events: Seq<Event>) -> int
    decreases events.len(),
{
    if events.len() == 0 {
        0
    } else {
        spec_event_keys(events[0]) + spec_events_keys(events.drop_first())
    }
}

/// Events of `reps` repetitions of a pattern, each repetition one
/// pattern-length later and with the counter advanced past the previous
/// repetition's notes.
pub open spec fn spec_reps_emit(
    events: Seq<Event>,
    track: int,
    beat: int,
    ctr: int,
    reps: int,
) -> Seq<ScheduledEvent>
    decreases reps,
{
    if reps <= 0 {
        Seq::empty()
    } else {
        spec_events_emit(events, track, beat, ctr) + spec_reps_emit(
            events,
            track,
            beat + spec_events_len_beats(events),
            ctr + spec_events_keys(events),
            reps - 1,
        )
    }
}

/// First pattern stored under a path, if any.
pub open spec fn spec_lookup(ps: Seq<(String, Pattern)>, path: Seq<char>) -> Option<Pattern>
    decreases ps.len(),
{
    if ps.len() == 0 {
        Option::None
    } else if ps[0].0@ == path {
        Option::Some(ps[0].1)
    } else {
        spec_lookup(ps.drop_first(), path)
    }
}

/// Beat-length contributed by a track's segments, up to the first
/// segment whose pattern is missing.
pub open spec fn spec_segs_len_beats(segs: Seq<Segment>, ps: Seq<(String, Pattern)>) -> int
    decreases segs.len(),
{
    if segs.len() == 0 {
        0
    } else {
        match spec_lookup(ps, segs[0].notes_path@) {
            Option::None => 0,
            Option::Some(pat) => spec_events_len_beats(pat.events@) * segs[0].times
                + spec_segs_len_beats(segs.drop_first(), ps),
        }
    }
}

/// Voice keys allocated by a track's segments, up to the first segment
/// whose pattern is missing.
pub open spec fn spec_segs_keys(segs: Seq<Segment>, ps: Seq<(String, Pattern)>) -> int
    decreases segs.len(),
{
    if segs.len() == 0 {
        0
    } else {
        match spec_lookup(ps, segs[0].notes_path@) {
            Option::None => 0,
            Option::Some(pat) => spec_events_keys(pat.events@) * segs[0].times + spec_segs_keys(
                segs.drop_first(),
                ps,
            ),
        }
    }
}

/// Events of a track's segments in order, the beat cursor advancing by
/// pattern length times repeat count after each segment.
pub open spec fn spec_segments_emit(
    segs: Seq<Segment>,
    ps: Seq<(String, Pattern)>,
    track: int,
    beat: int,
    ctr: int,
) -> Seq<ScheduledEvent>
    decreases segs.len(),
{
    if segs.len() == 0 {
        Seq::empty()
    } else {
        match spec_lookup(ps, segs[0].notes_path@) {
            Option::None => Seq::empty(),
            Option::Some(pat) => spec_reps_emit(
                pat.events@,
                track,
                beat,
                ctr,
                segs[0].times as int,
            ) + spec_segments_emit(
                segs.drop_first(),
                ps,
                track,
                beat + spec_events_len_beats(pat.events@) * segs[0].times,
                ctr + spec_events_keys(pat.events@) * segs[0].times,
            ),
        }
    }
}

/// Everything one track contributes: its cursor starts at beat 0 and
/// its voice counter at 0, independently of every other track.
pub open spec fn spec_track_emit(t: SongTrack, ps: Seq<(String, Pattern)>, idx: int) -> Seq<
    ScheduledEvent,
> {
    spec_segments_emit(t.sequence@, ps, idx, 0, 0)
}

/// The unsorted timeline: every track's events, track by track.
pub open spec fn spec_tracks_emit(
    tracks: Seq<SongTrack>,
    ps: Seq<(String, Pattern)>,
    idx: int,
) -> Seq<ScheduledEvent>
    decreases tracks.len(),
{
    if tracks.len() == 0 {
        Seq::empty()
    } else {
        spec_track_emit(tracks[0], ps, idx) + spec_tracks_emit(tracks.drop_first(), ps, idx + 1)
    }
}

/// The schedule of a song: the flattened timeline, stably sorted by beat.
pub open spec fn spec_schedule(song: Song, ps: Seq<(String, Pattern)>) -> Seq<ScheduledEvent> {
    crate::sort::spec_stable_sort(spec_tracks_emit(song.tracks@, ps, 0))
}

/// Every pattern a track's segments reference is present.
pub open spec fn spec_segments_resolved(segs: Seq<Segment>, ps: Seq<(String, Pattern)>) -> bool {
    forall|i: int|
        0 <= i < segs.len() ==> (#[trigger] spec_lookup(ps, segs[i].notes_path@)) is Some
}

/// Every pattern the song references is present.
pub open spec fn spec_song_resolved(song: Song, ps: Seq<(String, Pattern)>) -> bool {
    forall|t: int|
        0 <= t < song.tracks@.len() ==> spec_segments_resolved(
            #[trigger] song.tracks@[t].sequence@,
            ps,
        )
}

/// The path of the first unresolved segment of one track.
pub open spec fn spec_first_missing_segs(segs: Seq<Segment>, ps: Seq<(String, Pattern)>) -> Seq<
    char,
>
    decreases segs.len(),
{
    if segs.len() == 0 {
        Seq::empty()
    } else if spec_lookup(ps, segs[0].notes_path@) is None {
        segs[0].notes_path@
    } else {
        spec_first_missing_segs(segs.drop_first(), ps)
    }
}

/// The path of the first unresolved segment of the song, walking tracks
/// in order and each track's segments in order.
pub open spec fn spec_first_missing(tracks: Seq<SongTrack>, ps: Seq<(String, Pattern)>) -> Seq<
    char,
>
    decreases tracks.len(),
{
    if tracks.len() == 0 {
        Seq::empty()
    } else if !spec_segments_resolved(tracks[0].sequence@, ps) {
        spec_first_missing_segs(tracks[0].sequence@, ps)
    } else {
        spec_first_missing(tracks.drop_first(), ps)
    }
}

/// Every note of an event lies in the octave range the pitch model takes.
pub open spec fn spec_event_notes_ok(e: Event) -> bool {
    match e {
        Event::Note(n) => n.octave <= 8,
        Event::Chord(notes) => forall|j: int| 0 <= j < notes@.len() ==> notes@[j].octave <= 8,
        Event::Rest(_) => true,
        Event::BarLine => true,
    }
}

/// A pattern the scheduler can take: notes within the octave range and
/// a total beat-length a cursor can hold.
pub open spec fn spec_pattern_ok(p: Pattern) -> bool {
    &&& forall|i: int| 0 <= i < p.events@.len() ==> spec_event_notes_ok(#[trigger] p.events@[i])
    &&& spec_events_len_beats(p.events@) <= u64::MAX
}

/// Every pattern of the resolved set is one the scheduler can take.
pub open spec fn spec_patterns_ok(ps: Seq<(String, Pattern)>) -> bool {
    forall|i: int| 0 <= i < ps.len() ==> spec_pattern_ok(#[trigger] ps[i].1)
}

/// A found pattern is one of the stored ones, so it inherits the
/// store-wide properties.
proof fn lemma_lookup_found(ps: Seq<(String, Pattern)>, path: Seq<char>)
    requires
        spec_patterns_ok(ps),
        spec_lookup(ps, path) is Some,
    ensures
        spec_pattern_ok(spec_lookup(ps, path).unwrap()),
    decreases ps.len(),
{
    if ps.len() > 0 && ps[0].0@ != path {
        assert(forall|i: int|
            0 <= i < ps.drop_first().len() ==> #[trigger] ps.drop_first()[i] == ps[i + 1]);
        lemma_lookup_found(ps.drop_first(), path);
    }
}

/// Appending one chord note appends its NoteOn/NoteOff pair.
proof fn lemma_chord_emit_take_one_more(
    notes: Seq<NoteEvent>,
    track: int,
    beat: int,
    ctr: int,
    j: int,
)
    requires
        0 <= j < notes.len(),
    ensures
        spec_chord_emit(notes.take(j + 1), track, beat, ctr) == spec_chord_emit(
            notes.take(j),
            track,
            beat,
            ctr,
        ) + seq![
            spec_note_on(track, ctr + j, notes[j], beat),
            spec_note_off(track, ctr + j, beat + 1),
        ],
    decreases j,
{
    let pair = seq![
        spec_note_on(track, ctr + j, notes[j], beat),
        spec_note_off(track, ctr + j, beat + 1),
    ];
    if j == 0 {
        assert(notes.take(1)[0] == notes[0]);
        assert(notes.take(1).drop_first() =~= Seq::<NoteEvent>::empty());
        assert(notes.take(0) =~= Seq::<NoteEvent>::empty());
        assert(spec_chord_emit(Seq::<NoteEvent>::empty(), track, beat, ctr + 1) == Seq::<
            ScheduledEvent,
        >::empty());
        assert(spec_chord_emit(notes.take(1), track, beat, ctr) =~= pair);
        assert(spec_chord_emit(notes.take(0), track, beat, ctr) + pair =~= pair);
    } else {
        assert(notes.take(j + 1)[0] == notes[0]);
        assert(notes.take(j)[0] == notes[0]);
        assert(notes.take(j + 1).drop_first() =~= notes.drop_first().take(j));
        assert(notes.take(j).drop_first() =~= notes.drop_first().take(j - 1));
        assert(notes.drop_first()[j - 1] == notes[j]);
        lemma_chord_emit_take_one_more(notes.drop_first(), track, beat, ctr + 1, j - 1);
        let head = seq![
            spec_note_on(track, ctr, notes[0], beat),
            spec_note_off(track, ctr, beat + 1),
        ];
        assert(head + (spec_chord_emit(notes.drop_first().take(j - 1), track, beat, ctr + 1)
            + pair) =~= (head + spec_chord_emit(notes.drop_first().take(j - 1), track, beat, ctr
            + 1)) + pair);
    }
}

/// Key counts are non-negative, and a prefix allocates at most as many
/// keys as the whole.
proof fn lemma_events_keys_parts(events: Seq<Event>, k: int)
    requires
        0 <= k <= events.len(),
    ensures
        0 <= spec_events_keys(events.take(k)) <= spec_events_keys(events),
    decreases events.len(),
{
    if events.len() == 0 {
        assert(events.take(k) =~= events);
    } else if k == 0 {
        assert(events.take(0) =~= Seq::<Event>::empty());
        lemma_events_keys_nonneg(events);
    } else {
        assert(events.take(k)[0] == events[0]);
        assert(events.take(k).drop_first() =~= events.drop_first().take(k - 1));
        lemma_events_keys_parts(events.drop_first(), k - 1);
    }
}

/// Every event sequence allocates a non-negative number of keys.
proof fn lemma_events_keys_nonneg(events: Seq<Event>)
    ensures
        0 <= spec_events_keys(events),
    decreases events.len(),
{
    if events.len() > 0 {
        lemma_events_keys_nonneg(events.drop_first());
    }
}

/// Taking one more event adds that event's keys.
proof fn lemma_events_keys_take_one_more(events: Seq<Event>, k: int)
    requires
        0 <= k < events.len(),
    ensures
        spec_events_keys(events.take(k + 1)) == spec_events_keys(events.take(k))
            + spec_event_keys(events[k]),
    decreases events.len(),
{
    if k == 0 {
        assert(events.take(1)[0] == events[0]);
        assert(events.take(1).drop_first() =~= Seq::<Event>::empty());
        assert(events.take(0) =~= Seq::<Event>::empty());
        assert(spec_events_keys(Seq::<Event>::empty()) == 0);
    } else {
        assert(events.take(k + 1)[0] == events[0]);
        assert(events.take(k)[0] == events[0]);
        assert(events.take(k + 1).drop_first() =~= events.drop_first().take(k));
        assert(events.take(k).drop_first() =~= events.drop_first().take(k - 1));
        assert(events.drop_first()[k - 1] == events[k]);
        lemma_events_keys_take_one_more(events.drop_first(), k - 1);
    }
}

/// Walking one more event appends that event's emission, at the beat
/// and counter the walked prefix arrived at.
proof fn lemma_events_emit_take_one_more(
    events: Seq<Event>,
    track: int,
    beat: int,
    ctr: int,
    k: int,
)
    requires
        0 <= k < events.len(),
    ensures
        spec_events_emit(events.take(k + 1), track, beat, ctr) == spec_events_emit(
            events.take(k),
            track,
            beat,
            ctr,
        ) + spec_event_emit(
            events[k],
            track,
            beat + spec_events_len_beats(events.take(k)),
            ctr + spec_events_keys(events.take(k)),
        ),
    decreases events.len(),
{
    if k == 0 {
        assert(events.take(1)[0] == events[0]);
        assert(events.take(1).drop_first() =~= Seq::<Event>::empty());
        assert(events.take(0) =~= Seq::<Event>::empty());
        assert(spec_events_emit(
            Seq::<Event>::empty(),
            track,
            beat + spec_event_duration(events[0]),
            ctr + spec_event_keys(events[0]),
        ) == Seq::<ScheduledEvent>::empty());
        assert(spec_events_emit(events.take(1), track, beat, ctr) =~= spec_event_emit(
            events[0],
            track,
            beat,
            ctr,
        ));
        assert(spec_events_emit(events.take(0), track, beat, ctr) + spec_event_emit(
            events[0],
            track,
            beat,
            ctr,
        ) =~= spec_event_emit(events[0], track, beat, ctr));
    } else {
        assert(events.take(k + 1)[0] == events[0]);
        assert(events.take(k)[0] == events[0]);
        assert(events.take(k + 1).drop_first() =~= events.drop_first().take(k));
        assert(events.take(k).drop_first() =~= events.drop_first().take(k - 1));
        assert(events.drop_first()[k - 1] == events[k]);
        let b1 = beat + spec_event_duration(events[0]);
        let c1 = ctr + spec_event_keys(events[0]);
        lemma_events_emit_take_one_more(events.drop_first(), track, b1, c1, k - 1);
        // the prefix sums compose through the first event
        assert(spec_events_len_beats(events.take(k)) == spec_event_duration(events[0])
            + spec_events_len_beats(events.drop_first().take(k - 1)));
        assert(spec_events_keys(events.take(k)) == spec_event_keys(events[0])
            + spec_events_keys(events.drop_first().take(k - 1)));
        let head = spec_event_emit(events[0], track, beat, ctr);
        let mid = spec_events_emit(events.drop_first().take(k - 1), track, b1, c1);
        let tail = spec_event_emit(
            events[k],
            track,
            beat + spec_events_len_beats(events.take(k)),
            ctr + spec_events_keys(events.take(k)),
        );
        assert(head + (mid + tail) =~= (head + mid) + tail);
    }
}

/// One more repetition appends one pattern walk, one pattern-length
/// later and with the counter advanced by the walked repetitions.
proof fn lemma_reps_emit_peel(events: Seq<Event>, track: int, beat: int, ctr: int, r: int)
    requires
        r >= 0,
    ensures
        spec_reps_emit(events, track, beat, ctr, r + 1) == spec_reps_emit(
            events,
            track,
            beat,
            ctr,
            r,
        ) + spec_events_emit(
            events,
            track,
            beat + r * spec_events_len_beats(events),
            ctr + r * spec_events_keys(events),
        ),
    decreases r,
{
    let len = spec_events_len_beats(events);
    let keys = spec_events_keys(events);
    if r == 0 {
        assert(spec_reps_emit(events, track, beat, ctr, 0) =~= Seq::<ScheduledEvent>::empty());
        assert(spec_reps_emit(events, track, beat + len, ctr + keys, 0) == Seq::<
            ScheduledEvent,
        >::empty());
        assert(spec_reps_emit(events, track, beat, ctr, 1) == spec_events_emit(
            events,
            track,
            beat,
            ctr,
        ) + spec_reps_emit(events, track, beat + len, ctr + keys, 0));
        assert(spec_events_emit(events, track, beat, ctr) + Seq::<ScheduledEvent>::empty()
            =~= spec_events_emit(events, track, beat, ctr));
        assert(Seq::<ScheduledEvent>::empty() + spec_events_emit(events, track, beat, ctr)
            =~= spec_events_emit(events, track, beat, ctr));
    } else {
        lemma_reps_emit_peel(events, track, beat + len, ctr + keys, r - 1);
        assert((beat + len) + (r - 1) * len == beat + r * len) by (nonlinear_arith);
        assert((ctr + keys) + (r - 1) * keys == ctr + r * keys) by (nonlinear_arith);
        let head = spec_events_emit(events, track, beat, ctr);
        let mid = spec_reps_emit(events, track, beat + len, ctr + keys, r - 1);
        let tail = spec_events_emit(events, track, beat + r * len, ctr + r * keys);
        assert(head + (mid + tail) =~= (head + mid) + tail);
    }
}

/// Segment length sums are non-negative, and a prefix contributes at
/// most as much as the whole.
proof fn lemma_segs_len_parts(segs: Seq<Segment>, ps: Seq<(String, Pattern)>, k: int)
    requires
        0 <= k <= segs.len(),
    ensures
        0 <= spec_segs_len_beats(segs.take(k), ps) <= spec_segs_len_beats(segs, ps),
    decreases segs.len(),
{
    if segs.len() == 0 {
        assert(segs.take(k) =~= segs);
    } else if k == 0 {
        assert(segs.take(0) =~= Seq::<Segment>::empty());
        lemma_segs_len_nonneg(segs, ps);
    } else {
        assert(segs.take(k)[0] == segs[0]);
        assert(segs.take(k).drop_first() =~= segs.drop_first().take(k - 1));
        lemma_segs_len_parts(segs.drop_first(), ps, k - 1);
        if spec_lookup(ps, segs[0].notes_path@) is Some {
            let pat = spec_lookup(ps, segs[0].notes_path@).unwrap();
            lemma_events_len_beats_nonneg(pat.events@);
            lemma_mul_nonnegative(spec_events_len_beats(pat.events@), segs[0].times as int);
        }
    }
}

/// Every segment sequence contributes a non-negative beat-length.
proof fn lemma_segs_len_nonneg(segs: Seq<Segment>, ps: Seq<(String, Pattern)>)
    ensures
        0 <= spec_segs_len_beats(segs, ps),
    decreases segs.len(),
{
    if segs.len() > 0 {
        lemma_segs_len_nonneg(segs.drop_first(), ps);
        if spec_lookup(ps, segs[0].notes_path@) is Some {
            let pat = spec_lookup(ps, segs[0].notes_path@).unwrap();
            lemma_events_len_beats_nonneg(pat.events@);
            lemma_mul_nonnegative(spec_events_len_beats(pat.events@), segs[0].times as int);
        }
    }
}

/// Key sums over segments are non-negative.
proof fn lemma_segs_keys_nonneg(segs: Seq<Segment>, ps: Seq<(String, Pattern)>)
    ensures
        0 <= spec_segs_keys(segs, ps),
    decreases segs.len(),
{
    if segs.len() > 0 {
        lemma_segs_keys_nonneg(segs.drop_first(), ps);
        if spec_lookup(ps, segs[0].notes_path@) is Some {
            let pat = spec_lookup(ps, segs[0].notes_path@).unwrap();
            lemma_events_keys_parts(pat.events@, pat.events@.len() as int);
            assert(pat.events@.take(pat.events@.len() as int) =~= pat.events@);
            lemma_mul_nonnegative(spec_events_keys(pat.events@), segs[0].times as int);
        }
    }
}

/// Taking one more (resolved) segment adds its pattern's length times
/// its repeat count, and likewise for its keys.
proof fn lemma_segs_sums_take_one_more(segs: Seq<Segment>, ps: Seq<(String, Pattern)>, k: int)
    requires
        0 <= k < segs.len(),
        forall|i: int|
            0 <= i <= k ==> (#[trigger] spec_lookup(ps, segs[i].notes_path@)) is Some,
    ensures
        spec_segs_len_beats(segs.take(k + 1), ps) == spec_segs_len_beats(segs.take(k), ps)
            + spec_events_len_beats(spec_lookup(ps, segs[k].notes_path@).unwrap().events@) * (
        segs[k].times as int),
        spec_segs_keys(segs.take(k + 1), ps) == spec_segs_keys(segs.take(k), ps)
            + spec_events_keys(spec_lookup(ps, segs[k].notes_path@).unwrap().events@) * (
        segs[k].times as int),
    decreases segs.len(),
{
    if k == 0 {
        assert(segs.take(1)[0] == segs[0]);
        assert(segs.take(1).drop_first() =~= Seq::<Segment>::empty());
        assert(segs.take(0) =~= Seq::<Segment>::empty());
        assert(spec_segs_len_beats(Seq::<Segment>::empty(), ps) == 0);
        assert(spec_segs_keys(Seq::<Segment>::empty(), ps) == 0);
    } else {
        assert(segs.take(k + 1)[0] == segs[0]);
        assert(segs.take(k)[0] == segs[0]);
        assert(segs.take(k + 1).drop_first() =~= segs.drop_first().take(k));
        assert(segs.take(k).drop_first() =~= segs.drop_first().take(k - 1));
        assert(segs.drop_first()[k - 1] == segs[k]);
        assert(forall|i: int|
            0 <= i <= k - 1 ==> (#[trigger] spec_lookup(
                ps,
                segs.drop_first()[i].notes_path@,
            )) is Some) by {
            assert(forall|i: int| 0 <= i <= k - 1 ==> segs.drop_first()[i] == segs[i + 1]);
        }
        lemma_segs_sums_take_one_more(segs.drop_first(), ps, k - 1);
    }
}

/// Walking one more (resolved) segment appends its repetitions, at the
/// cursor and counter the walked prefix arrived at.
proof fn lemma_segments_emit_take_one_more(
    segs: Seq<Segment>,
    ps: Seq<(String, Pattern)>,
    track: int,
    beat: int,
    ctr: int,
    k: int,
)
    requires
        0 <= k < segs.len(),
        forall|i: int|
            0 <= i <= k ==> (#[trigger] spec_lookup(ps, segs[i].notes_path@)) is Some,
    ensures
        spec_segments_emit(segs.take(k + 1), ps, track, beat, ctr) == spec_segments_emit(
            segs.take(k),
            ps,
            track,
            beat,
            ctr,
        ) + spec_reps_emit(
            spec_lookup(ps, segs[k].notes_path@).unwrap().events@,
            track,
            beat + spec_segs_len_beats(segs.take(k), ps),
            ctr + spec_segs_keys(segs.take(k), ps),
            segs[k].times as int,
        ),
    decreases segs.len(),
{
    let pat = spec_lookup(ps, segs[k].notes_path@).unwrap();
    if k == 0 {
        assert(segs.take(1)[0] == segs[0]);
        assert(segs.take(1).drop_first() =~= Seq::<Segment>::empty());
        assert(segs.take(0) =~= Seq::<Segment>::empty());
        let reps = spec_reps_emit(pat.events@, track, beat, ctr, segs[0].times as int);
        assert(spec_segments_emit(
            Seq::<Segment>::empty(),
            ps,
            track,
            beat + spec_events_len_beats(pat.events@) * segs[0].times,
            ctr + spec_events_keys(pat.events@) * segs[0].times,
        ) == Seq::<ScheduledEvent>::empty());
        assert(spec_segs_len_beats(Seq::<Segment>::empty(), ps) == 0);
        assert(spec_segs_keys(Seq::<Segment>::empty(), ps) == 0);
        assert(spec_segments_emit(segs.take(1), ps, track, beat, ctr) =~= reps + Seq::<
            ScheduledEvent,
        >::empty());
        assert(reps + Seq::<ScheduledEvent>::empty() =~= reps);
        assert(Seq::<ScheduledEvent>::empty() + reps =~= reps);
    } else {
        assert(segs.take(k + 1)[0] == segs[0]);
        assert(segs.take(k)[0] == segs[0]);
        assert(segs.take(k + 1).drop_first() =~= segs.drop_first().take(k));
        assert(segs.take(k).drop_first() =~= segs.drop_first().take(k - 1));
        assert(segs.drop_first()[k - 1] == segs[k]);
        assert(forall|i: int|
            0 <= i <= k - 1 ==> (#[trigger] spec_lookup(
                ps,
                segs.drop_first()[i].notes_path@,
            )) is Some) by {
            assert(forall|i: int|
                0 <= i <= k - 1 ==> segs.drop_first()[i] == segs[i + 1]);
        }
        let pat0 = spec_lookup(ps, segs[0].notes_path@).unwrap();
        let b1 = beat + spec_events_len_beats(pat0.events@) * segs[0].times;
        let c1 = ctr + spec_events_keys(pat0.events@) * segs[0].times;
        lemma_segments_emit_take_one_more(segs.drop_first(), ps, track, b1, c1, k - 1);
        assert(spec_segs_len_beats(Seq::<Segment>::empty(), ps) == 0);
        assert(spec_segs_keys(Seq::<Segment>::empty(), ps) == 0);
        assert(spec_segs_len_beats(segs.take(k), ps) == spec_events_len_beats(pat0.events@)
            * segs[0].times + spec_segs_len_beats(segs.drop_first().take(k - 1), ps));
        assert(spec_segs_keys(segs.take(k), ps) == spec_events_keys(pat0.events@)
            * segs[0].times + spec_segs_keys(segs.drop_first().take(k - 1), ps));
        let head = spec_reps_emit(pat0.events@, track, beat, ctr, segs[0].times as int);
        let mid = spec_segments_emit(segs.drop_first().take(k - 1), ps, track, b1, c1);
        let tail = spec_reps_emit(
            pat.events@,
            track,
            beat + spec_segs_len_beats(segs.take(k), ps),
            ctr + spec_segs_keys(segs.take(k), ps),
            segs[k].times as int,
        );
        assert(head + (mid + tail) =~= (head + mid) + tail);
    }
}

/// Walking one more track appends that track's whole emission.
proof fn lemma_tracks_emit_take_one_more(
    tracks: Seq<SongTrack>,
    ps: Seq<(String, Pattern)>,
    idx: int,
    k: int,
)
    requires
        0 <= k < tracks.len(),
    ensures
        spec_tracks_emit(tracks.take(k + 1), ps, idx) == spec_tracks_emit(tracks.take(k), ps, idx)
            + spec_track_emit(tracks[k], ps, idx + k),
    decreases tracks.len(),
{
    if k == 0 {
        assert(tracks.take(1)[0] == tracks[0]);
        assert(tracks.take(1).drop_first() =~= Seq::<SongTrack>::empty());
        assert(tracks.take(0) =~= Seq::<SongTrack>::empty());
        let em = spec_track_emit(tracks[0], ps, idx);
        assert(spec_tracks_emit(Seq::<SongTrack>::empty(), ps, idx + 1) == Seq::<
            ScheduledEvent,
        >::empty());
        assert(spec_tracks_emit(tracks.take(1), ps, idx) =~= em + Seq::<
            ScheduledEvent,
        >::empty());
        assert(em + Seq::<ScheduledEvent>::empty() =~= em);
        assert(spec_tracks_emit(tracks.take(0), ps, idx) == Seq::<ScheduledEvent>::empty());
        assert(Seq::<ScheduledEvent>::empty() + em =~= em);
    } else {
        assert(tracks.take(k + 1)[0] == tracks[0]);
        assert(tracks.take(k)[0] == tracks[0]);
        assert(tracks.take(k + 1).drop_first() =~= tracks.drop_first().take(k));
        assert(tracks.take(k).drop_first() =~= tracks.drop_first().take(k - 1));
        assert(tracks.drop_first()[k - 1] == tracks[k]);
        lemma_tracks_emit_take_one_more(tracks.drop_first(), ps, idx + 1, k - 1);
        let head = spec_track_emit(tracks[0], ps, idx);
        let mid = spec_tracks_emit(tracks.drop_first().take(k - 1), ps, idx + 1);
        let tail = spec_track_emit(tracks[k], ps, idx + k);
        assert(head + (mid + tail) =~= (head + mid) + tail);
    }
}

/// Advancing the voice counter by one commutes with its 32-bit image.
proof fn lemma_ctr_advance(g: int, c: int)
    requires
        g >= 0,
        c == g % 0x1_0000_0000,
    ensures
        (if c + 1 > 0xffff_ffff {
            c + 1 - 0x1_0000_0000int
        } else {
            c + 1
        }) == (g + 1) % 0x1_0000_0000,
{
    let m = 0x1_0000_0000int;
    vstd::arithmetic::div_mod::lemma_add_mod_noop(g, 1, m);
    vstd::arithmetic::div_mod::lemma_mod_bound(g, m);
    vstd::arithmetic::div_mod::lemma_small_mod(1nat, m as nat);
    if c + 1 == m {
        vstd::arithmetic::div_mod::lemma_mod_self_0(m);
    } else {
        vstd::arithmetic::div_mod::lemma_small_mod((c + 1) as nat, m as nat);
    }
}

/// The key drawn from the 32-bit counter equals the key of the
/// unbounded allocation count: 512 divides 2^32.
proof fn lemma_key_from_ctr(g: int, c: int)
    requires
        g >= 0,
        c == g % 0x1_0000_0000,
    ensures
        c % 512 == spec_key_of(g),
        0 <= c % 512 < 512,
{
    lemma_mod_mod(g, 512, 0x80_0000);
    vstd::arithmetic::div_mod::lemma_mod_bound(g, 512);
}

/// The first missing path of one track is the path of its first
/// segment whose lookup fails.
proof fn lemma_first_missing_segs_at(segs: Seq<Segment>, ps: Seq<(String, Pattern)>, s: int)
    requires
        0 <= s < segs.len(),
        forall|i: int|
            0 <= i < s ==> (#[trigger] spec_lookup(ps, segs[i].notes_path@)) is Some,
        spec_lookup(ps, segs[s].notes_path@) is None,
    ensures
        spec_first_missing_segs(segs, ps) == segs[s].notes_path@,
        !spec_segments_resolved(segs, ps),
    decreases s,
{
    if s == 0 {
    } else {
        assert(forall|i: int|
            0 <= i < s - 1 ==> segs.drop_first()[i] == segs[i + 1]);
        assert(segs.drop_first()[s - 1] == segs[s]);
        lemma_first_missing_segs_at(segs.drop_first(), ps, s - 1);
    }
}

/// The first missing path of the song is the path of the first
/// unresolved segment, walking tracks in order.
proof fn lemma_first_missing_at(
    tracks: Seq<SongTrack>,
    ps: Seq<(String, Pattern)>,
    t: int,
    s: int,
)
    requires
        0 <= t < tracks.len(),
        forall|k: int|
            0 <= k < t ==> spec_segments_resolved(#[trigger] tracks[k].sequence@, ps),
        0 <= s < tracks[t].sequence@.len(),
        forall|i: int|
            0 <= i < s ==> (#[trigger] spec_lookup(
                ps,
                tracks[t].sequence@[i].notes_path@,
            )) is Some,
        spec_lookup(ps, tracks[t].sequence@[s].notes_path@) is None,
    ensures
        spec_first_missing(tracks, ps) == tracks[t].sequence@[s].notes_path@,
    decreases t,
{
    if t == 0 {
        lemma_first_missing_segs_at(tracks[0].sequence@, ps, s);
    } else {
        assert(forall|k: int|
            0 <= k < t - 1 ==> tracks.drop_first()[k] == tracks[k + 1]);
        assert(tracks.drop_first()[t - 1] == tracks[t]);
        lemma_first_missing_at(tracks.drop_first(), ps, t - 1, s);
    }
}


/// Find the position of the pattern stored under a path, scanning in
/// order so the first entry wins.
fn lookup_pattern(patterns: &Vec<(String, Pattern)>, path: &String) -> (r: Option<usize>)
    ensures
        match r {
            Option::Some(i) => i < patterns@.len() && spec_lookup(patterns@, path@)
                == Option::Some(patterns@[i as int].1),
            Option::None => spec_lookup(patterns@, path@) is None,
        },
{
    let mut i: usize = 0;
    proof {
        assert(patterns@.skip(0) =~= patterns@);
    }
    while i < patterns.len()
        invariant
            i <= patterns@.len(),
            spec_lookup(patterns@, path@) == spec_lookup(patterns@.skip(i as int), path@),
        decreases patterns@.len() - i,
    {
        proof {
            assert(patterns@.skip(i as int)[0] == patterns@[i as int]);
            assert(patterns@.skip(i as int).drop_first() =~= patterns@.skip(i + 1));
        }
        if patterns[i].0.eq(path) {
            return Option::Some(i);
        }
        i = i + 1;
    }
    proof {
        assert(patterns@.skip(i as int) =~= Seq::<(String, Pattern)>::empty());
    }
    Option::None
}


/// Emit one timeline event's commands: a note, or each note of a
/// chord, pushes a NoteOn at `on_beat` and a NoteOff one beat later,
/// drawing a fresh voice key per note; rests and bar lines emit
/// nothing. The 32-bit counter advances once per note, mirroring the
/// unbounded allocation count it stands for.
#[verifier::loop_isolation(false)]
fn emit_event(
    events: &mut Vec<ScheduledEvent>,
    ev: &Event,
    track: usize,
    on_beat: u64,
    ctr: &mut u32,
    Ghost(gctr): Ghost<int>,
)
    requires
        gctr >= 0,
        *old(ctr) as int == gctr % 0x1_0000_0000,
        on_beat < u64::MAX,
        spec_event_notes_ok(*ev),
    ensures
        final(events)@ == old(events)@ + spec_event_emit(
            *ev,
            track as int,
            on_beat as int,
            gctr,
        ),
        *final(ctr) as int == (gctr + spec_event_keys(*ev)) % 0x1_0000_0000,
{
    let ghost pre = events@;
    let ghost beat: int = on_beat as int;
    match ev {
        Event::Note(n) => {
            proof {
                lemma_key_from_ctr(gctr, *ctr as int);
                lemma_ctr_advance(gctr, *ctr as int);
            }
            let key: u32 = *ctr % 512;
            *ctr = ctr.wrapping_add(1);
            let freq: u64 = n.note.to_freq(n.octave);
            events.push(
                ScheduledEvent {
                    beat: on_beat,
                    command: LiveCommand::NoteOn { track, key, freq },
                },
            );
            events.push(
                ScheduledEvent {
                    beat: on_beat + 1,
                    command: LiveCommand::NoteOff { track, key },
                },
            );
            proof {
                assert(events@ =~= pre + spec_event_emit(*ev, track as int, beat, gctr));
            }
        },
        Event::Chord(notes) => {
            let ghost mut g: int = gctr;
            let mut j: usize = 0;
            proof {
                assert(notes@.take(0) =~= Seq::<NoteEvent>::empty());
                assert(spec_chord_emit(Seq::<NoteEvent>::empty(), track as int, beat, gctr)
                    == Seq::<ScheduledEvent>::empty());
                assert(events@ + Seq::<ScheduledEvent>::empty() =~= events@);
            }
            while j < notes.len()
                invariant
                    j <= notes@.len(),
                    g == gctr + j,
                    *ctr as int == g % 0x1_0000_0000,
                    events@ == pre + spec_chord_emit(notes@.take(j as int), track as int, beat, gctr),
                decreases notes@.len() - j,
            {
                proof {
                    lemma_key_from_ctr(g, *ctr as int);
                    lemma_ctr_advance(g, *ctr as int);
                    lemma_chord_emit_take_one_more(notes@, track as int, beat, gctr, j as int);
                }
                let n = &notes[j];
                let key: u32 = *ctr % 512;
                *ctr = ctr.wrapping_add(1);
                let freq: u64 = n.note.to_freq(n.octave);
                events.push(
                    ScheduledEvent {
                        beat: on_beat,
                        command: LiveCommand::NoteOn { track, key, freq },
                    },
                );
                events.push(
                    ScheduledEvent {
                        beat: on_beat + 1,
                        command: LiveCommand::NoteOff { track, key },
                    },
                );
                proof {
                    g = g + 1;
                    let pair = seq![
                        spec_note_on(track as int, gctr + j, notes@[j as int], beat),
                        spec_note_off(track as int, gctr + j, beat + 1),
                    ];
                    assert(events@ =~= (pre + spec_chord_emit(
                        notes@.take(j as int),
                        track as int,
                        beat,
                        gctr,
                    )) + pair);
                    assert((pre + spec_chord_emit(notes@.take(j as int), track as int, beat, gctr))
                        + pair =~= pre + (spec_chord_emit(
                        notes@.take(j as int),
                        track as int,
                        beat,
                        gctr,
                    ) + pair));
                }
                j = j + 1;
            }
            proof {
                assert(notes@.take(notes@.len() as int) =~= notes@);
            }
        },
        Event::Rest(_) => {
            proof {
                assert(events@ + Seq::<ScheduledEvent>::empty() =~= events@);
            }
        },
        Event::BarLine => {
            proof {
                assert(events@ + Seq::<ScheduledEvent>::empty() =~= events@);
            }
        },
    }
}

/// Build a sorted list of (beat, command) for the entire song.
///
/// Walks every track independently: a beat cursor runs over the
/// track's segments, each repetition of a pattern emits one
/// NoteOn/NoteOff pair per note (each exactly one beat long), rests
/// and bar lines advance the cursor silently, and a per-track counter
/// assigns each note a voice key out of 512. The accumulated events
/// are stably sorted by beat, so events of equal beats keep emission
/// order. Fails with the first missing pattern path, walking tracks in
/// order, and never returns a partial schedule; an empty song (no
/// tracks) is refused outright.
#[verifier::rlimit(100)]
#[verifier::spinoff_prover]
#[verifier::loop_isolation(false)]
pub fn build_schedule(song: &Song, patterns: &Vec<(String, Pattern)>) -> (r: Result<
    Vec<ScheduledEvent>,
    SchedulingError,
>)
    requires
        spec_patterns_ok(patterns@),
        forall|t: int|
            0 <= t < song.tracks@.len() ==> spec_segs_len_beats(
                #[trigger] song.tracks@[t].sequence@,
                patterns@,
            ) < u64::MAX,
    ensures
        song.tracks@.len() == 0 ==> (r matches Err(e) && e == SchedulingError::EmptySchedule),
        song.tracks@.len() > 0 && !spec_song_resolved(*song, patterns@) ==> (r matches Err(e)
            && e matches SchedulingError::MissingPattern(p) && p@ == spec_first_missing(
            song.tracks@,
            patterns@,
        )),
        song.tracks@.len() > 0 && spec_song_resolved(*song, patterns@) ==> (r matches Ok(v) && v@
            == spec_schedule(*song, patterns@)),
        r matches Ok(v) ==> crate::sort::spec_sorted_by_beat(v@),
{
    let ghost ps = patterns@;
    if song.tracks.len() == 0 {
        return Result::Err(SchedulingError::EmptySchedule);
    }
    let mut events: Vec<ScheduledEvent> = Vec::new();
    let mut t: usize = 0;
    while t < song.tracks.len()
        invariant
            t <= song.tracks@.len(),
            forall|k: int|
                0 <= k < t ==> spec_segments_resolved(
                    #[trigger] song.tracks@[k].sequence@,
                    ps,
                ),
            events@ == spec_tracks_emit(song.tracks@.take(t as int), ps, 0),
        decreases song.tracks@.len() - t,
    {
        let track: &SongTrack = &song.tracks[t];
        let ghost track_events_start = events@;
        let mut track_beat: u64 = 0;
        let mut ctr: u32 = 0;
        let ghost mut gctr: int = 0;
        let mut s: usize = 0;
        proof {
            assert(track.sequence@.take(0) =~= Seq::<Segment>::empty());
            assert(spec_segs_len_beats(Seq::<Segment>::empty(), ps) == 0);
            assert(spec_segs_keys(Seq::<Segment>::empty(), ps) == 0);
            assert(spec_segments_emit(Seq::<Segment>::empty(), ps, t as int, 0, 0) == Seq::<
                ScheduledEvent,
            >::empty());
            assert(events@ + Seq::<ScheduledEvent>::empty() =~= events@);
            vstd::arithmetic::div_mod::lemma_small_mod(0nat, 0x1_0000_0000nat);
        }
        while s < track.sequence.len()
            invariant
                s <= track.sequence@.len(),
                forall|i: int|
                    0 <= i < s ==> (#[trigger] spec_lookup(
                        ps,
                        track.sequence@[i].notes_path@,
                    )) is Some,
                track_beat == spec_segs_len_beats(track.sequence@.take(s as int), ps),
                gctr == spec_segs_keys(track.sequence@.take(s as int), ps),
                gctr >= 0,
                ctr as int == gctr % 0x1_0000_0000,
                events@ == track_events_start + spec_segments_emit(
                    track.sequence@.take(s as int),
                    ps,
                    t as int,
                    0,
                    0,
                ),
            decreases track.sequence@.len() - s,
        {
            let seg: &Segment = &track.sequence[s];
            match lookup_pattern(patterns, &seg.notes_path) {
                Option::None => {
                    proof {
                        lemma_first_missing_segs_at(track.sequence@, ps, s as int);
                        lemma_first_missing_at(song.tracks@, ps, t as int, s as int);
                    }
                    return Result::Err(SchedulingError::MissingPattern(seg.notes_path.clone()));
                },
                Option::Some(pi) => {
                    let pat: &Pattern = &patterns[pi].1;
                    proof {
                        lemma_lookup_found(ps, seg.notes_path@);
                    }
                    let pattern_len: u64 = pat.length_beats();
                    let ghost pat_beats = spec_events_len_beats(pat.events@);
                    let ghost pat_keys = spec_events_keys(pat.events@);
                    let ghost seg_base: int = track_beat as int;
                    let ghost seg_ctr: int = gctr;
                    let ghost pre_seg_events = events@;
                    proof {
                        lemma_segs_sums_take_one_more(track.sequence@, ps, s as int);
                        lemma_segs_len_parts(track.sequence@, ps, s as int + 1);
                        lemma_events_len_beats_nonneg(pat.events@);
                        lemma_events_keys_nonneg(pat.events@);
                        assert(pat.events@.take(pat.events@.len() as int) =~= pat.events@);
                        lemma_events_keys_parts(pat.events@, pat.events@.len() as int);
                        assert(spec_reps_emit(pat.events@, t as int, seg_base, seg_ctr, 0)
                            == Seq::<ScheduledEvent>::empty());
                        assert(events@ + Seq::<ScheduledEvent>::empty() =~= events@);
                    }
                    let mut rep: u32 = 0;
                    while rep < seg.times
                        invariant
                            rep <= seg.times,
                            track_beat == seg_base + rep * pat_beats,
                            gctr == seg_ctr + rep * pat_keys,
                            gctr >= 0,
                            ctr as int == gctr % 0x1_0000_0000,
                            events@ == pre_seg_events + spec_reps_emit(
                                pat.events@,
                                t as int,
                                seg_base,
                                seg_ctr,
                                rep as int,
                            ),
                        decreases seg.times - rep,
                    {
                        let ghost rep_base: int = seg_base + rep * pat_beats;
                        let ghost rep_ctr: int = gctr;
                        let ghost pre_rep_events = events@;
                        proof {
                            // this repetition stays within the segment's span
                            assert(rep * pat_beats <= (seg.times - 1) * pat_beats) by {
                                lemma_mul_inequality(rep as int, seg.times - 1, pat_beats);
                            }
                            assert((seg.times - 1) * pat_beats + pat_beats == seg.times
                                * pat_beats) by (nonlinear_arith);
                            assert(seg_base + seg.times * pat_beats == spec_segs_len_beats(
                                track.sequence@.take(s as int + 1),
                                ps,
                            )) by (nonlinear_arith)
                                requires
                                    seg_base == spec_segs_len_beats(
                                        track.sequence@.take(s as int),
                                        ps,
                                    ),
                                    spec_segs_len_beats(track.sequence@.take(s as int + 1), ps)
                                        == spec_segs_len_beats(
                                        track.sequence@.take(s as int),
                                        ps,
                                    ) + pat_beats * (seg.times as int),
                            ;
                            assert(track_beat + pat_beats + 1 <= u64::MAX);
                            assert(pat.events@.take(0) =~= Seq::<Event>::empty());
                            assert(spec_events_emit(Seq::<Event>::empty(), t as int, rep_base,
                                rep_ctr) == Seq::<ScheduledEvent>::empty());
                            assert(events@ + Seq::<ScheduledEvent>::empty() =~= events@);
                        }
                        let mut event_beat: u64 = 0;
                        let mut k: usize = 0;
                        while k < pat.events.len()
                            invariant
                                k <= pat.events@.len(),
                                event_beat == spec_events_len_beats(pat.events@.take(k as int)),
                                gctr == rep_ctr + spec_events_keys(pat.events@.take(k as int)),
                                gctr >= 0,
                                ctr as int == gctr % 0x1_0000_0000,
                                events@ == pre_rep_events + spec_events_emit(
                                    pat.events@.take(k as int),
                                    t as int,
                                    rep_base,
                                    rep_ctr,
                                ),
                            decreases pat.events@.len() - k,
                        {
                            proof {
                                lemma_events_len_beats_take_one_more(pat.events@, k as int);
                                lemma_events_keys_take_one_more(pat.events@, k as int);
                                lemma_events_len_beats_parts(pat.events@, k as int);
                                lemma_events_len_beats_parts(pat.events@, k as int + 1);
                                lemma_events_keys_parts(pat.events@, k as int);
                                lemma_events_keys_parts(pat.events@, k as int + 1);
                                lemma_events_emit_take_one_more(
                                    pat.events@,
                                    t as int,
                                    rep_base,
                                    rep_ctr,
                                    k as int,
                                );
                                assert(spec_event_notes_ok(pat.events@[k as int]));
                            }
                            let ghost ev_beat: int = rep_base + event_beat;
                            let ghost pre_ev_events = events@;
                            let ghost ev_ctr: int = gctr;
                            let ev: &Event = &pat.events[k];
                            let on_beat: u64 = track_beat + event_beat;
                            emit_event(&mut events, ev, t, on_beat, &mut ctr, Ghost(gctr));
                            proof {
                                assert(events@ =~= pre_rep_events + (spec_events_emit(
                                    pat.events@.take(k as int),
                                    t as int,
                                    rep_base,
                                    rep_ctr,
                                ) + spec_event_emit(
                                    pat.events@[k as int],
                                    t as int,
                                    rep_base + spec_events_len_beats(pat.events@.take(k as int)),
                                    rep_ctr + spec_events_keys(pat.events@.take(k as int)),
                                )));
                                gctr = gctr + spec_event_keys(pat.events@[k as int]);
                            }
                            proof {
                                assert(events@ =~= pre_rep_events + (spec_events_emit(
                                    pat.events@.take(k as int),
                                    t as int,
                                    rep_base,
                                    rep_ctr,
                                ) + spec_event_emit(
                                    pat.events@[k as int],
                                    t as int,
                                    ev_beat,
                                    ev_ctr,
                                )));
                            }
                            event_beat = event_beat + event_duration(ev) as u64;
                            k = k + 1;
                        }
                        proof {
                            assert(pat.events@.take(pat.events@.len() as int) =~= pat.events@);
                            lemma_reps_emit_peel(
                                pat.events@,
                                t as int,
                                seg_base,
                                seg_ctr,
                                rep as int,
                            );
                            assert((pre_seg_events + spec_reps_emit(
                                pat.events@,
                                t as int,
                                seg_base,
                                seg_ctr,
                                rep as int,
                            )) + spec_events_emit(pat.events@, t as int, rep_base, rep_ctr)
                                =~= pre_seg_events + (spec_reps_emit(
                                pat.events@,
                                t as int,
                                seg_base,
                                seg_ctr,
                                rep as int,
                            ) + spec_events_emit(pat.events@, t as int, rep_base, rep_ctr)));
                            assert(rep * pat_beats + pat_beats == (rep + 1) * pat_beats)
                                by (nonlinear_arith);
                            assert(rep * pat_keys + pat_keys == (rep + 1) * pat_keys)
                                by (nonlinear_arith);
                        }
                        track_beat = track_beat + pattern_len;
                        rep = rep + 1;
                    }
                    proof {
                        assert(spec_lookup(ps, track.sequence@[s as int].notes_path@)
                            == Option::Some(*pat));
                        assert(gctr == seg_ctr + seg.times * pat_keys);
                        assert(seg_ctr + seg.times * pat_keys == spec_segs_keys(
                            track.sequence@.take(s as int + 1),
                            ps,
                        )) by (nonlinear_arith)
                            requires
                                seg_ctr == spec_segs_keys(track.sequence@.take(s as int), ps),
                                spec_segs_keys(track.sequence@.take(s as int + 1), ps)
                                    == spec_segs_keys(track.sequence@.take(s as int), ps)
                                    + pat_keys * (seg.times as int),
                        ;
                        assert(track_beat == seg_base + seg.times * pat_beats);
                        lemma_segments_emit_take_one_more(
                            track.sequence@,
                            ps,
                            t as int,
                            0,
                            0,
                            s as int,
                        );
                        assert((track_events_start + spec_segments_emit(
                            track.sequence@.take(s as int),
                            ps,
                            t as int,
                            0,
                            0,
                        )) + spec_reps_emit(
                            pat.events@,
                            t as int,
                            seg_base,
                            seg_ctr,
                            seg.times as int,
                        ) =~= track_events_start + (spec_segments_emit(
                            track.sequence@.take(s as int),
                            ps,
                            t as int,
                            0,
                            0,
                        ) + spec_reps_emit(
                            pat.events@,
                            t as int,
                            seg_base,
                            seg_ctr,
                            seg.times as int,
                        )));
                    }
                },
            }
            s = s + 1;
        }
        proof {
            assert(track.sequence@.take(track.sequence@.len() as int) =~= track.sequence@);
            lemma_tracks_emit_take_one_more(song.tracks@, ps, 0, t as int);
        }
        t = t + 1;
    }
    proof {
        assert(song.tracks@.take(song.tracks@.len() as int) =~= song.tracks@);
    }
    let sorted = crate::sort::stable_sort_by_beat(events);
    proof {
        crate::sort::lemma_stable_sort_sorted(spec_tracks_emit(song.tracks@, ps, 0));
    }
    Result::Ok(sorted)
}


/// Every event a chord emits addresses the emitting track.
proof fn lemma_chord_emit_track(notes: Seq<NoteEvent>, track: int, beat: int, ctr: int)
    requires
        0 <= track <= usize::MAX,
    ensures
        forall|i: int|
            0 <= i < spec_chord_emit(notes, track, beat, ctr).len()
                ==> crate::command::spec_command_track(
                #[trigger] spec_chord_emit(notes, track, beat, ctr)[i].command,
            ) == track,
    decreases notes.len(),
{
    if notes.len() > 0 {
        lemma_chord_emit_track(notes.drop_first(), track, beat, ctr + 1);
    }
}

/// Every event one timeline event emits addresses the emitting track.
proof fn lemma_event_emit_track(e: Event, track: int, beat: int, ctr: int)
    requires
        0 <= track <= usize::MAX,
    ensures
        forall|i: int|
            0 <= i < spec_event_emit(e, track, beat, ctr).len()
                ==> crate::command::spec_command_track(
                #[trigger] spec_event_emit(e, track, beat, ctr)[i].command,
            ) == track,
{
    match e {
        Event::Chord(notes) => {
            lemma_chord_emit_track(notes@, track, beat, ctr);
        },
        _ => {},
    }
}

/// Every event a pattern walk emits addresses the emitting track.
proof fn lemma_events_emit_track(events: Seq<Event>, track: int, beat: int, ctr: int)
    requires
        0 <= track <= usize::MAX,
    ensures
        forall|i: int|
            0 <= i < spec_events_emit(events, track, beat, ctr).len()
                ==> crate::command::spec_command_track(
                #[trigger] spec_events_emit(events, track, beat, ctr)[i].command,
            ) == track,
    decreases events.len(),
{
    if events.len() > 0 {
        lemma_event_emit_track(events[0], track, beat, ctr);
        lemma_events_emit_track(
            events.drop_first(),
            track,
            beat + spec_event_duration(events[0]),
            ctr + spec_event_keys(events[0]),
        );
    }
}

/// Every event the repetitions emit addresses the emitting track.
proof fn lemma_reps_emit_track(events: Seq<Event>, track: int, beat: int, ctr: int, reps: int)
    requires
        0 <= track <= usize::MAX,
    ensures
        forall|i: int|
            0 <= i < spec_reps_emit(events, track, beat, ctr, reps).len()
                ==> crate::command::spec_command_track(
                #[trigger] spec_reps_emit(events, track, beat, ctr, reps)[i].command,
            ) == track,
    decreases reps,
{
    if reps > 0 {
        lemma_events_emit_track(events, track, beat, ctr);
        lemma_reps_emit_track(
            events,
            track,
            beat + spec_events_len_beats(events),
            ctr + spec_events_keys(events),
            reps - 1,
        );
    }
}

/// Every event a track's segments emit addresses the emitting track.
proof fn lemma_segments_emit_track(
    segs: Seq<Segment>,
    ps: Seq<(String, Pattern)>,
    track: int,
    beat: int,
    ctr: int,
)
    requires
        0 <= track <= usize::MAX,
    ensures
        forall|i: int|
            0 <= i < spec_segments_emit(segs, ps, track, beat, ctr).len()
                ==> crate::command::spec_command_track(
                #[trigger] spec_segments_emit(segs, ps, track, beat, ctr)[i].command,
            ) == track,
    decreases segs.len(),
{
    if segs.len() > 0 {
        match spec_lookup(ps, segs[0].notes_path@) {
            Option::None => {},
            Option::Some(pat) => {
                lemma_reps_emit_track(pat.events@, track, beat, ctr, segs[0].times as int);
                lemma_segments_emit_track(
                    segs.drop_first(),
                    ps,
                    track,
                    beat + spec_events_len_beats(pat.events@) * segs[0].times,
                    ctr + spec_events_keys(pat.events@) * segs[0].times,
                );
            },
        }
    }
}

/// Restricting the flattened timeline to one track leaves exactly that
/// track's own emission.
proof fn lemma_filter_tracks_emit(
    tracks: Seq<SongTrack>,
    ps: Seq<(String, Pattern)>,
    idx: int,
    i: int,
)
    requires
        0 <= idx,
        idx + tracks.len() <= usize::MAX,
    ensures
        crate::sort::spec_filter_track(spec_tracks_emit(tracks, ps, idx), i) == if idx <= i < idx
            + tracks.len() {
            spec_track_emit(tracks[i - idx], ps, i)
        } else {
            Seq::<ScheduledEvent>::empty()
        },
    decreases tracks.len(),
{
    if tracks.len() == 0 {
        assert(crate::sort::spec_filter_track(Seq::<ScheduledEvent>::empty(), i) == Seq::<
            ScheduledEvent,
        >::empty());
    } else {
        let head = spec_track_emit(tracks[0], ps, idx);
        let rest = spec_tracks_emit(tracks.drop_first(), ps, idx + 1);
        crate::sort::lemma_filter_track_concat(head, rest, i);
        lemma_segments_emit_track(tracks[0].sequence@, ps, idx, 0, 0);
        if i == idx {
            crate::sort::lemma_filter_track_all(head, i);
        } else {
            crate::sort::lemma_filter_track_none(head, i);
        }
        lemma_filter_tracks_emit(tracks.drop_first(), ps, idx + 1, i);
        if idx < i < idx + tracks.len() {
            assert(tracks.drop_first()[i - idx - 1] == tracks[i - idx]);
            assert(Seq::<ScheduledEvent>::empty() + spec_track_emit(tracks[i - idx], ps, i)
                =~= spec_track_emit(tracks[i - idx], ps, i));
        } else if i == idx {
            assert(head + Seq::<ScheduledEvent>::empty() =~= head);
        } else {
            assert(Seq::<ScheduledEvent>::empty() + Seq::<ScheduledEvent>::empty() =~= Seq::<
                ScheduledEvent,
            >::empty());
        }
    }
}

/// Building a schedule is deterministic: any two runs over the same
/// song and the same resolved patterns yield identical beat values and
/// identical command order, element for element.
pub proof fn lemma_schedule_idempotent(
    song: Song,
    ps: Seq<(String, Pattern)>,
    a: Seq<ScheduledEvent>,
    b: Seq<ScheduledEvent>,
)
    requires
        a == spec_schedule(song, ps),
        b == spec_schedule(song, ps),
    ensures
        a == b,
{
}

/// The schedule is ordered: for every pair of adjacent events the
/// earlier one carries an equal or smaller beat.
pub proof fn lemma_schedule_ordering(song: Song, ps: Seq<(String, Pattern)>)
    ensures
        crate::sort::spec_sorted_by_beat(spec_schedule(song, ps)),
        forall|i: int|
            0 <= i < spec_schedule(song, ps).len() - 1 ==> (#[trigger] spec_schedule(song, ps)[i]).beat
                <= spec_schedule(song, ps)[i + 1].beat,
{
    crate::sort::lemma_stable_sort_sorted(spec_tracks_emit(song.tracks@, ps, 0));
}

/// Tracks are independent: emptying one track's segment list leaves
/// every other track's scheduled events — their beats, commands and
/// relative order — exactly as they were.
pub proof fn lemma_track_independence(
    song1: Song,
    song2: Song,
    ps: Seq<(String, Pattern)>,
    i: int,
    j: int,
)
    requires
        song1.tracks@.len() == song2.tracks@.len(),
        0 <= j < song1.tracks@.len(),
        forall|k: int|
            0 <= k < song1.tracks@.len() && k != j ==> #[trigger] song2.tracks@[k]
                == song1.tracks@[k],
        song2.tracks@[j].sequence@.len() == 0,
        song1.tracks@.len() <= usize::MAX,
        0 <= i < song1.tracks@.len(),
        i != j,
    ensures
        crate::sort::spec_filter_track(spec_schedule(song1, ps), i)
            == crate::sort::spec_filter_track(spec_schedule(song2, ps), i),
{
    crate::sort::lemma_filter_track_stable_sort(spec_tracks_emit(song1.tracks@, ps, 0), i);
    crate::sort::lemma_filter_track_stable_sort(spec_tracks_emit(song2.tracks@, ps, 0), i);
    lemma_filter_tracks_emit(song1.tracks@, ps, 0, i);
    lemma_filter_tracks_emit(song2.tracks@, ps, 0, i);
    assert(song2.tracks@[i] == song1.tracks@[i]);
}


/// Run-time check that every note of one event lies in the octave
/// range the pitch model takes.
#[verifier::loop_isolation(false)]
fn event_notes_ok(e: &Event) -> (r: bool)
    ensures
        r == spec_event_notes_ok(*e),
{
    match e {
        Event::Note(n) => n.octave <= 8,
        Event::Chord(notes) => {
            let mut j: usize = 0;
            while j < notes.len()
                invariant
                    j <= notes@.len(),
                    forall|k: int| 0 <= k < j ==> (#[trigger] notes@[k]).octave <= 8,
                decreases notes@.len() - j,
            {
                if notes[j].octave > 8 {
                    return false;
                }
                j = j + 1;
            }
            true
        },
        Event::Rest(_) => true,
        Event::BarLine => true,
    }
}

/// Total beat-length of an event list, or nothing where it does not
/// fit the beat cursor.
#[verifier::loop_isolation(false)]
fn events_len_checked(events: &Vec<Event>) -> (r: Option<u64>)
    ensures
        r matches Some(v) ==> v == spec_events_len_beats(events@),
        r is None ==> spec_events_len_beats(events@) > u64::MAX,
{
    let mut total: u64 = 0;
    let mut i: usize = 0;
    while i < events.len()
        invariant
            i <= events@.len(),
            total == spec_events_len_beats(events@.take(i as int)),
        decreases events@.len() - i,
    {
        proof {
            lemma_events_len_beats_take_one_more(events@, i as int);
        }
        let d = event_duration(&events[i]) as u64;
        match total.checked_add(d) {
            Option::Some(t) => {
                total = t;
            },
            Option::None => {
                proof {
                    lemma_events_len_beats_parts(events@, i as int + 1);
                }
                return Option::None;
            },
        }
        i = i + 1;
    }
    proof {
        assert(events@.take(events@.len() as int) =~= events@);
    }
    Option::Some(total)
}

/// Run-time check that the scheduler can take one pattern.
#[verifier::loop_isolation(false)]
fn pattern_ok_checked(p: &Pattern) -> (r: bool)
    ensures
        r == spec_pattern_ok(*p),
{
    let mut i: usize = 0;
    while i < p.events.len()
        invariant
            i <= p.events@.len(),
            forall|k: int| 0 <= k < i ==> spec_event_notes_ok(#[trigger] p.events@[k]),
        decreases p.events@.len() - i,
    {
        if !event_notes_ok(&p.events[i]) {
            return false;
        }
        i = i + 1;
    }
    match events_len_checked(&p.events) {
        Option::Some(_) => true,
        Option::None => false,
    }
}

/// Once a segment's pattern is missing, the segments after it add no
/// further beat-length.
proof fn lemma_segs_len_stops_at_missing(segs: Seq<Segment>, ps: Seq<(String, Pattern)>, s: int)
    requires
        0 <= s < segs.len(),
        forall|i: int|
            0 <= i < s ==> (#[trigger] spec_lookup(ps, segs[i].notes_path@)) is Some,
        spec_lookup(ps, segs[s].notes_path@) is None,
    ensures
        spec_segs_len_beats(segs, ps) == spec_segs_len_beats(segs.take(s), ps),
    decreases s,
{
    if s == 0 {
        assert(segs.take(0) =~= Seq::<Segment>::empty());
    } else {
        assert(forall|i: int| 0 <= i < s - 1 ==> segs.drop_first()[i] == segs[i + 1]);
        assert(segs.drop_first()[s - 1] == segs[s]);
        lemma_segs_len_stops_at_missing(segs.drop_first(), ps, s - 1);
        assert(segs.take(s)[0] == segs[0]);
        assert(segs.take(s).drop_first() =~= segs.drop_first().take(s - 1));
    }
}

/// Run-time check of everything `build_schedule` asks of its inputs:
/// every stored pattern is one the scheduler can take, and every
/// track's total beat-length fits the beat cursor. The application
/// calls this before scheduling.
#[verifier::loop_isolation(false)]
pub fn schedule_inputs_ok(song: &Song, patterns: &Vec<(String, Pattern)>) -> (r: bool)
    ensures
        r == (spec_patterns_ok(patterns@) && forall|t: int|
            0 <= t < song.tracks@.len() ==> spec_segs_len_beats(
                #[trigger] song.tracks@[t].sequence@,
                patterns@,
            ) < u64::MAX),
{
    let ghost ps = patterns@;
    let mut i: usize = 0;
    while i < patterns.len()
        invariant
            i <= patterns@.len(),
            forall|k: int| 0 <= k < i ==> spec_pattern_ok(#[trigger] patterns@[k].1),
        decreases patterns@.len() - i,
    {
        if !pattern_ok_checked(&patterns[i].1) {
            return false;
        }
        i = i + 1;
    }
    let mut t: usize = 0;
    while t < song.tracks.len()
        invariant
            t <= song.tracks@.len(),
            forall|k: int|
                0 <= k < t ==> spec_segs_len_beats(
                    #[trigger] song.tracks@[k].sequence@,
                    ps,
                ) < u64::MAX,
        decreases song.tracks@.len() - t,
    {
        let track: &SongTrack = &song.tracks[t];
        let mut total: u64 = 0;
        let mut fits: bool = true;
        let mut stopped: bool = false;
        let mut s: usize = 0;
        let ghost segs = track.sequence@;
        while s < track.sequence.len() && fits && !stopped
            invariant
                s <= track.sequence@.len(),
                segs == track.sequence@,
                forall|i2: int|
                    0 <= i2 < s ==> (#[trigger] spec_lookup(ps, segs[i2].notes_path@)) is Some,
                fits ==> total == spec_segs_len_beats(segs.take(s as int), ps),
                !fits ==> spec_segs_len_beats(segs, ps) >= u64::MAX,
                stopped ==> spec_segs_len_beats(segs, ps) == spec_segs_len_beats(
                    segs.take(s as int),
                    ps,
                ),
            decreases (track.sequence@.len() - s) + (if fits { 1int } else { 0int }) + (
            if stopped { 0int } else { 1int }),
        {
            let seg: &Segment = &track.sequence[s];
            match lookup_pattern(patterns, &seg.notes_path) {
                Option::None => {
                    proof {
                        lemma_segs_len_stops_at_missing(segs, ps, s as int);
                    }
                    stopped = true;
                },
                Option::Some(pi) => {
                    let pat: &Pattern = &patterns[pi].1;
                    proof {
                        lemma_lookup_found(ps, seg.notes_path@);
                        lemma_segs_sums_take_one_more(segs, ps, s as int);
                        lemma_segs_len_parts(segs, ps, s as int);
                        lemma_events_len_beats_nonneg(pat.events@);
                    }
                    let pat_len: u64 = pat.length_beats();
                    match pat_len.checked_mul(seg.times as u64) {
                        Option::Some(seg_beats) => {
                            match total.checked_add(seg_beats) {
                                Option::Some(nt) => {
                                    total = nt;
                                    s = s + 1;
                                },
                                Option::None => {
                                    proof {
                                        lemma_segs_len_parts(segs, ps, s as int + 1);
                                    }
                                    fits = false;
                                },
                            }
                        },
                        Option::None => {
                            proof {
                                lemma_segs_len_parts(segs, ps, s as int + 1);
                            }
                            fits = false;
                        },
                    }
                },
            }
        }
        proof {
            if s == track.sequence.len() {
                assert(segs.take(segs.len() as int) =~= segs);
            }
        }
        if !fits || total == u64::MAX {
            proof {
                if fits {
                    assert(spec_segs_len_beats(segs, ps) >= u64::MAX);
                }
            }
            return false;
        }
        t = t + 1;
    }
    true
}

} // verus!
