//! Timing of the playback driver. Beats become wall-clock microseconds
//! through the tempo (`60 / tempo` seconds per beat); a pattern or a
//! schedule becomes a script of sends and sleeps that the surrounding
//! application performs against its clock, sleeping only the remaining
//! delta to each absolute target so sleep overhead never accumulates.

use vstd::prelude::*;

verus! {

use crate::command::LiveCommand;
use crate::note::Event;
use crate::note::NoteEvent;
use crate::note::Pattern;
use crate::scheduler::ScheduledEvent;

/// Trailing ring-out before a schedule's final Shutdown, in microseconds.
pub const RING_OUT_MICROS: u64 = 500000;

/// Gap after a chord's AllNotesOff during pattern playback, in microseconds.
pub const CHORD_GAP_MICROS: u64 = 10000;

/// Tail before a pattern playback's Shutdown, in microseconds.
pub const PATTERN_TAIL_MICROS: u64 = 100000;

/// The largest beat number a target time can be computed for.
pub const MAX_TARGET_BEAT: u64 = 307445734561;

/// One step of a playback script: wait, or hand a command to the engine.
#[derive(Debug, Clone, Copy, PartialEq, Eq, Structural)]
pub enum PlayAction {
    /// Sleep this many microseconds
    Sleep(u64),
    /// Send this command to the engine
    Send(LiveCommand),
}

/// Wall-clock offset of a beat at a tempo: `beat * 60 / tempo` seconds,
/// in whole microseconds.
pub open spec fn spec_beat_micros(beat: int, tempo: int) -> int {
    beat * 60000000 / tempo
}

/// Microseconds at which a scheduled event is due.
pub fn beat_to_micros(beat: u64, tempo: u32) -> (r: u64)
    requires
        tempo >= 1,
        beat <= MAX_TARGET_BEAT,
    ensures
        r == spec_beat_micros(beat as int, tempo as int),
{
    proof {
        vstd::arithmetic::div_mod::lemma_div_pos_is_pos(beat * 60000000, tempo as int);
        vstd::arithmetic::div_mod::lemma_div_nonincreasing(beat * 60000000, tempo as int);
    }
    beat * 60000000 / (tempo as u64)
}

/// The absolute target time of every scheduled event, in order: the
/// driver compares each against the time elapsed since its single
/// start instant and sleeps only the positive remainder.
pub fn schedule_targets(schedule: &Vec<ScheduledEvent>, tempo: u32) -> (r: Vec<
    (u64, LiveCommand),
>)
    requires
        tempo >= 1,
        forall|i: int|
            0 <= i < schedule@.len() ==> (#[trigger] schedule@[i]).beat <= MAX_TARGET_BEAT,
    ensures
        r@.len() == schedule@.len(),
        forall|i: int|
            0 <= i < schedule@.len() ==> (#[trigger] r@[i]).0 == spec_beat_micros(
                schedule@[i].beat as int,
                tempo as int,
            ) && r@[i].1 == schedule@[i].command,
{
    let mut out: Vec<(u64, LiveCommand)> = Vec::new();
    let mut i: usize = 0;
    while i < schedule.len()
        invariant
            i <= schedule@.len(),
            out@.len() == i,
            tempo >= 1,
            forall|k: int|
                0 <= k < schedule@.len() ==> (#[trigger] schedule@[k]).beat <= MAX_TARGET_BEAT,
            forall|k: int|
                0 <= k < i ==> (#[trigger] out@[k]).0 == spec_beat_micros(
                    schedule@[k].beat as int,
                    tempo as int,
                ) && out@[k].1 == schedule@[k].command,
        decreases schedule@.len() - i,
    {
        let ev = &schedule[i];
        out.push((beat_to_micros(ev.beat, tempo), ev.command));
        i = i + 1;
    }
    out
}

/// The ring-out sleep after the last scheduled event: half a second
/// past the last event's target, after which Shutdown is sent.
pub fn ring_out_target(last_beat: u64, tempo: u32) -> (r: u64)
    requires
        tempo >= 1,
        last_beat <= MAX_TARGET_BEAT,
    ensures
        r == spec_beat_micros(last_beat as int, tempo as int) + RING_OUT_MICROS,
{
    proof {
        vstd::arithmetic::div_mod::lemma_div_pos_is_pos(last_beat * 60000000, tempo as int);
        vstd::arithmetic::div_mod::lemma_div_nonincreasing(last_beat * 60000000, tempo as int);
    }
    beat_to_micros(last_beat, tempo) + RING_OUT_MICROS
}

/// The script of one chord during pattern playback: one NoteOn per
/// constituent note, each on its own key counted from 48 upward.
pub open spec fn spec_chord_actions(notes: Seq<NoteEvent>, base_key: int) -> Seq<PlayAction>
    decreases notes.len(),
{
    if notes.len() == 0 {
        Seq::empty()
    } else {
        seq![
            PlayAction::Send(
                LiveCommand::NoteOn {
                    track: 0,
                    key: base_key as u32,
                    freq: crate::note::spec_freq_micros(
                        notes[0].note,
                        notes[0].octave as int,
                    ) as u64,
                },
            ),
        ] + spec_chord_actions(notes.drop_first(), base_key + 1)
    }
}

/// The script of one pattern event: a note sounds one beat between its
/// NoteOn and NoteOff; a chord's notes start together, sound one beat,
/// and end in one AllNotesOff followed by a short gap; a rest is
/// silence for its beats; a bar line takes no time.
pub open spec fn spec_event_actions(e: Event, beat_micros: int) -> Seq<PlayAction> {
    match e {
        Event::Note(n) => seq![
            PlayAction::Send(
                LiveCommand::NoteOn {
                    track: 0,
                    key: 0,
                    freq: crate::note::spec_freq_micros(n.note, n.octave as int) as u64,
                },
            ),
            PlayAction::Sleep(beat_micros as u64),
            PlayAction::Send(LiveCommand::NoteOff { track: 0, key: 0 }),
        ],
        Event::Chord(notes) => spec_chord_actions(notes@, 48) + seq![
            PlayAction::Sleep(beat_micros as u64),
            PlayAction::Send(LiveCommand::AllNotesOff),
            PlayAction::Sleep(CHORD_GAP_MICROS as u64),
        ],
        Event::Rest(beats) => seq![PlayAction::Sleep((beats * beat_micros) as u64)],
        Event::BarLine => Seq::empty(),
    }
}

/// The script of a whole event sequence, in order.
pub open spec fn spec_events_actions(events: Seq<Event>, beat_micros: int) -> Seq<PlayAction>
    decreases events.len(),
{
    if events.len() == 0 {
        Seq::empty()
    } else {
        spec_event_actions(events[0], beat_micros) + spec_events_actions(
            events.drop_first(),
            beat_micros,
        )
    }
}

/// The full script of one pattern played on track 0 at a tempo: its
/// events in order, then a short tail, then Shutdown.
pub open spec fn spec_pattern_actions(p: Pattern, tempo: int) -> Seq<PlayAction> {
    spec_events_actions(p.events@, 60000000int / tempo) + seq![
        PlayAction::Sleep(PATTERN_TAIL_MICROS as u64),
        PlayAction::Send(LiveCommand::Shutdown),
    ]
}

/// Every note of the pattern lies in the octave range the pitch model
/// takes, and every chord is small enough to key its notes apart.
pub open spec fn spec_pattern_playable(p: Pattern) -> bool {
    forall|i: int|
        0 <= i < p.events@.len() ==> crate::scheduler::spec_event_notes_ok(
            #[trigger] p.events@[i],
        ) && (p.events@[i] matches Event::Chord(ns) ==> ns@.len() + 48 <= u32::MAX)
}

/// Appending one event appends its script.
proof fn lemma_events_actions_take_one_more(events: Seq<Event>, beat_micros: int, k: int)
    requires
        0 <= k < events.len(),
    ensures
        spec_events_actions(events.take(k + 1), beat_micros) == spec_events_actions(
            events.take(k),
            beat_micros,
        ) + spec_event_actions(events[k], beat_micros),
    decreases k,
{
    let tail = spec_event_actions(events[k], beat_micros);
    if k == 0 {
        assert(events.take(1)[0] == events[0]);
        assert(events.take(1).drop_first() =~= Seq::<Event>::empty());
        assert(events.take(0) =~= Seq::<Event>::empty());
        assert(spec_events_actions(Seq::<Event>::empty(), beat_micros) == Seq::<
            PlayAction,
        >::empty());
        assert(spec_events_actions(events.take(1), beat_micros) =~= tail);
        assert(spec_events_actions(events.take(0), beat_micros) + tail =~= tail);
    } else {
        assert(events.take(k + 1)[0] == events[0]);
        assert(events.take(k)[0] == events[0]);
        assert(events.take(k + 1).drop_first() =~= events.drop_first().take(k));
        assert(events.take(k).drop_first() =~= events.drop_first().take(k - 1));
        assert(events.drop_first()[k - 1] == events[k]);
        lemma_events_actions_take_one_more(events.drop_first(), beat_micros, k - 1);
        let head = spec_event_actions(events[0], beat_micros);
        let mid = spec_events_actions(events.drop_first().take(k - 1), beat_micros);
        assert(head + (mid + tail) =~= (head + mid) + tail);
    }
}

/// Appending one chord note appends its NoteOn.
proof fn lemma_chord_actions_take_one_more(notes: Seq<NoteEvent>, base_key: int, j: int)
    requires
        0 <= j < notes.len(),
    ensures
        spec_chord_actions(notes.take(j + 1), base_key) == spec_chord_actions(
            notes.take(j),
            base_key,
        ) + seq![
            PlayAction::Send(
                LiveCommand::NoteOn {
                    track: 0,
                    key: (base_key + j) as u32,
                    freq: crate::note::spec_freq_micros(
                        notes[j].note,
                        notes[j].octave as int,
                    ) as u64,
                },
            ),
        ],
    decreases j,
{
    let tail = seq![
        PlayAction::Send(
            LiveCommand::NoteOn {
                track: 0,
                key: (base_key + j) as u32,
                freq: crate::note::spec_freq_micros(notes[j].note, notes[j].octave as int) as u64,
            },
        ),
    ];
    if j == 0 {
        assert(notes.take(1)[0] == notes[0]);
        assert(notes.take(1).drop_first() =~= Seq::<NoteEvent>::empty());
        assert(notes.take(0) =~= Seq::<NoteEvent>::empty());
        assert(spec_chord_actions(Seq::<NoteEvent>::empty(), base_key + 1) == Seq::<
            PlayAction,
        >::empty());
        assert(spec_chord_actions(notes.take(1), base_key) =~= tail);
        assert(spec_chord_actions(notes.take(0), base_key) + tail =~= tail);
    } else {
        assert(notes.take(j + 1)[0] == notes[0]);
        assert(notes.take(j)[0] == notes[0]);
        assert(notes.take(j + 1).drop_first() =~= notes.drop_first().take(j));
        assert(notes.take(j).drop_first() =~= notes.drop_first().take(j - 1));
        assert(notes.drop_first()[j - 1] == notes[j]);
        lemma_chord_actions_take_one_more(notes.drop_first(), base_key + 1, j - 1);
        let head = seq![
            PlayAction::Send(
                LiveCommand::NoteOn {
                    track: 0,
                    key: base_key as u32,
                    freq: crate::note::spec_freq_micros(
                        notes[0].note,
                        notes[0].octave as int,
                    ) as u64,
                },
            ),
        ];
        let mid = spec_chord_actions(notes.drop_first().take(j - 1), base_key + 1);
        assert(head + (mid + tail) =~= (head + mid) + tail);
    }
}

/// Compile a pattern into its playback script: the exact sends and
/// sleeps that play it on track 0 at the tempo, ending in a short tail
/// and Shutdown. The application performs the script step by step.
#[verifier::loop_isolation(false)]
pub fn pattern_play_actions(pattern: &Pattern, tempo: u32) -> (r: Vec<PlayAction>)
    requires
        tempo >= 1,
        spec_pattern_playable(*pattern),
    ensures
        r@ == spec_pattern_actions(*pattern, tempo as int),
{
    let beat_micros: u64 = 60000000 / (tempo as u64);
    proof {
        vstd::arithmetic::div_mod::lemma_div_pos_is_pos(60000000, tempo as int);
        vstd::arithmetic::div_mod::lemma_div_nonincreasing(60000000, tempo as int);
        assert(pattern.events@.take(0) =~= Seq::<Event>::empty());
        assert(spec_events_actions(Seq::<Event>::empty(), beat_micros as int) == Seq::<
            PlayAction,
        >::empty());
    }
    let mut out: Vec<PlayAction> = Vec::new();
    let mut i: usize = 0;
    while i < pattern.events.len()
        invariant
            i <= pattern.events@.len(),
            out@ == spec_events_actions(pattern.events@.take(i as int), beat_micros as int),
        decreases pattern.events@.len() - i,
    {
        proof {
            lemma_events_actions_take_one_more(pattern.events@, beat_micros as int, i as int);
            assert(crate::scheduler::spec_event_notes_ok(pattern.events@[i as int]));
            assert(pattern.events@[i as int] matches Event::Chord(ns) ==> ns@.len() + 48
                <= u32::MAX);
        }
        let ghost pre = out@;
        let ev: &Event = &pattern.events[i];
        match ev {
            Event::Note(n) => {
                let freq = n.note.to_freq(n.octave);
                out.push(PlayAction::Send(LiveCommand::NoteOn { track: 0, key: 0, freq }));
                out.push(PlayAction::Sleep(beat_micros));
                out.push(PlayAction::Send(LiveCommand::NoteOff { track: 0, key: 0 }));
                proof {
                    assert(out@ =~= pre + spec_event_actions(
                        pattern.events@[i as int],
                        beat_micros as int,
                    ));
                }
            },
            Event::Chord(notes) => {
                let mut j: usize = 0;
                proof {
                    assert(notes@.take(0) =~= Seq::<NoteEvent>::empty());
                    assert(spec_chord_actions(Seq::<NoteEvent>::empty(), 48) == Seq::<
                        PlayAction,
                    >::empty());
                    assert(pre + Seq::<PlayAction>::empty() =~= pre);
                }
                while j < notes.len()
                    invariant
                        j <= notes@.len(),
                        out@ == pre + spec_chord_actions(notes@.take(j as int), 48),
                    decreases notes@.len() - j,
                {
                    proof {
                        lemma_chord_actions_take_one_more(notes@, 48, j as int);
                    }
                    let n = &notes[j];
                    let freq = n.note.to_freq(n.octave);
                    let key: u32 = 48 + (j as u32);
                    out.push(PlayAction::Send(LiveCommand::NoteOn { track: 0, key, freq }));
                    proof {
                        assert(out@ =~= pre + (spec_chord_actions(notes@.take(j as int), 48)
                            + seq![
                            PlayAction::Send(
                                LiveCommand::NoteOn {
                                    track: 0,
                                    key: (48 + j as int) as u32,
                                    freq: crate::note::spec_freq_micros(
                                        notes@[j as int].note,
                                        notes@[j as int].octave as int,
                                    ) as u64,
                                },
                            ),
                        ]));
                    }
                    j = j + 1;
                }
                out.push(PlayAction::Sleep(beat_micros));
                out.push(PlayAction::Send(LiveCommand::AllNotesOff));
                out.push(PlayAction::Sleep(CHORD_GAP_MICROS));
                proof {
                    assert(notes@.take(notes@.len() as int) =~= notes@);
                    assert(out@ =~= pre + spec_event_actions(
                        pattern.events@[i as int],
                        beat_micros as int,
                    ));
                }
            },
            Event::Rest(beats) => {
                proof {
                    assert((*beats as int) * (beat_micros as int) <= 4294967295int * 60000000)
                        by (nonlinear_arith)
                        requires
                            0 <= *beats <= 4294967295u32,
                            0 <= beat_micros <= 60000000u64,
                    ;
                }
                out.push(PlayAction::Sleep((*beats as u64) * beat_micros));
                proof {
                    assert(out@ =~= pre + spec_event_actions(
                        pattern.events@[i as int],
                        beat_micros as int,
                    ));
                }
            },
            Event::BarLine => {
                proof {
                    assert(out@ =~= pre + spec_event_actions(
                        pattern.events@[i as int],
                        beat_micros as int,
                    ));
                }
            },
        }
        i = i + 1;
    }
    proof {
        assert(pattern.events@.take(pattern.events@.len() as int) =~= pattern.events@);
    }
    out.push(PlayAction::Sleep(PATTERN_TAIL_MICROS));
    out.push(PlayAction::Send(LiveCommand::Shutdown));
    proof {
        assert(out@ =~= spec_pattern_actions(*pattern, tempo as int));
    }
    out
}


/// Run-time check that a pattern can be compiled into a playback
/// script; the application calls this before asking for one.
#[verifier::loop_isolation(false)]
pub fn pattern_is_playable(pattern: &Pattern) -> (r: bool)
    ensures
        r == spec_pattern_playable(*pattern),
{
    let mut i: usize = 0;
    while i < pattern.events.len()
        invariant
            i <= pattern.events@.len(),
            forall|k: int|
                0 <= k < i ==> crate::scheduler::spec_event_notes_ok(
                    #[trigger] pattern.events@[k],
                ) && (pattern.events@[k] matches Event::Chord(ns) ==> ns@.len() + 48
                    <= u32::MAX),
        decreases pattern.events@.len() - i,
    {
        let ev: &Event = &pattern.events[i];
        match ev {
            Event::Note(n) => {
                if n.octave > 8 {
                    return false;
                }
            },
            Event::Chord(notes) => {
                if notes.len() > (u32::MAX - 48) as usize {
                    return false;
                }
                let mut j: usize = 0;
                while j < notes.len()
                    invariant
                        j <= notes@.len(),
                        forall|k: int| 0 <= k < j ==> (#[trigger] notes@[k]).octave <= 8,
                    decreases notes@.len() - j,
                {
                    if notes[j].octave > 8 {
                        return false;
                    }
                    j = j + 1;
                }
            },
            Event::Rest(_) => {},
            Event::BarLine => {},
        }
        i = i + 1;
    }
    true
}

} // verus!
