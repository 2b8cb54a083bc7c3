use clidaw::command::LiveCommand;
use clidaw::note::Event;
use clidaw::note::NoteEvent;
use clidaw::note::NoteName;
use clidaw::note::Pattern;
use clidaw::note::TimeSignature;
use clidaw::playback::beat_to_micros;
use clidaw::playback::pattern_play_actions;
use clidaw::playback::ring_out_target;
use clidaw::playback::schedule_targets;
use clidaw::playback::PlayAction;
use clidaw::scheduler::ScheduledEvent;

#[test]
fn test_beat_to_micros_at_120_bpm() {
    // one beat at 120 BPM is half a second
    assert_eq!(beat_to_micros(1, 120), 500_000);
    assert_eq!(beat_to_micros(3, 120), 1_500_000);
    assert_eq!(beat_to_micros(0, 120), 0);
}

#[test]
fn test_beat_to_micros_rounds_down() {
    // 60000000 / 90 = 666666.66…
    assert_eq!(beat_to_micros(1, 90), 666_666);
}

#[test]
fn test_schedule_targets_follow_beats() {
    let schedule = vec![
        ScheduledEvent {
            beat: 0,
            command: LiveCommand::NoteOn { track: 0, key: 0, freq: 440_000_000 },
        },
        ScheduledEvent { beat: 1, command: LiveCommand::NoteOff { track: 0, key: 0 } },
        ScheduledEvent { beat: 4, command: LiveCommand::NoteOff { track: 1, key: 1 } },
    ];
    let targets = schedule_targets(&schedule, 60);
    assert_eq!(targets.len(), 3);
    assert_eq!(targets[0].0, 0);
    assert_eq!(targets[1].0, 1_000_000);
    assert_eq!(targets[2].0, 4_000_000);
    assert_eq!(targets[1].1, schedule[1].command);
}

#[test]
fn test_ring_out_follows_last_beat() {
    // half a second past the last event's target
    assert_eq!(ring_out_target(2, 120), 1_500_000);
}

#[test]
fn test_pattern_play_actions_script() {
    let pattern = Pattern {
        events: vec![
            Event::Note(NoteEvent { note: NoteName::A, octave: 4 }),
            Event::Rest(2),
            Event::BarLine,
            Event::Chord(vec![
                NoteEvent { note: NoteName::C, octave: 4 },
                NoteEvent { note: NoteName::E, octave: 4 },
            ]),
        ],
        loop_pattern: false,
        time_signature: TimeSignature { num: 4, den: 4 },
        default_octave: 4,
    };
    let actions = pattern_play_actions(&pattern, 120);
    let beat = 500_000u64;
    let expected = vec![
        // the note: on, one beat, off
        PlayAction::Send(LiveCommand::NoteOn { track: 0, key: 0, freq: 440_000_000 }),
        PlayAction::Sleep(beat),
        PlayAction::Send(LiveCommand::NoteOff { track: 0, key: 0 }),
        // the rest: two beats of silence (the bar line takes no time)
        PlayAction::Sleep(2 * beat),
        // the chord: both notes start, one beat, all off, short gap
        PlayAction::Send(LiveCommand::NoteOn {
            track: 0,
            key: 48,
            freq: NoteName::C.to_freq(4),
        }),
        PlayAction::Send(LiveCommand::NoteOn {
            track: 0,
            key: 49,
            freq: NoteName::E.to_freq(4),
        }),
        PlayAction::Sleep(beat),
        PlayAction::Send(LiveCommand::AllNotesOff),
        PlayAction::Sleep(10_000),
        // tail and shutdown
        PlayAction::Sleep(100_000),
        PlayAction::Send(LiveCommand::Shutdown),
    ];
    assert_eq!(actions, expected);
}
