use clidaw::command::LiveCommand;
use clidaw::note::Event;
use clidaw::note::NoteEvent;
use clidaw::note::NoteName;
use clidaw::note::Pattern;
use clidaw::note::TimeSignature;
use clidaw::scheduler::build_schedule;
use clidaw::scheduler::SchedulingError;
use clidaw::song::Segment;
use clidaw::song::Song;
use clidaw::song::SongTrack;

fn note(name: NoteName, octave: u8) -> Event {
    Event::Note(NoteEvent { note: name, octave })
}

fn pattern_of(events: Vec<Event>) -> Pattern {
    Pattern {
        events,
        loop_pattern: false,
        time_signature: TimeSignature { num: 4, den: 4 },
        default_octave: 4,
    }
}

fn two_track_song() -> (Song, Vec<(String, Pattern)>) {
    // track 0: a 4-beat pattern (4 notes) repeated twice
    // track 1: a 1-beat pattern (1 note) repeated eight times
    let four = pattern_of(vec![
        note(NoteName::C, 4),
        note(NoteName::E, 4),
        note(NoteName::G, 4),
        note(NoteName::B, 4),
    ]);
    let one = pattern_of(vec![note(NoteName::C, 2)]);
    let song = Song {
        tempo: 120,
        time_signature: TimeSignature { num: 4, den: 4 },
        tracks: vec![
            SongTrack {
                instrument_path: "lead.instr".to_string(),
                sequence: vec![Segment { notes_path: "four.notes".to_string(), times: 2 }],
            },
            SongTrack {
                instrument_path: "bass.instr".to_string(),
                sequence: vec![Segment { notes_path: "one.notes".to_string(), times: 8 }],
            },
        ],
    };
    let patterns = vec![
        ("four.notes".to_string(), four),
        ("one.notes".to_string(), one),
    ];
    (song, patterns)
}

#[test]
fn test_pattern_length_beats() {
    let p = pattern_of(vec![
        note(NoteName::C, 4),
        Event::Rest(2),
        Event::BarLine,
        Event::Chord(vec![
            NoteEvent { note: NoteName::C, octave: 4 },
            NoteEvent { note: NoteName::E, octave: 4 },
        ]),
    ]);
    assert_eq!(p.length_beats(), 4);
}

#[test]
fn test_two_track_song_counts() {
    let (song, patterns) = two_track_song();
    let schedule = build_schedule(&song, &patterns).unwrap();
    // 8 notes on each track: one NoteOn and one NoteOff per note
    assert_eq!(schedule.len(), 32);
    let ons_t0 = schedule
        .iter()
        .filter(|e| matches!(e.command, LiveCommand::NoteOn { track: 0, .. }))
        .count();
    let offs_t0 = schedule
        .iter()
        .filter(|e| matches!(e.command, LiveCommand::NoteOff { track: 0, .. }))
        .count();
    let ons_t1 = schedule
        .iter()
        .filter(|e| matches!(e.command, LiveCommand::NoteOn { track: 1, .. }))
        .count();
    let offs_t1 = schedule
        .iter()
        .filter(|e| matches!(e.command, LiveCommand::NoteOff { track: 1, .. }))
        .count();
    assert_eq!(ons_t0, 8);
    assert_eq!(offs_t0, 8);
    assert_eq!(ons_t1, 8);
    assert_eq!(offs_t1, 8);
    // each track's NoteOns land on beats 0..=7, its NoteOffs on 1..=8
    for track in 0..2usize {
        let on_beats: Vec<u64> = schedule
            .iter()
            .filter(|e| matches!(e.command, LiveCommand::NoteOn { track: t, .. } if t == track))
            .map(|e| e.beat)
            .collect();
        assert_eq!(on_beats, vec![0, 1, 2, 3, 4, 5, 6, 7]);
        let off_beats: Vec<u64> = schedule
            .iter()
            .filter(|e| matches!(e.command, LiveCommand::NoteOff { track: t, .. } if t == track))
            .map(|e| e.beat)
            .collect();
        assert_eq!(off_beats, vec![1, 2, 3, 4, 5, 6, 7, 8]);
    }
}

#[test]
fn test_schedule_sorted_by_beat() {
    let (song, patterns) = two_track_song();
    let schedule = build_schedule(&song, &patterns).unwrap();
    for pair in schedule.windows(2) {
        assert!(pair[0].beat <= pair[1].beat);
    }
}

#[test]
fn test_schedule_built_twice_is_identical() {
    let (song, patterns) = two_track_song();
    let a = build_schedule(&song, &patterns).unwrap();
    let b = build_schedule(&song, &patterns).unwrap();
    assert_eq!(a, b);
}

#[test]
fn test_track_independence() {
    let (song, patterns) = two_track_song();
    let full = build_schedule(&song, &patterns).unwrap();
    // empty track 1's segment list; track 0's events must not move
    let mut emptied = song.clone();
    emptied.tracks[1].sequence.clear();
    let reduced = build_schedule(&emptied, &patterns).unwrap();
    let t0_full: Vec<_> = full
        .iter()
        .filter(|e| {
            matches!(
                e.command,
                LiveCommand::NoteOn { track: 0, .. } | LiveCommand::NoteOff { track: 0, .. }
            )
        })
        .collect();
    let t0_reduced: Vec<_> = reduced
        .iter()
        .filter(|e| {
            matches!(
                e.command,
                LiveCommand::NoteOn { track: 0, .. } | LiveCommand::NoteOff { track: 0, .. }
            )
        })
        .collect();
    assert_eq!(t0_full, t0_reduced);
}

#[test]
fn test_missing_pattern_fails_whole_schedule() {
    let (mut song, patterns) = two_track_song();
    song.tracks[1].sequence.push(Segment {
        notes_path: "missing.notes".to_string(),
        times: 1,
    });
    match build_schedule(&song, &patterns) {
        Err(SchedulingError::MissingPattern(path)) => {
            assert_eq!(path, "missing.notes");
        }
        other => panic!("expected MissingPattern, got {:?}", other),
    }
}

#[test]
fn test_empty_song_is_refused() {
    let song = Song {
        tempo: 120,
        time_signature: TimeSignature { num: 4, den: 4 },
        tracks: vec![],
    };
    let patterns: Vec<(String, Pattern)> = vec![];
    assert_eq!(build_schedule(&song, &patterns), Err(SchedulingError::EmptySchedule));
}

#[test]
fn test_voice_keys_count_up_per_track() {
    let (song, patterns) = two_track_song();
    let schedule = build_schedule(&song, &patterns).unwrap();
    for track in 0..2usize {
        let keys: Vec<u32> = schedule
            .iter()
            .filter_map(|e| match e.command {
                LiveCommand::NoteOn { track: t, key, .. } if t == track => Some(key),
                _ => None,
            })
            .collect();
        assert_eq!(keys, vec![0, 1, 2, 3, 4, 5, 6, 7]);
    }
}

#[test]
fn test_chord_emits_pair_per_note_same_beats() {
    let chord = pattern_of(vec![Event::Chord(vec![
        NoteEvent { note: NoteName::C, octave: 4 },
        NoteEvent { note: NoteName::E, octave: 4 },
        NoteEvent { note: NoteName::G, octave: 4 },
    ])]);
    let song = Song {
        tempo: 100,
        time_signature: TimeSignature { num: 4, den: 4 },
        tracks: vec![SongTrack {
            instrument_path: "i.instr".to_string(),
            sequence: vec![Segment { notes_path: "c.notes".to_string(), times: 1 }],
        }],
    };
    let patterns = vec![("c.notes".to_string(), chord)];
    let schedule = build_schedule(&song, &patterns).unwrap();
    assert_eq!(schedule.len(), 6);
    // stable sort keeps emission order at equal beats: the three
    // NoteOns (beat 0, keys 0,1,2) precede the three NoteOffs (beat 1)
    for (i, ev) in schedule.iter().enumerate().take(3) {
        match ev.command {
            LiveCommand::NoteOn { track: 0, key, freq } => {
                assert_eq!(ev.beat, 0);
                assert_eq!(key, i as u32);
                assert!(freq > 0);
            }
            ref other => panic!("expected NoteOn, got {:?}", other),
        }
    }
    for (i, ev) in schedule.iter().enumerate().skip(3) {
        match ev.command {
            LiveCommand::NoteOff { track: 0, key } => {
                assert_eq!(ev.beat, 1);
                assert_eq!(key, (i - 3) as u32);
            }
            ref other => panic!("expected NoteOff, got {:?}", other),
        }
    }
}

#[test]
fn test_rests_and_barlines_shift_later_notes() {
    let p = pattern_of(vec![
        note(NoteName::C, 4),
        Event::Rest(2),
        Event::BarLine,
        note(NoteName::D, 4),
    ]);
    let song = Song {
        tempo: 90,
        time_signature: TimeSignature { num: 4, den: 4 },
        tracks: vec![SongTrack {
            instrument_path: "i.instr".to_string(),
            sequence: vec![Segment { notes_path: "p.notes".to_string(), times: 1 }],
        }],
    };
    let patterns = vec![("p.notes".to_string(), p)];
    let schedule = build_schedule(&song, &patterns).unwrap();
    let on_beats: Vec<u64> = schedule
        .iter()
        .filter(|e| matches!(e.command, LiveCommand::NoteOn { .. }))
        .map(|e| e.beat)
        .collect();
    // C at beat 0; the rest adds two beats, the bar line none; D at beat 3
    assert_eq!(on_beats, vec![0, 3]);
}

#[test]
fn test_schedule_inputs_ok_accepts_normal_song() {
    let (song, patterns) = two_track_song();
    assert!(clidaw::scheduler::schedule_inputs_ok(&song, &patterns));
}

#[test]
fn test_schedule_inputs_reject_out_of_range_octave() {
    let (song, mut patterns) = two_track_song();
    patterns[0].1.events.push(note(NoteName::C, 9));
    assert!(!clidaw::scheduler::schedule_inputs_ok(&song, &patterns));
}

#[test]
fn test_schedule_inputs_reject_overlong_track() {
    // one segment of u32::MAX-beat rests repeated u32::MAX times stays
    // just under the beat cursor's range; two of them overflow it
    let huge = pattern_of(vec![Event::Rest(u32::MAX)]);
    let seg = Segment { notes_path: "huge.notes".to_string(), times: u32::MAX };
    let song = Song {
        tempo: 120,
        time_signature: TimeSignature { num: 4, den: 4 },
        tracks: vec![SongTrack {
            instrument_path: "i.instr".to_string(),
            sequence: vec![seg.clone(), seg],
        }],
    };
    let patterns = vec![("huge.notes".to_string(), huge)];
    assert!(!clidaw::scheduler::schedule_inputs_ok(&song, &patterns));
}
