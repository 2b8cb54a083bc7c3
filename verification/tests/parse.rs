use clidaw::note::{Event, NoteEvent, NoteName};
use clidaw::parser::{char_to_note, parse_line};

#[test]
fn test_char_mapping() {
    assert_eq!(char_to_note('a'), Some((NoteName::C, 0)));
    assert_eq!(char_to_note('w'), Some((NoteName::CSharp, 0)));
    assert_eq!(char_to_note('k'), Some((NoteName::C, 1)));
    assert_eq!(char_to_note('z'), None);
}

#[test]
fn test_char_mapping_sharps_row() {
    assert_eq!(char_to_note('e'), Some((NoteName::DSharp, 0)));
    assert_eq!(char_to_note('t'), Some((NoteName::FSharp, 0)));
    assert_eq!(char_to_note('y'), Some((NoteName::GSharp, 0)));
    assert_eq!(char_to_note('u'), Some((NoteName::ASharp, 0)));
    assert_eq!(char_to_note('o'), Some((NoteName::CSharp, 1)));
    assert_eq!(char_to_note('p'), Some((NoteName::DSharp, 1)));
    assert_eq!(char_to_note(' '), None);
    assert_eq!(char_to_note('['), None);
}

#[test]
fn test_parse_line_notes_and_rests() {
    let events = parse_line(b"a - | s", 4);
    assert_eq!(events.len(), 4);
    assert_eq!(
        events[0],
        Event::Note(NoteEvent { note: NoteName::C, octave: 4 })
    );
    assert_eq!(events[1], Event::Rest(1));
    assert_eq!(events[2], Event::BarLine);
    assert_eq!(
        events[3],
        Event::Note(NoteEvent { note: NoteName::D, octave: 4 })
    );
}

#[test]
fn test_parse_line_long_rest() {
    let events = parse_line(b"a --- s", 4);
    assert_eq!(events[1], Event::Rest(3));
}

#[test]
fn test_parse_line_chord() {
    // [adg] = C major chord (a=C, d=E, g=G)
    let events = parse_line(b"[adg]", 4);
    assert_eq!(events.len(), 1);
    if let Event::Chord(notes) = &events[0] {
        assert_eq!(notes.len(), 3);
        assert_eq!(notes[0].note, NoteName::C);
        assert_eq!(notes[1].note, NoteName::E);
        assert_eq!(notes[2].note, NoteName::G);
    } else {
        panic!("expected chord");
    }
}

#[test]
fn test_parse_line_octave_spill() {
    // 'k' is the C of the next octave up
    let events = parse_line(b"k", 4);
    assert_eq!(
        events[0],
        Event::Note(NoteEvent { note: NoteName::C, octave: 5 })
    );
}

#[test]
fn test_parse_line_skips_unknown_and_empty_chord() {
    // unknown characters are silently skipped; a chord of nothing is dropped
    let events = parse_line(b"z a z", 4);
    assert_eq!(events.len(), 1);
    let events2 = parse_line(b"[zx]", 4);
    assert_eq!(events2.len(), 0);
}
