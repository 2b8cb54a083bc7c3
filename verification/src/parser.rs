//! The keyboard layout and the note-line sublanguage. A line of note
//! text is a run of characters: home-row letters are natural notes and
//! the row above holds the sharps, `-` runs are rests (one beat per
//! dash), `|` is a bar line, `[...]` groups notes into a chord, and
//! anything unrecognised is skipped.

use vstd::prelude::*;

verus! {

use crate::note::Event;
use crate::note::NoteEvent;
use crate::note::NoteName;

/// Parse errors with location info
#[derive(Debug, Clone, PartialEq, Eq)]
pub struct ParseError {
    pub line: usize,
    pub message: String,
}

/// The note and octave offset a keyboard character stands for: the
/// home row gives the natural notes of one octave (spilling into the
/// next from `k` on), the row above gives the sharps.
pub open spec fn spec_char_to_note(c: char) -> Option<(NoteName, u8)> {
    match c {
        'a' => Option::Some((NoteName::C, 0u8)),
        's' => Option::Some((NoteName::D, 0u8)),
        'd' => Option::Some((NoteName::E, 0u8)),
        'f' => Option::Some((NoteName::F, 0u8)),
        'g' => Option::Some((NoteName::G, 0u8)),
        'h' => Option::Some((NoteName::A, 0u8)),
        'j' => Option::Some((NoteName::B, 0u8)),
        'k' => Option::Some((NoteName::C, 1u8)),
        'l' => Option::Some((NoteName::D, 1u8)),
        ';' => Option::Some((NoteName::E, 1u8)),
        '\'' => Option::Some((NoteName::F, 1u8)),
        'w' => Option::Some((NoteName::CSharp, 0u8)),
        'e' => Option::Some((NoteName::DSharp, 0u8)),
        't' => Option::Some((NoteName::FSharp, 0u8)),
        'y' => Option::Some((NoteName::GSharp, 0u8)),
        'u' => Option::Some((NoteName::ASharp, 0u8)),
        'o' => Option::Some((NoteName::CSharp, 1u8)),
        'p' => Option::Some((NoteName::DSharp, 1u8)),
        _ => Option::None,
    }
}

/// Map a keyboard character to a (NoteName, octave_offset) pair.
/// The octave_offset indicates notes that spill into the next octave
/// on the keyboard layout (k, l, ;, ', o, p).
pub fn char_to_note(c: char) -> (r: Option<(NoteName, u8)>)
    ensures
        r == spec_char_to_note(c),
{
    match c {
        'a' => Option::Some((NoteName::C, 0)),
        's' => Option::Some((NoteName::D, 0)),
        'd' => Option::Some((NoteName::E, 0)),
        'f' => Option::Some((NoteName::F, 0)),
        'g' => Option::Some((NoteName::G, 0)),
        'h' => Option::Some((NoteName::A, 0)),
        'j' => Option::Some((NoteName::B, 0)),
        'k' => Option::Some((NoteName::C, 1)),
        'l' => Option::Some((NoteName::D, 1)),
        ';' => Option::Some((NoteName::E, 1)),
        '\'' => Option::Some((NoteName::F, 1)),
        'w' => Option::Some((NoteName::CSharp, 0)),
        'e' => Option::Some((NoteName::DSharp, 0)),
        't' => Option::Some((NoteName::FSharp, 0)),
        'y' => Option::Some((NoteName::GSharp, 0)),
        'u' => Option::Some((NoteName::ASharp, 0)),
        'o' => Option::Some((NoteName::CSharp, 1)),
        'p' => Option::Some((NoteName::DSharp, 1)),
        _ => Option::None,
    }
}


/// An octave raised by a keyboard offset, capped at the top of u8.
pub open spec fn spec_oct_add(octave: u8, off: u8) -> u8 {
    if octave + off > 255 {
        255u8
    } else {
        (octave + off) as u8
    }
}

/// The number of leading rest dashes of a line.
pub open spec fn spec_dash_run(bs: Seq<u8>) -> int
    decreases bs.len(),
{
    if bs.len() == 0 || bs[0] != 45 {
        0
    } else {
        1 + spec_dash_run(bs.drop_first())
    }
}

proof fn lemma_dash_run_bounds(bs: Seq<u8>)
    ensures
        0 <= spec_dash_run(bs) <= bs.len(),
        bs.len() > 0 && bs[0] == 45 ==> spec_dash_run(bs) >= 1,
    decreases bs.len(),
{
    if bs.len() > 0 && bs[0] == 45 {
        lemma_dash_run_bounds(bs.drop_first());
    }
}

/// The notes inside a chord: every recognised note character before
/// the closing bracket (or the end of the line), at the current octave
/// plus the character's offset.
pub open spec fn spec_chord_scan(bs: Seq<u8>, octave: u8) -> Seq<NoteEvent>
    decreases bs.len(),
{
    if bs.len() == 0 || bs[0] == 93 {
        Seq::empty()
    } else {
        (match spec_char_to_note(bs[0] as char) {
            Option::Some(p) => seq![NoteEvent { note: p.0, octave: spec_oct_add(octave, p.1) }],
            Option::None => Seq::<NoteEvent>::empty(),
        }) + spec_chord_scan(bs.drop_first(), octave)
    }
}

/// How many bytes a chord body occupies, the closing bracket included
/// where there is one.
pub open spec fn spec_chord_advance(bs: Seq<u8>) -> int
    decreases bs.len(),
{
    if bs.len() == 0 {
        0
    } else if bs[0] == 93 {
        1
    } else {
        1 + spec_chord_advance(bs.drop_first())
    }
}

proof fn lemma_chord_advance_bounds(bs: Seq<u8>)
    ensures
        0 <= spec_chord_advance(bs) <= bs.len(),
    decreases bs.len(),
{
    if bs.len() > 0 && bs[0] != 93 {
        lemma_chord_advance_bounds(bs.drop_first());
    }
}

/// An event as the line grammar describes it; a chord's notes are a
/// sequence, where the executable event holds a vector.
pub enum EventModel {
    Note(NoteEvent),
    Chord(Seq<NoteEvent>),
    Rest(int),
    BarLine,
}

/// The events of one line of note text, walked left to right:
/// whitespace separates, `|` is a bar line, a run of `-` is one rest of
/// that many beats, `[...]` collects its recognised characters into one
/// chord (an empty chord is dropped), a recognised character is a note,
/// and anything else is skipped.
pub open spec fn spec_parse_line(bs: Seq<u8>, octave: u8) -> Seq<EventModel>
    decreases bs.len(),
    via spec_parse_line_decreases
{
    if bs.len() == 0 {
        Seq::empty()
    } else {
        let b = bs[0];
        if b == 32 || b == 9 {
            spec_parse_line(bs.drop_first(), octave)
        } else if b == 124 {
            seq![EventModel::BarLine] + spec_parse_line(bs.drop_first(), octave)
        } else if b == 45 {
            seq![EventModel::Rest(spec_dash_run(bs))] + spec_parse_line(
                bs.skip(spec_dash_run(bs)),
                octave,
            )
        } else if b == 91 {
            let notes = spec_chord_scan(bs.drop_first(), octave);
            (if notes.len() == 0 {
                Seq::<EventModel>::empty()
            } else {
                seq![EventModel::Chord(notes)]
            }) + spec_parse_line(bs.skip(1 + spec_chord_advance(bs.drop_first())), octave)
        } else {
            (match spec_char_to_note(b as char) {
                Option::Some(p) => seq![
                    EventModel::Note(NoteEvent { note: p.0, octave: spec_oct_add(octave, p.1) }),
                ],
                Option::None => Seq::<EventModel>::empty(),
            }) + spec_parse_line(bs.drop_first(), octave)
        }
    }
}

#[via_fn]
proof fn spec_parse_line_decreases(bs: Seq<u8>, octave: u8) {
    if bs.len() > 0 {
        lemma_dash_run_bounds(bs);
        lemma_chord_advance_bounds(bs.drop_first());
    }
}

/// One executable event realises one event of the grammar.
pub open spec fn spec_event_matches(e: Event, m: EventModel) -> bool {
    match e {
        Event::Note(n) => m == EventModel::Note(n),
        Event::Chord(notes) => m matches EventModel::Chord(s) && s == notes@,
        Event::Rest(beats) => m == EventModel::Rest(beats as int),
        Event::BarLine => m == EventModel::BarLine,
    }
}

/// The executable events realise the grammar's events, one for one and
/// in order.
pub open spec fn spec_events_match(es: Seq<Event>, ms: Seq<EventModel>) -> bool {
    &&& es.len() == ms.len()
    &&& forall|i: int| 0 <= i < es.len() ==> spec_event_matches(#[trigger] es[i], ms[i])
}

/// Parse one line of note text into events, against the line grammar.
#[verifier::rlimit(100)]
#[verifier::loop_isolation(false)]
pub fn parse_line(line: &[u8], octave: u8) -> (r: Vec<Event>)
    requires
        line@.len() <= u32::MAX,
    ensures
        spec_events_match(r@, spec_parse_line(line@, octave)),
{
    let ghost full = line@;
    let mut out: Vec<Event> = Vec::new();
    let ghost mut done: Seq<EventModel> = Seq::empty();
    let mut i: usize = 0;
    proof {
        assert(full.skip(0) =~= full);
        assert(Seq::<EventModel>::empty() + spec_parse_line(full, octave) =~= spec_parse_line(
            full,
            octave,
        ));
    }
    while i < line.len()
        invariant
            i <= full.len(),
            spec_parse_line(full, octave) == done + spec_parse_line(full.skip(i as int), octave),
            spec_events_match(out@, done),
        decreases full.len() - i,
    {
        let ghost rest = full.skip(i as int);
        proof {
            assert(rest[0] == full[i as int]);
            assert(rest.drop_first() =~= full.skip(i as int + 1));
        }
        let b = line[i];
        if b == 32 || b == 9 {
            i = i + 1;
        } else if b == 124 {
            out.push(Event::BarLine);
            proof {
                done = done.push(EventModel::BarLine);
                assert(done + spec_parse_line(full.skip(i as int + 1), octave)
                    =~= done.drop_last() + (seq![EventModel::BarLine] + spec_parse_line(
                    full.skip(i as int + 1),
                    octave,
                )));
            }
            i = i + 1;
        } else if b == 45 {
            let mut j: usize = i;
            while j < line.len() && line[j] == 45
                invariant
                    i <= j <= full.len(),
                    spec_dash_run(full.skip(i as int)) == (j - i) + spec_dash_run(
                        full.skip(j as int),
                    ),
                decreases full.len() - j,
            {
                proof {
                    assert(full.skip(j as int)[0] == full[j as int]);
                    assert(full.skip(j as int).drop_first() =~= full.skip(j as int + 1));
                }
                j = j + 1;
            }
            proof {
                if j < line.len() {
                    assert(full.skip(j as int)[0] == full[j as int]);
                } else {
                    assert(full.skip(j as int) =~= Seq::<u8>::empty());
                }
                assert(spec_dash_run(full.skip(j as int)) == 0);
                assert(spec_dash_run(rest) == j - i);
            }
            let count: u32 = (j - i) as u32;
            out.push(Event::Rest(count));
            proof {
                done = done.push(EventModel::Rest(count as int));
                assert(full.skip(i as int).skip(j - i) =~= full.skip(j as int));
                assert(done + spec_parse_line(full.skip(j as int), octave) =~= done.drop_last()
                    + (seq![EventModel::Rest(spec_dash_run(rest))] + spec_parse_line(
                    full.skip(j as int),
                    octave,
                )));
            }
            i = j;
        } else if b == 91 {
            let mut notes: Vec<NoteEvent> = Vec::new();
            let mut j: usize = i + 1;
            proof {
                assert(full.skip(i as int + 1) =~= rest.drop_first());
            }
            while j < line.len() && line[j] != 93
                invariant
                    i + 1 <= j <= full.len(),
                    spec_chord_scan(rest.drop_first(), octave) == notes@ + spec_chord_scan(
                        full.skip(j as int),
                        octave,
                    ),
                    spec_chord_advance(rest.drop_first()) == (j - i - 1) + spec_chord_advance(
                        full.skip(j as int),
                    ),
                decreases full.len() - j,
            {
                proof {
                    assert(full.skip(j as int)[0] == full[j as int]);
                    assert(full.skip(j as int).drop_first() =~= full.skip(j as int + 1));
                }
                match char_to_note(line[j] as char) {
                    Option::Some(p) => {
                        notes.push(NoteEvent { note: p.0, octave: octave.saturating_add(p.1) });
                        proof {
                            assert(notes@ =~= notes@.drop_last() + seq![
                                NoteEvent {
                                    note: p.0,
                                    octave: spec_oct_add(octave, p.1),
                                },
                            ]);
                            assert(notes@.drop_last() + (seq![
                                NoteEvent {
                                    note: p.0,
                                    octave: spec_oct_add(octave, p.1),
                                },
                            ] + spec_chord_scan(full.skip(j as int + 1), octave)) =~= notes@
                                + spec_chord_scan(full.skip(j as int + 1), octave));
                        }
                    },
                    Option::None => {
                        proof {
                            assert(Seq::<NoteEvent>::empty() + spec_chord_scan(
                                full.skip(j as int + 1),
                                octave,
                            ) =~= spec_chord_scan(full.skip(j as int + 1), octave));
                        }
                    },
                }
                j = j + 1;
            }
            let next: usize = if j < line.len() {
                j + 1
            } else {
                j
            };
            proof {
                if j < line.len() {
                    assert(full.skip(j as int)[0] == full[j as int]);
                } else {
                    assert(full.skip(j as int) =~= Seq::<u8>::empty());
                }
                assert(spec_chord_scan(full.skip(j as int), octave) =~= Seq::<
                    NoteEvent,
                >::empty());
                assert(notes@ + Seq::<NoteEvent>::empty() =~= notes@);
                assert(spec_chord_scan(rest.drop_first(), octave) == notes@);
                assert(1 + spec_chord_advance(rest.drop_first()) == next - i);
                assert(rest.skip(next - i) =~= full.skip(next as int));
            }
            if notes.len() > 0 {
                let ghost ns = notes@;
                out.push(Event::Chord(notes));
                proof {
                    done = done.push(EventModel::Chord(ns));
                    assert(done + spec_parse_line(full.skip(next as int), octave)
                        =~= done.drop_last() + (seq![EventModel::Chord(ns)] + spec_parse_line(
                        full.skip(next as int),
                        octave,
                    )));
                }
            } else {
                proof {
                    assert(done + (Seq::<EventModel>::empty() + spec_parse_line(
                        full.skip(next as int),
                        octave,
                    )) =~= done + spec_parse_line(full.skip(next as int), octave));
                }
            }
            i = next;
        } else {
            match char_to_note(b as char) {
                Option::Some(p) => {
                    out.push(
                        Event::Note(NoteEvent { note: p.0, octave: octave.saturating_add(p.1) }),
                    );
                    proof {
                        done = done.push(
                            EventModel::Note(
                                NoteEvent { note: p.0, octave: spec_oct_add(octave, p.1) },
                            ),
                        );
                        assert(done + spec_parse_line(full.skip(i as int + 1), octave)
                            =~= done.drop_last() + (seq![
                            EventModel::Note(
                                NoteEvent { note: p.0, octave: spec_oct_add(octave, p.1) },
                            ),
                        ] + spec_parse_line(full.skip(i as int + 1), octave)));
                    }
                },
                Option::None => {
                    proof {
                        assert(done + (Seq::<EventModel>::empty() + spec_parse_line(
                            full.skip(i as int + 1),
                            octave,
                        )) =~= done + spec_parse_line(full.skip(i as int + 1), octave));
                    }
                },
            }
            i = i + 1;
        }
    }
    proof {
        assert(full.skip(full.len() as int) =~= Seq::<u8>::empty());
        assert(spec_parse_line(Seq::<u8>::empty(), octave) =~= Seq::<EventModel>::empty());
        assert(done + Seq::<EventModel>::empty() =~= done);
    }
    out
}

} // verus!
