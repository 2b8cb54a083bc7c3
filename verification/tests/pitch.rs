use clidaw::note::NoteName;

#[test]
fn test_middle_c_midi() {
    assert_eq!(NoteName::C.to_midi(4), 60);
}

#[test]
fn test_a4_frequency() {
    let freq = NoteName::A.to_freq(4) as f64 / 1e6;
    assert!((freq - 440.0).abs() < 0.01);
}

#[test]
fn test_semitones() {
    assert_eq!(NoteName::C.semitone(), 0);
    assert_eq!(NoteName::B.semitone(), 11);
}

#[test]
fn test_a4_micros_exact() {
    assert_eq!(NoteName::A.to_freq(4), 440_000_000);
    assert_eq!(NoteName::A.to_freq(0), 27_500_000);
}

#[test]
fn test_frequency_monotonic_in_midi() {
    // walk every (note, octave) pair in MIDI order and check that the
    // frequency strictly increases
    let names = [
        NoteName::C,
        NoteName::CSharp,
        NoteName::D,
        NoteName::DSharp,
        NoteName::E,
        NoteName::F,
        NoteName::FSharp,
        NoteName::G,
        NoteName::GSharp,
        NoteName::A,
        NoteName::ASharp,
        NoteName::B,
    ];
    let mut last: u64 = 0;
    for octave in 0..=8u8 {
        for name in names {
            let f = name.to_freq(octave);
            assert!(f > last, "frequency must rise with the MIDI number");
            last = f;
        }
    }
}

#[test]
fn test_octave_doubles_frequency() {
    assert_eq!(NoteName::C.to_freq(5), 2 * NoteName::C.to_freq(4));
    assert_eq!(NoteName::G.to_freq(8), 2 * NoteName::G.to_freq(7));
}
