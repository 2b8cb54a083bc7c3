use clidaw::command::LiveCommand;
use clidaw::envelope::envelope_level;
use clidaw::envelope::Adsr;
use clidaw::envelope::EnvStage;
use clidaw::voice::VoicePool;

fn default_pool(rate: u32) -> VoicePool {
    VoicePool::new(vec![Adsr::default()], rate)
}

#[test]
fn test_adsr_default_values() {
    let a = Adsr::default();
    assert_eq!(a.attack, 10_000);
    assert_eq!(a.decay, 100_000);
    assert_eq!(a.sustain, 700_000);
    assert_eq!(a.release, 250_000);
    assert!(a.is_wf());
}

#[test]
fn test_envelope_attack_formula() {
    let a = Adsr { attack: 441, decay: 4410, sustain: 700_000, release: 11_025 };
    // halfway through a 441-sample attack: 220 * 1000000 / 441
    assert_eq!(envelope_level(EnvStage::Attack, 220, 0, &a), 498_866);
    assert_eq!(envelope_level(EnvStage::Attack, 441, 0, &a), 1_000_000);
    assert_eq!(envelope_level(EnvStage::Attack, 0, 0, &a), 0);
}

#[test]
fn test_envelope_zero_attack_is_full() {
    let a = Adsr { attack: 0, decay: 10, sustain: 500_000, release: 10 };
    assert_eq!(envelope_level(EnvStage::Attack, 0, 0, &a), 1_000_000);
}

#[test]
fn test_envelope_decay_formula() {
    let a = Adsr { attack: 441, decay: 4410, sustain: 700_000, release: 11_025 };
    // halfway through decay: 1000000 - 2205 * 300000 / 4410
    assert_eq!(envelope_level(EnvStage::Decay, 2205, 0, &a), 850_000);
    assert_eq!(envelope_level(EnvStage::Decay, 4410, 0, &a), 700_000);
    assert_eq!(envelope_level(EnvStage::Decay, 0, 0, &a), 1_000_000);
}

#[test]
fn test_envelope_sustain_holds() {
    let a = Adsr { attack: 441, decay: 4410, sustain: 700_000, release: 11_025 };
    assert_eq!(envelope_level(EnvStage::Sustain, 0, 0, &a), 700_000);
    assert_eq!(envelope_level(EnvStage::Sustain, 99_999, 0, &a), 700_000);
}

#[test]
fn test_envelope_release_formula() {
    let a = Adsr { attack: 441, decay: 4410, sustain: 700_000, release: 11_025 };
    // halfway through release from 700000: 700000 * 5513 / 11025
    assert_eq!(envelope_level(EnvStage::Release, 5512, 700_000, &a), 350_031);
    assert_eq!(envelope_level(EnvStage::Release, 11_025, 700_000, &a), 0);
    assert_eq!(envelope_level(EnvStage::Release, 0, 700_000, &a), 700_000);
}

#[test]
fn test_envelope_idle_is_silent() {
    let a = Adsr::default();
    assert_eq!(envelope_level(EnvStage::Idle, 12345, 700_000, &a), 0);
}

#[test]
fn test_attack_level_non_decreasing() {
    let a = Adsr { attack: 441, decay: 4410, sustain: 700_000, release: 11_025 };
    let mut last = 0;
    for e in 0..=441u64 {
        let level = envelope_level(EnvStage::Attack, e, 0, &a);
        assert!(level >= last);
        last = level;
    }
}

#[test]
fn test_release_level_non_increasing() {
    let a = Adsr { attack: 441, decay: 4410, sustain: 700_000, release: 11_025 };
    let mut last = 1_000_000;
    for e in 0..=11_025u64 {
        let level = envelope_level(EnvStage::Release, e, 700_000, &a);
        assert!(level <= last);
        last = level;
    }
}

#[test]
fn test_pool_note_on_creates_voice() {
    let mut pool = default_pool(44_100);
    let shutdown = pool.apply_command(LiveCommand::NoteOn { track: 0, key: 7, freq: 440_000_000 });
    assert!(!shutdown);
    assert_eq!(pool.voices.len(), 1);
    assert_eq!(pool.voices[0].key, 7);
    assert_eq!(pool.voices[0].freq, 440_000_000);
    assert_eq!(pool.voices[0].env_stage, EnvStage::Attack);
    assert_eq!(pool.voices[0].phase, 0);
}

#[test]
fn test_pool_unknown_track_is_noop() {
    let mut pool = default_pool(44_100);
    pool.apply_command(LiveCommand::NoteOn { track: 3, key: 0, freq: 440_000_000 });
    assert_eq!(pool.voices.len(), 0);
    // a NoteOff for a voice that never sounded is also a no-op
    pool.apply_command(LiveCommand::NoteOff { track: 0, key: 0 });
    assert_eq!(pool.voices.len(), 0);
}

#[test]
fn test_retrigger_keeps_oscillator_phase() {
    let mut pool = default_pool(44_100);
    pool.apply_command(LiveCommand::NoteOn { track: 0, key: 1, freq: 440_000_000 });
    // run long enough that the phase has advanced
    for _ in 0..1000 {
        pool.advance_sample();
    }
    let phase_before = pool.voices[0].phase;
    assert!(phase_before != 0);
    // retrigger the same (track, key) at a new frequency
    pool.apply_command(LiveCommand::NoteOn { track: 0, key: 1, freq: 523_251_131 });
    assert_eq!(pool.voices.len(), 1);
    assert_eq!(pool.voices[0].phase, phase_before);
    assert_eq!(pool.voices[0].freq, 523_251_131);
    assert_eq!(pool.voices[0].env_stage, EnvStage::Attack);
    assert_eq!(pool.voices[0].env_elapsed, 0);
}

#[test]
fn test_note_lifecycle_scenario() {
    // attack 0.01 s, decay 0.1 s, sustain 0.7, release 0.25 s at 44100 Hz;
    // NoteOn at t=0, NoteOff at one beat of 120 BPM (0.5 s = 22050 samples)
    let mut pool = default_pool(44_100);
    pool.apply_command(LiveCommand::NoteOn { track: 0, key: 0, freq: 440_000_000 });
    for _ in 0..22_050 {
        pool.advance_sample();
    }
    // past attack (441 samples) and decay (4410): holding at sustain
    assert_eq!(pool.voices.len(), 1);
    assert_eq!(pool.voices[0].env_stage, EnvStage::Sustain);
    let a = pool.adsrs[0];
    assert_eq!(
        envelope_level(
            pool.voices[0].env_stage,
            pool.voices[0].env_elapsed,
            pool.voices[0].release_start_level,
            &a,
        ),
        700_000
    );
    pool.apply_command(LiveCommand::NoteOff { track: 0, key: 0 });
    assert_eq!(pool.voices[0].env_stage, EnvStage::Release);
    assert_eq!(pool.voices[0].release_start_level, 700_000);
    // the voice reaches Idle within the release time (0.25 s = 11025 samples)
    for _ in 0..11_025 {
        pool.advance_sample();
    }
    assert_eq!(pool.voices.len(), 0);
}

#[test]
fn test_all_notes_off_from_sustain() {
    // zero attack and decay reach Sustain after two samples
    let adsr = Adsr { attack: 0, decay: 0, sustain: 700_000, release: 250_000 };
    let mut pool = VoicePool::new(vec![adsr], 1000);
    // release at 1000 Hz is 250 samples
    pool.apply_command(LiveCommand::NoteOn { track: 0, key: 0, freq: 440_000_000 });
    pool.apply_command(LiveCommand::NoteOn { track: 0, key: 1, freq: 523_251_131 });
    pool.apply_command(LiveCommand::NoteOn { track: 0, key: 2, freq: 659_255_114 });
    pool.advance_sample();
    pool.advance_sample();
    assert_eq!(pool.voices.len(), 3);
    for v in pool.voices.iter() {
        assert_eq!(v.env_stage, EnvStage::Sustain);
    }
    pool.apply_command(LiveCommand::AllNotesOff);
    for v in pool.voices.iter() {
        assert_eq!(v.env_stage, EnvStage::Release);
        assert_eq!(v.release_start_level, 700_000);
        assert_eq!(v.env_elapsed, 0);
    }
    // all three reach Idle after exactly the release time
    for _ in 0..249 {
        pool.advance_sample();
    }
    assert_eq!(pool.voices.len(), 3);
    pool.advance_sample();
    assert_eq!(pool.voices.len(), 0);
}

#[test]
fn test_shutdown_discards_all_voices() {
    let mut pool = default_pool(44_100);
    pool.apply_command(LiveCommand::NoteOn { track: 0, key: 0, freq: 440_000_000 });
    pool.apply_command(LiveCommand::NoteOn { track: 0, key: 1, freq: 220_000_000 });
    assert_eq!(pool.voices.len(), 2);
    let shutdown = pool.apply_command(LiveCommand::Shutdown);
    assert!(shutdown);
    assert_eq!(pool.voices.len(), 0);
}

#[test]
fn test_advance_reports_audible_voices() {
    let adsr = Adsr { attack: 0, decay: 0, sustain: 700_000, release: 100_000 };
    let mut pool = VoicePool::new(vec![adsr], 1000);
    pool.apply_command(LiveCommand::NoteOn { track: 0, key: 0, freq: 440_000_000 });
    let out = pool.advance_sample();
    // one audible voice: its pre-advance phase is 0; with zero attack
    // and decay the level is already the sustain level
    assert_eq!(out, vec![(0, 700_000)]);
    let out2 = pool.advance_sample();
    // now in Sustain; phase advanced by freq once
    assert_eq!(out2, vec![(440_000_000, 700_000)]);
}

#[test]
fn test_adsr_times_rescaled_to_samples() {
    let pool = default_pool(44_100);
    // 10000 us attack at 44100 Hz = 441 samples, and so on
    assert_eq!(pool.adsrs[0].attack, 441);
    assert_eq!(pool.adsrs[0].decay, 4_410);
    assert_eq!(pool.adsrs[0].release, 11_025);
    assert_eq!(pool.adsrs[0].sustain, 700_000);
}
