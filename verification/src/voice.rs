//! The voice pool: the state the audio engine's rendering tick owns.
//! Commands create, retrigger and release voices; every sample tick
//! advances each voice's envelope and oscillator phase and retires
//! voices whose envelope reached Idle.
//!
//! The pool works in integers: oscillator phase runs in steps of one
//! micro-hertz-sample, wrapping at `sample_rate * 1000000` (one whole
//! turn), so a voice's sine argument is `phase / (sample_rate * 1e6)`
//! turns. Envelope times are counted in whole samples. The surrounding
//! application computes the actual sine and mixes the float samples.

use vstd::prelude::*;

verus! {

use vstd::arithmetic::div_mod::lemma_fundamental_div_mod_converse;
use vstd::arithmetic::div_mod::lemma_multiply_divide_le;
use vstd::arithmetic::div_mod::lemma_small_mod;

use crate::command::LiveCommand;
use crate::envelope::Adsr;
use crate::envelope::EnvStage;
use crate::envelope::LEVEL_ONE;
use crate::envelope::MAX_STAGE_TIME;
use crate::envelope::envelope_level;
use crate::envelope::lemma_env_level_bounds;
use crate::envelope::spec_env_level;

/// A voice's contribution is audible, and its oscillator advances,
/// only while its level is above this floor (in parts per million).
pub const NOISE_FLOOR: u32 = 100;

/// The highest sample rate the pool takes, in Hz.
pub const MAX_SAMPLE_RATE: u32 = 1000000;

/// A single playing voice with ADSR envelope
#[derive(Debug, Clone, Copy, PartialEq, Eq, Structural)]
pub struct Voice {
    pub track: usize,
    pub key: u32,
    /// Oscillator frequency in micro-hertz
    pub freq: u64,
    /// Oscillator phase in micro-hertz-samples: a full turn is
    /// `sample_rate * 1000000`
    pub phase: u64,
    pub env_stage: EnvStage,
    /// Samples elapsed in the current envelope stage
    pub env_elapsed: u64,
    /// Level captured when release began, in parts per million
    pub release_start_level: u32,
}

/// The pool of currently sounding voices, with one ADSR per track
/// (times in samples) and the sample rate the stream was opened at.
#[derive(Debug, Clone)]
pub struct VoicePool {
    pub voices: Vec<Voice>,
    pub adsrs: Vec<Adsr>,
    pub sample_rate: u32,
}

/// One whole oscillator turn, in micro-hertz-samples.
pub open spec fn spec_modulus(sample_rate: u32) -> int {
    sample_rate * 1000000
}

/// A voice the pool can hold: its track has an ADSR, its phase and
/// frequency lie under one turn, its level is a true level, and the
/// stage clock has not run past its stage's time.
pub open spec fn spec_voice_wf(v: Voice, adsrs: Seq<Adsr>, sample_rate: u32) -> bool {
    &&& (v.track as int) < adsrs.len()
    &&& v.freq < spec_modulus(sample_rate)
    &&& v.phase < spec_modulus(sample_rate)
    &&& v.release_start_level <= LEVEL_ONE
    &&& match v.env_stage {
        EnvStage::Idle => true,
        EnvStage::Attack => v.env_elapsed <= adsrs[v.track as int].attack,
        EnvStage::Decay => v.env_elapsed <= adsrs[v.track as int].decay,
        EnvStage::Sustain => v.env_elapsed <= adsrs[v.track as int].decay,
        EnvStage::Release => v.env_elapsed <= adsrs[v.track as int].release,
    }
}

impl VoicePool {
    /// A well-formed pool.
    pub open spec fn wf(self) -> bool {
        &&& 0 < self.sample_rate <= MAX_SAMPLE_RATE
        &&& self.adsrs@.len() > 0
        &&& forall|i: int| 0 <= i < self.adsrs@.len() ==> (#[trigger] self.adsrs@[i]).wf()
        &&& forall|i: int|
            0 <= i < self.voices@.len() ==> spec_voice_wf(
                #[trigger] self.voices@[i],
                self.adsrs@,
                self.sample_rate,
            )
    }
}

/// An ADSR given in microseconds, rescaled to whole samples.
pub open spec fn spec_adsr_to_samples(a: Adsr, sample_rate: u32) -> Adsr {
    Adsr {
        attack: (a.attack * sample_rate / 1000000) as u64,
        decay: (a.decay * sample_rate / 1000000) as u64,
        sustain: a.sustain,
        release: (a.release * sample_rate / 1000000) as u64,
    }
}

/// Rescale one stage time from microseconds to samples.
fn stage_time_to_samples(us: u64, sample_rate: u32) -> (r: u64)
    requires
        us <= MAX_STAGE_TIME,
        0 < sample_rate <= MAX_SAMPLE_RATE,
    ensures
        r == us * sample_rate / 1000000,
        r <= MAX_STAGE_TIME,
{
    proof {
        assert(us * sample_rate <= MAX_STAGE_TIME * MAX_SAMPLE_RATE) by (nonlinear_arith)
            requires
                0 <= us <= MAX_STAGE_TIME,
                0 < sample_rate <= MAX_SAMPLE_RATE,
        ;
        assert(us * sample_rate <= 1000000 * MAX_STAGE_TIME) by (nonlinear_arith)
            requires
                0 <= us <= MAX_STAGE_TIME,
                0 < sample_rate <= 1000000,
        ;
        lemma_multiply_divide_le(us as int * sample_rate, 1000000, MAX_STAGE_TIME as int);
        vstd::arithmetic::div_mod::lemma_div_pos_is_pos(us as int * sample_rate, 1000000);
    }
    us * (sample_rate as u64) / 1000000
}

impl VoicePool {
    /// A fresh pool: one ADSR per track, given in microseconds and
    /// rescaled here to the stream's sample rate; no voices sound yet.
    pub fn new(adsrs: Vec<Adsr>, sample_rate: u32) -> (p: VoicePool)
        requires
            adsrs@.len() > 0,
            0 < sample_rate <= MAX_SAMPLE_RATE,
            forall|i: int| 0 <= i < adsrs@.len() ==> (#[trigger] adsrs@[i]).wf(),
        ensures
            p.wf(),
            p.sample_rate == sample_rate,
            p.voices@.len() == 0,
            p.adsrs@.len() == adsrs@.len(),
            forall|i: int|
                0 <= i < adsrs@.len() ==> p.adsrs@[i] == spec_adsr_to_samples(
                    #[trigger] adsrs@[i],
                    sample_rate,
                ),
    {
        let mut scaled: Vec<Adsr> = Vec::new();
        let mut i: usize = 0;
        while i < adsrs.len()
            invariant
                i <= adsrs@.len(),
                scaled@.len() == i,
                0 < sample_rate <= MAX_SAMPLE_RATE,
                forall|k: int| 0 <= k < adsrs@.len() ==> (#[trigger] adsrs@[k]).wf(),
                forall|k: int|
                    0 <= k < i ==> scaled@[k] == spec_adsr_to_samples(
                        #[trigger] adsrs@[k],
                        sample_rate,
                    ),
                forall|k: int| 0 <= k < i ==> (#[trigger] scaled@[k]).wf(),
            decreases adsrs@.len() - i,
        {
            let a = adsrs[i];
            let s = Adsr {
                attack: stage_time_to_samples(a.attack, sample_rate),
                decay: stage_time_to_samples(a.decay, sample_rate),
                sustain: a.sustain,
                release: stage_time_to_samples(a.release, sample_rate),
            };
            scaled.push(s);
            i = i + 1;
        }
        VoicePool { voices: Vec::new(), adsrs: scaled, sample_rate }
    }
}

/// A voice retriggered in place by a NoteOn: the envelope restarts
/// from Attack at the new frequency, but the oscillator phase is kept,
/// preserving phase continuity across the re-strike.
pub open spec fn spec_retrigger(v: Voice, freq: u64) -> Voice {
    Voice {
        freq,
        env_stage: EnvStage::Attack,
        env_elapsed: 0,
        release_start_level: 0,
        ..v
    }
}

/// A brand-new voice created by a NoteOn on a silent slot.
pub open spec fn spec_new_voice(track: usize, key: u32, freq: u64) -> Voice {
    Voice {
        track,
        key,
        freq,
        phase: 0,
        env_stage: EnvStage::Attack,
        env_elapsed: 0,
        release_start_level: 0,
    }
}

/// A voice sent into Release: the current instantaneous level — not
/// the sustain level — is captured as the release-start level, so the
/// release ramp is continuous from whatever stage the voice was in.
pub open spec fn spec_released(v: Voice, a: Adsr) -> Voice {
    Voice {
        env_stage: EnvStage::Release,
        env_elapsed: 0,
        release_start_level: spec_env_level(
            v.env_stage,
            v.env_elapsed as int,
            v.release_start_level as int,
            a,
        ) as u32,
        ..v
    }
}

/// What a NoteOff for (track, key) does to one voice: a live matching
/// voice begins release, every other voice is untouched.
pub open spec fn spec_release_match(v: Voice, track: usize, key: u32, adsrs: Seq<Adsr>) -> Voice {
    if v.track == track && v.key == key && !(v.env_stage is Idle) {
        spec_released(v, adsrs[v.track as int])
    } else {
        v
    }
}

/// What AllNotesOff does to one voice: every live voice begins release.
pub open spec fn spec_release_any(v: Voice, adsrs: Seq<Adsr>) -> Voice {
    if !(v.env_stage is Idle) {
        spec_released(v, adsrs[v.track as int])
    } else {
        v
    }
}

/// Index of the first voice addressed by (track, key), or the pool
/// size when none is.
pub open spec fn spec_first_voice(vs: Seq<Voice>, track: usize, key: u32) -> int
    decreases vs.len(),
{
    if vs.len() == 0 {
        0
    } else if vs[0].track == track && vs[0].key == key {
        0
    } else {
        1 + spec_first_voice(vs.drop_first(), track, key)
    }
}

/// The first match is where the scan says it is: past a matchless
/// prefix, at the first matching voice.
proof fn lemma_first_voice_at(vs: Seq<Voice>, track: usize, key: u32, i: int)
    requires
        0 <= i <= vs.len(),
        forall|k: int| 0 <= k < i ==> !((#[trigger] vs[k]).track == track && vs[k].key == key),
        i < vs.len() ==> vs[i].track == track && vs[i].key == key,
    ensures
        spec_first_voice(vs, track, key) == i,
    decreases i,
{
    if i == 0 {
    } else {
        assert(forall|k: int| 0 <= k < i - 1 ==> vs.drop_first()[k] == vs[k + 1]);
        if i < vs.len() {
            assert(vs.drop_first()[i - 1] == vs[i]);
        }
        lemma_first_voice_at(vs.drop_first(), track, key, i - 1);
    }
}

/// A released voice is still one the pool can hold.
proof fn lemma_released_wf(v: Voice, adsrs: Seq<Adsr>, sample_rate: u32)
    requires
        spec_voice_wf(v, adsrs, sample_rate),
        adsrs[v.track as int].wf(),
    ensures
        spec_voice_wf(spec_released(v, adsrs[v.track as int]), adsrs, sample_rate),
{
    lemma_env_level_bounds(
        v.env_stage,
        v.env_elapsed as int,
        v.release_start_level as int,
        adsrs[v.track as int],
    );
}

impl VoicePool {
    /// Find the first voice addressed by (track, key), if any sounds.
    fn find_voice(&self, track: usize, key: u32) -> (r: Option<usize>)
        ensures
            match r {
                Option::Some(i) => i == spec_first_voice(self.voices@, track, key) && (i as int)
                    < self.voices@.len(),
                Option::None => spec_first_voice(self.voices@, track, key)
                    == self.voices@.len(),
            },
    {
        let mut i: usize = 0;
        while i < self.voices.len()
            invariant
                i <= self.voices@.len(),
                forall|k: int|
                    0 <= k < i ==> !((#[trigger] self.voices@[k]).track == track
                        && self.voices@[k].key == key),
            decreases self.voices@.len() - i,
        {
            let v = &self.voices[i];
            if v.track == track && v.key == key {
                proof {
                    lemma_first_voice_at(self.voices@, track, key, i as int);
                }
                return Option::Some(i);
            }
            i = i + 1;
        }
        proof {
            lemma_first_voice_at(self.voices@, track, key, self.voices@.len() as int);
        }
        Option::None
    }

    /// Apply one command to the pool, in arrival order, exactly as the
    /// rendering tick drains them:
    /// - NoteOn creates a voice, or retriggers the first voice with the
    ///   same (track, key) in place — restarting its envelope without
    ///   resetting its oscillator phase. A track index with no ADSR, or
    ///   a frequency at or above the sample rate, makes it a no-op
    ///   rather than a fault.
    /// - NoteOff begins release on every live matching voice, capturing
    ///   each voice's current level; it never touches other voices.
    /// - AllNotesOff begins release on every live voice of every track.
    /// - Shutdown silences the pool at once: all voices are discarded,
    ///   and the return value tells the caller to stop this tick.
    #[verifier::loop_isolation(false)]
    pub fn apply_command(&mut self, cmd: LiveCommand) -> (shutdown: bool)
        requires
            old(self).wf(),
        ensures
            final(self).wf(),
            final(self).adsrs@ == old(self).adsrs@,
            final(self).sample_rate == old(self).sample_rate,
            shutdown == (cmd matches LiveCommand::Shutdown),
            cmd matches LiveCommand::Shutdown ==> final(self).voices@.len() == 0,
            cmd matches LiveCommand::NoteOn { track, key, freq } ==> final(self).voices@ == (if track
                as int >= old(self).adsrs@.len() || freq >= spec_modulus(old(self).sample_rate) {
                old(self).voices@
            } else if spec_first_voice(old(self).voices@, track, key) < old(
                self,
            ).voices@.len() as int {
                old(self).voices@.update(
                    spec_first_voice(old(self).voices@, track, key),
                    spec_retrigger(
                        old(self).voices@[spec_first_voice(old(self).voices@, track, key)],
                        freq,
                    ),
                )
            } else {
                old(self).voices@.push(spec_new_voice(track, key, freq))
            }),
            cmd matches LiveCommand::NoteOff { track, key } ==> final(self).voices@.len() == old(
                self,
            ).voices@.len() && forall|i: int|
                0 <= i < old(self).voices@.len() ==> final(self).voices@[i] == spec_release_match(
                    #[trigger] old(self).voices@[i],
                    track,
                    key,
                    old(self).adsrs@,
                ),
            cmd matches LiveCommand::AllNotesOff ==> final(self).voices@.len() == old(
                self,
            ).voices@.len() && forall|i: int|
                0 <= i < old(self).voices@.len() ==> final(self).voices@[i] == spec_release_any(
                    #[trigger] old(self).voices@[i],
                    old(self).adsrs@,
                ),
    {
        match cmd {
            LiveCommand::NoteOn { track, key, freq } => {
                if track >= self.adsrs.len() || freq >= (self.sample_rate as u64) * 1000000 {
                    return false;
                }
                match self.find_voice(track, key) {
                    Option::Some(i) => {
                        let mut v = self.voices[i];
                        proof {
                            assert(spec_voice_wf(
                                old(self).voices@[i as int],
                                old(self).adsrs@,
                                old(self).sample_rate,
                            ));
                        }
                        v.freq = freq;
                        v.env_stage = EnvStage::Attack;
                        v.env_elapsed = 0;
                        v.release_start_level = 0;
                        self.voices.set(i, v);
                    },
                    Option::None => {
                        self.voices.push(
                            Voice {
                                track,
                                key,
                                freq,
                                phase: 0,
                                env_stage: EnvStage::Attack,
                                env_elapsed: 0,
                                release_start_level: 0,
                            },
                        );
                    },
                }
                false
            },
            LiveCommand::NoteOff { track, key } => {
                let n = self.voices.len();
                let mut i: usize = 0;
                while i < n
                    invariant
                        i <= n,
                        n == self.voices@.len(),
                        self.voices@.len() == old(self).voices@.len(),
                        self.adsrs@ == old(self).adsrs@,
                        self.sample_rate == old(self).sample_rate,
                        old(self).wf(),
                        forall|k: int|
                            0 <= k < i ==> self.voices@[k] == spec_release_match(
                                #[trigger] old(self).voices@[k],
                                track,
                                key,
                                old(self).adsrs@,
                            ),
                        forall|k: int|
                            i <= k < n ==> self.voices@[k] == #[trigger] old(self).voices@[k],
                    decreases n - i,
                {
                    let v = self.voices[i];
                    proof {
                        assert(v == old(self).voices@[i as int]);
                        assert(spec_voice_wf(v, old(self).adsrs@, old(self).sample_rate));
                    }
                    if v.track == track && v.key == key && !matches!(v.env_stage, EnvStage::Idle) {
                        proof {
                            lemma_env_level_bounds(
                                v.env_stage,
                                v.env_elapsed as int,
                                v.release_start_level as int,
                                self.adsrs@[v.track as int],
                            );
                        }
                        let adsr = self.adsrs[v.track];
                        let level = envelope_level(
                            v.env_stage,
                            v.env_elapsed,
                            v.release_start_level,
                            &adsr,
                        );
                        let mut nv = v;
                        nv.release_start_level = level;
                        nv.env_stage = EnvStage::Release;
                        nv.env_elapsed = 0;
                        self.voices.set(i, nv);
                    }
                    i = i + 1;
                }
                proof {
                    assert forall|k: int|
                        0 <= k < self.voices@.len() implies spec_voice_wf(
                        self.voices@[k],
                        self.adsrs@,
                        self.sample_rate,
                    ) by {
                        assert(spec_voice_wf(
                            old(self).voices@[k],
                            old(self).adsrs@,
                            old(self).sample_rate,
                        ));
                        if old(self).voices@[k].track == track && old(self).voices@[k].key == key
                            && !(old(self).voices@[k].env_stage is Idle) {
                            lemma_released_wf(
                                old(self).voices@[k],
                                old(self).adsrs@,
                                old(self).sample_rate,
                            );
                        }
                    }
                }
                false
            },
            LiveCommand::AllNotesOff => {
                let n = self.voices.len();
                let mut i: usize = 0;
                while i < n
                    invariant
                        i <= n,
                        n == self.voices@.len(),
                        self.voices@.len() == old(self).voices@.len(),
                        self.adsrs@ == old(self).adsrs@,
                        self.sample_rate == old(self).sample_rate,
                        old(self).wf(),
                        forall|k: int|
                            0 <= k < i ==> self.voices@[k] == spec_release_any(
                                #[trigger] old(self).voices@[k],
                                old(self).adsrs@,
                            ),
                        forall|k: int|
                            i <= k < n ==> self.voices@[k] == #[trigger] old(self).voices@[k],
                    decreases n - i,
                {
                    let v = self.voices[i];
                    proof {
                        assert(v == old(self).voices@[i as int]);
                        assert(spec_voice_wf(v, old(self).adsrs@, old(self).sample_rate));
                    }
                    if !matches!(v.env_stage, EnvStage::Idle) {
                        proof {
                            lemma_env_level_bounds(
                                v.env_stage,
                                v.env_elapsed as int,
                                v.release_start_level as int,
                                self.adsrs@[v.track as int],
                            );
                        }
                        let adsr = self.adsrs[v.track];
                        let level = envelope_level(
                            v.env_stage,
                            v.env_elapsed,
                            v.release_start_level,
                            &adsr,
                        );
                        let mut nv = v;
                        nv.release_start_level = level;
                        nv.env_stage = EnvStage::Release;
                        nv.env_elapsed = 0;
                        self.voices.set(i, nv);
                    }
                    i = i + 1;
                }
                proof {
                    assert forall|k: int|
                        0 <= k < self.voices@.len() implies spec_voice_wf(
                        self.voices@[k],
                        self.adsrs@,
                        self.sample_rate,
                    ) by {
                        assert(spec_voice_wf(
                            old(self).voices@[k],
                            old(self).adsrs@,
                            old(self).sample_rate,
                        ));
                        if !(old(self).voices@[k].env_stage is Idle) {
                            lemma_released_wf(
                                old(self).voices@[k],
                                old(self).adsrs@,
                                old(self).sample_rate,
                            );
                        }
                    }
                }
                false
            },
            LiveCommand::Shutdown => {
                self.voices = Vec::new();
                true
            },
        }
    }
}

/// Retriggering never resets the oscillator: the phase after a NoteOn
/// on a live voice equals the phase immediately before it.
pub proof fn lemma_retrigger_preserves_phase(v: Voice, freq: u64)
    ensures
        spec_retrigger(v, freq).phase == v.phase,
        spec_retrigger(v, freq).env_stage is Attack,
        spec_retrigger(v, freq).env_elapsed == 0,
{
}

/// AllNotesOff from Sustain releases at exactly the sustain level: the
/// captured release-start level is the ADSR's sustain level.
pub proof fn lemma_release_from_sustain(v: Voice, adsrs: Seq<Adsr>)
    requires
        v.env_stage is Sustain,
        0 <= v.track < adsrs.len(),
        adsrs[v.track as int].wf(),
    ensures
        spec_release_any(v, adsrs).env_stage is Release,
        spec_release_any(v, adsrs).release_start_level == adsrs[v.track as int].sustain,
        spec_release_any(v, adsrs).env_elapsed == 0,
{
}


/// One sample tick of a voice's envelope: stage-elapsed time advances
/// by one sample, and the stage transitions once its time is up —
/// Attack to Decay, Decay to Sustain, Release to Idle. Idle and
/// Sustain do not advance on their own.
pub open spec fn spec_env_step(v: Voice, a: Adsr) -> Voice {
    match v.env_stage {
        EnvStage::Idle => v,
        EnvStage::Attack => if v.env_elapsed + 1 >= a.attack {
            Voice { env_stage: EnvStage::Decay, env_elapsed: 0, ..v }
        } else {
            Voice { env_elapsed: (v.env_elapsed + 1) as u64, ..v }
        },
        EnvStage::Decay => if v.env_elapsed + 1 >= a.decay {
            Voice { env_stage: EnvStage::Sustain, env_elapsed: 0, ..v }
        } else {
            Voice { env_elapsed: (v.env_elapsed + 1) as u64, ..v }
        },
        EnvStage::Sustain => v,
        EnvStage::Release => if v.env_elapsed + 1 >= a.release {
            Voice { env_stage: EnvStage::Idle, env_elapsed: (v.env_elapsed + 1) as u64, ..v }
        } else {
            Voice { env_elapsed: (v.env_elapsed + 1) as u64, ..v }
        },
    }
}

/// A stepped voice's level for this sample.
pub open spec fn spec_step_level(v: Voice, a: Adsr) -> int {
    spec_env_level(
        spec_env_step(v, a).env_stage,
        spec_env_step(v, a).env_elapsed as int,
        spec_env_step(v, a).release_start_level as int,
        a,
    )
}

/// One full sample tick of a voice: the envelope advances, and while
/// the voice is audible its oscillator phase advances by its frequency,
/// wrapping at one whole turn.
pub open spec fn spec_voice_step(v: Voice, a: Adsr, modulus: int) -> Voice {
    let s = spec_env_step(v, a);
    if spec_step_level(v, a) > NOISE_FLOOR {
        Voice { phase: ((s.phase + s.freq) % modulus) as u64, ..s }
    } else {
        s
    }
}

/// The voices left in the pool after one sample: every voice stepped,
/// voices whose envelope reached Idle retired.
pub open spec fn spec_pool_step_voices(vs: Seq<Voice>, adsrs: Seq<Adsr>, modulus: int) -> Seq<
    Voice,
>
    decreases vs.len(),
{
    if vs.len() == 0 {
        Seq::empty()
    } else {
        let sv = spec_voice_step(vs[0], adsrs[vs[0].track as int], modulus);
        (if sv.env_stage is Idle {
            Seq::<Voice>::empty()
        } else {
            seq![sv]
        }) + spec_pool_step_voices(vs.drop_first(), adsrs, modulus)
    }
}

/// The audible contributions of one sample, in voice order: for every
/// voice whose stepped level is above the noise floor, its oscillator
/// phase before this sample's advance and its level.
pub open spec fn spec_pool_step_out(vs: Seq<Voice>, adsrs: Seq<Adsr>) -> Seq<(u64, u32)>
    decreases vs.len(),
{
    if vs.len() == 0 {
        Seq::empty()
    } else {
        let a = adsrs[vs[0].track as int];
        let s = spec_env_step(vs[0], a);
        (if spec_step_level(vs[0], a) > NOISE_FLOOR {
            seq![(s.phase, spec_step_level(vs[0], a) as u32)]
        } else {
            Seq::<(u64, u32)>::empty()
        }) + spec_pool_step_out(vs.drop_first(), adsrs)
    }
}

/// Walking one more voice appends its survivor, if it survives.
proof fn lemma_pool_step_voices_take_one_more(
    vs: Seq<Voice>,
    adsrs: Seq<Adsr>,
    modulus: int,
    k: int,
)
    requires
        0 <= k < vs.len(),
    ensures
        spec_pool_step_voices(vs.take(k + 1), adsrs, modulus) == spec_pool_step_voices(
            vs.take(k),
            adsrs,
            modulus,
        ) + (if spec_voice_step(vs[k], adsrs[vs[k].track as int], modulus).env_stage is Idle {
            Seq::<Voice>::empty()
        } else {
            seq![spec_voice_step(vs[k], adsrs[vs[k].track as int], modulus)]
        }),
    decreases k,
{
    let tail = if spec_voice_step(vs[k], adsrs[vs[k].track as int], modulus).env_stage is Idle {
        Seq::<Voice>::empty()
    } else {
        seq![spec_voice_step(vs[k], adsrs[vs[k].track as int], modulus)]
    };
    if k == 0 {
        assert(vs.take(1)[0] == vs[0]);
        assert(vs.take(1).drop_first() =~= Seq::<Voice>::empty());
        assert(vs.take(0) =~= Seq::<Voice>::empty());
        assert(spec_pool_step_voices(Seq::<Voice>::empty(), adsrs, modulus) == Seq::<
            Voice,
        >::empty());
        assert(spec_pool_step_voices(vs.take(1), adsrs, modulus) =~= tail);
        assert(spec_pool_step_voices(vs.take(0), adsrs, modulus) + tail =~= tail);
    } else {
        assert(vs.take(k + 1)[0] == vs[0]);
        assert(vs.take(k)[0] == vs[0]);
        assert(vs.take(k + 1).drop_first() =~= vs.drop_first().take(k));
        assert(vs.take(k).drop_first() =~= vs.drop_first().take(k - 1));
        assert(vs.drop_first()[k - 1] == vs[k]);
        lemma_pool_step_voices_take_one_more(vs.drop_first(), adsrs, modulus, k - 1);
        let head = if spec_voice_step(
            vs[0],
            adsrs[vs[0].track as int],
            modulus,
        ).env_stage is Idle {
            Seq::<Voice>::empty()
        } else {
            seq![spec_voice_step(vs[0], adsrs[vs[0].track as int], modulus)]
        };
        let mid = spec_pool_step_voices(vs.drop_first().take(k - 1), adsrs, modulus);
        assert(head + (mid + tail) =~= (head + mid) + tail);
    }
}

/// Walking one more voice appends its contribution, if audible.
proof fn lemma_pool_step_out_take_one_more(vs: Seq<Voice>, adsrs: Seq<Adsr>, k: int)
    requires
        0 <= k < vs.len(),
    ensures
        spec_pool_step_out(vs.take(k + 1), adsrs) == spec_pool_step_out(vs.take(k), adsrs) + (
        if spec_step_level(vs[k], adsrs[vs[k].track as int]) > NOISE_FLOOR {
            seq![
                (
                    spec_env_step(vs[k], adsrs[vs[k].track as int]).phase,
                    spec_step_level(vs[k], adsrs[vs[k].track as int]) as u32,
                ),
            ]
        } else {
            Seq::<(u64, u32)>::empty()
        }),
    decreases k,
{
    let tail = if spec_step_level(vs[k], adsrs[vs[k].track as int]) > NOISE_FLOOR {
        seq![
            (
                spec_env_step(vs[k], adsrs[vs[k].track as int]).phase,
                spec_step_level(vs[k], adsrs[vs[k].track as int]) as u32,
            ),
        ]
    } else {
        Seq::<(u64, u32)>::empty()
    };
    if k == 0 {
        assert(vs.take(1)[0] == vs[0]);
        assert(vs.take(1).drop_first() =~= Seq::<Voice>::empty());
        assert(vs.take(0) =~= Seq::<Voice>::empty());
        assert(spec_pool_step_out(Seq::<Voice>::empty(), adsrs) == Seq::<(u64, u32)>::empty());
        assert(spec_pool_step_out(vs.take(1), adsrs) =~= tail);
        assert(spec_pool_step_out(vs.take(0), adsrs) + tail =~= tail);
    } else {
        assert(vs.take(k + 1)[0] == vs[0]);
        assert(vs.take(k)[0] == vs[0]);
        assert(vs.take(k + 1).drop_first() =~= vs.drop_first().take(k));
        assert(vs.take(k).drop_first() =~= vs.drop_first().take(k - 1));
        assert(vs.drop_first()[k - 1] == vs[k]);
        lemma_pool_step_out_take_one_more(vs.drop_first(), adsrs, k - 1);
        let a0 = adsrs[vs[0].track as int];
        let head = if spec_step_level(vs[0], a0) > NOISE_FLOOR {
            seq![(spec_env_step(vs[0], a0).phase, spec_step_level(vs[0], a0) as u32)]
        } else {
            Seq::<(u64, u32)>::empty()
        };
        let mid = spec_pool_step_out(vs.drop_first().take(k - 1), adsrs);
        assert(head + (mid + tail) =~= (head + mid) + tail);
    }
}

/// A stepped voice is still one the pool can hold.
proof fn lemma_voice_step_wf(v: Voice, adsrs: Seq<Adsr>, sample_rate: u32)
    requires
        spec_voice_wf(v, adsrs, sample_rate),
        adsrs[v.track as int].wf(),
        0 < sample_rate <= MAX_SAMPLE_RATE,
    ensures
        spec_voice_wf(spec_voice_step(v, adsrs[v.track as int], spec_modulus(sample_rate)), adsrs, sample_rate),
{
    let m = spec_modulus(sample_rate);
    let s = spec_env_step(v, adsrs[v.track as int]);
    if spec_step_level(v, adsrs[v.track as int]) > NOISE_FLOOR {
        vstd::arithmetic::div_mod::lemma_mod_bound(s.phase + s.freq, m);
    }
}

impl VoicePool {
    /// One sample of the rendering tick: advance every voice's envelope
    /// by one sample and, while audible, its oscillator phase; hand
    /// back each audible voice's (pre-advance phase, level) pair in
    /// voice order for the caller to mix; and retire every voice whose
    /// envelope reached Idle.
    #[verifier::loop_isolation(false)]
    pub fn advance_sample(&mut self) -> (out: Vec<(u64, u32)>)
        requires
            old(self).wf(),
        ensures
            final(self).wf(),
            final(self).adsrs@ == old(self).adsrs@,
            final(self).sample_rate == old(self).sample_rate,
            final(self).voices@ == spec_pool_step_voices(
                old(self).voices@,
                old(self).adsrs@,
                spec_modulus(old(self).sample_rate),
            ),
            out@ == spec_pool_step_out(old(self).voices@, old(self).adsrs@),
    {
        let ghost m: int = spec_modulus(self.sample_rate);
        let modulus: u64 = (self.sample_rate as u64) * 1000000;
        let n = self.voices.len();
        let mut survivors: Vec<Voice> = Vec::new();
        let mut out: Vec<(u64, u32)> = Vec::new();
        let mut i: usize = 0;
        proof {
            assert(self.voices@.take(0) =~= Seq::<Voice>::empty());
            assert(spec_pool_step_voices(Seq::<Voice>::empty(), self.adsrs@, m) == Seq::<
                Voice,
            >::empty());
            assert(spec_pool_step_out(Seq::<Voice>::empty(), self.adsrs@) == Seq::<
                (u64, u32),
            >::empty());
        }
        while i < n
            invariant
                i <= n,
                survivors@ == spec_pool_step_voices(self.voices@.take(i as int), self.adsrs@, m),
                out@ == spec_pool_step_out(self.voices@.take(i as int), self.adsrs@),
                forall|k: int|
                    0 <= k < survivors@.len() ==> spec_voice_wf(
                        #[trigger] survivors@[k],
                        self.adsrs@,
                        self.sample_rate,
                    ),
            decreases n - i,
        {
            let v: Voice = self.voices[i];
            proof {
                assert(spec_voice_wf(v, self.adsrs@, self.sample_rate));
                lemma_voice_step_wf(v, self.adsrs@, self.sample_rate);
                lemma_pool_step_voices_take_one_more(self.voices@, self.adsrs@, m, i as int);
                lemma_pool_step_out_take_one_more(self.voices@, self.adsrs@, i as int);
            }
            let a: Adsr = self.adsrs[v.track];
            let mut sv = v;
            match v.env_stage {
                EnvStage::Idle => {},
                EnvStage::Attack => {
                    let e = v.env_elapsed + 1;
                    if e >= a.attack {
                        sv.env_stage = EnvStage::Decay;
                        sv.env_elapsed = 0;
                    } else {
                        sv.env_elapsed = e;
                    }
                },
                EnvStage::Decay => {
                    let e = v.env_elapsed + 1;
                    if e >= a.decay {
                        sv.env_stage = EnvStage::Sustain;
                        sv.env_elapsed = 0;
                    } else {
                        sv.env_elapsed = e;
                    }
                },
                EnvStage::Sustain => {},
                EnvStage::Release => {
                    let e = v.env_elapsed + 1;
                    if e >= a.release {
                        sv.env_stage = EnvStage::Idle;
                        sv.env_elapsed = e;
                    } else {
                        sv.env_elapsed = e;
                    }
                },
            }
            proof {
                assert(sv == spec_env_step(v, a));
            }
            let level = envelope_level(sv.env_stage, sv.env_elapsed, sv.release_start_level, &a);
            if level > NOISE_FLOOR {
                out.push((sv.phase, level));
                let sum = sv.phase + sv.freq;
                let ph = if sum >= modulus {
                    sum - modulus
                } else {
                    sum
                };
                proof {
                    if sum >= modulus {
                        lemma_fundamental_div_mod_converse(sum as int, m, 1, sum - m);
                    } else {
                        lemma_small_mod(sum as nat, m as nat);
                    }
                }
                sv.phase = ph;
            }
            if !matches!(sv.env_stage, EnvStage::Idle) {
                survivors.push(sv);
            }
            i = i + 1;
        }
        proof {
            assert(self.voices@.take(n as int) =~= self.voices@);
        }
        self.voices = survivors;
        out
    }
}


/// A voice's envelope after `n` further sample ticks.
pub open spec fn spec_env_step_n(v: Voice, a: Adsr, n: nat) -> Voice
    decreases n,
{
    if n == 0 {
        v
    } else {
        spec_env_step(spec_env_step_n(v, a, (n - 1) as nat), a)
    }
}

/// A releasing voice reaches Idle after exactly the remaining release
/// time: while fewer samples have passed it is still releasing, with
/// its stage clock advanced by each sample, and from the sample that
/// completes the release time onward it is Idle.
pub proof fn lemma_release_reaches_idle(v: Voice, a: Adsr, n: nat)
    requires
        v.env_stage is Release,
        a.wf(),
        v.env_elapsed <= a.release,
    ensures
        n < a.release - v.env_elapsed ==> spec_env_step_n(v, a, n).env_stage is Release
            && spec_env_step_n(v, a, n).env_elapsed == v.env_elapsed + n,
        n >= 1 && n >= a.release - v.env_elapsed ==> spec_env_step_n(v, a, n).env_stage is Idle,
    decreases n,
{
    if n > 0 {
        lemma_release_reaches_idle(v, a, (n - 1) as nat);
        let prev = spec_env_step_n(v, a, (n - 1) as nat);
        if (n - 1) < a.release - v.env_elapsed {
            // still releasing before this tick; this tick either keeps
            // releasing or completes the release
            assert(prev.env_stage is Release);
        } else if n >= 2 {
            // already idle, and Idle is absorbing
            assert(prev.env_stage is Idle);
            assert(spec_env_step(prev, a) == prev);
        } else {
            // first tick of a voice whose stage clock already reached
            // the release time: it goes idle now
            assert(prev == v);
        }
    }
}

} // verus!
