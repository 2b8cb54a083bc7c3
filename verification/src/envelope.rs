//! The ADSR envelope state machine. A voice's level runs Idle → Attack
//! → Decay → Sustain → Release → Idle; every stage's level is a linear
//! ramp, computed from the time elapsed in the stage and the envelope
//! parameters alone.
//!
//! Levels are integers in parts per million of full scale (so 1000000
//! is full level). Stage times are in whichever time unit the caller
//! advances elapsed time in: the voice pool counts whole samples, the
//! defaults below are in microseconds.

use vstd::prelude::*;

verus! {

use vstd::arithmetic::div_mod::lemma_div_is_ordered;
use vstd::arithmetic::div_mod::lemma_div_pos_is_pos;
use vstd::arithmetic::div_mod::lemma_multiply_divide_le;
use vstd::arithmetic::mul::lemma_mul_inequality;

/// Full envelope level, in parts per million.
pub const LEVEL_ONE: u32 = 1000000;

/// Longest stage time the envelope takes, in time units. A bound this
/// size keeps every level computation inside 64 bits, and is far above
/// any musical use (at the highest sample rate it is over a day).
pub const MAX_STAGE_TIME: u64 = 1000000000000;

/// Envelope stage for one voice
#[derive(Debug, Clone, Copy, PartialEq, Eq, Structural)]
pub enum EnvStage {
    Idle,
    Attack,
    Decay,
    Sustain,
    Release,
}

/// ADSR envelope parameters: attack, decay and release times in the
/// caller's time unit, sustain as a level in parts per million.
#[derive(Debug, Clone, Copy, PartialEq, Eq, Structural)]
pub struct Adsr {
    /// Time to rise from 0 to peak
    pub attack: u64,
    /// Time to fall from peak to sustain level
    pub decay: u64,
    /// Level held while the key is down (0..=LEVEL_ONE)
    pub sustain: u32,
    /// Time to fall to zero after key release
    pub release: u64,
}

impl Adsr {
    /// A well-formed envelope: the sustain level is a true level and
    /// every stage time is within the bound the arithmetic needs.
    pub open spec fn wf(self) -> bool {
        &&& self.attack <= MAX_STAGE_TIME
        &&& self.decay <= MAX_STAGE_TIME
        &&& self.release <= MAX_STAGE_TIME
        &&& self.sustain <= LEVEL_ONE
    }

    /// Run-time check of well-formedness, for callers outside the proof.
    pub fn is_wf(&self) -> (r: bool)
        ensures
            r == self.wf(),
    {
        self.attack <= MAX_STAGE_TIME && self.decay <= MAX_STAGE_TIME && self.release
            <= MAX_STAGE_TIME && self.sustain <= LEVEL_ONE
    }
}

impl Default for Adsr {
    /// The stock instrument: 10 ms attack, 100 ms decay, sustain at
    /// 0.7 of full level, 250 ms release (times in microseconds).
    fn default() -> (a: Adsr)
        ensures
            a == (Adsr { attack: 10000u64, decay: 100000u64, sustain: 700000u32, release: 250000u64 }),
            a.wf(),
    {
        Adsr { attack: 10000, decay: 100000, sustain: 700000, release: 250000 }
    }
}

/// The envelope level of a voice: from the stage, the time elapsed in
/// that stage, the level captured when release began, and the ADSR
/// parameters. All ramps are linear:
/// - Attack rises from 0 to full over the attack time (full at once if
///   the attack time is zero);
/// - Decay falls from full to the sustain level over the decay time;
/// - Sustain holds its level until an explicit release;
/// - Release falls from the captured release-start level to 0 over the
///   release time (0 at once if the release time is zero);
/// - Idle is silent.
pub open spec fn spec_env_level(stage: EnvStage, elapsed: int, release_start: int, a: Adsr) -> int {
    match stage {
        EnvStage::Idle => 0,
        EnvStage::Attack => if elapsed >= a.attack {
            LEVEL_ONE as int
        } else {
            elapsed * LEVEL_ONE / a.attack as int
        },
        EnvStage::Decay => if elapsed >= a.decay {
            a.sustain as int
        } else {
            LEVEL_ONE - elapsed * (LEVEL_ONE - a.sustain) / a.decay as int
        },
        EnvStage::Sustain => a.sustain as int,
        EnvStage::Release => if elapsed >= a.release {
            0
        } else {
            release_start * (a.release - elapsed) / a.release as int
        },
    }
}

/// The envelope level is a true level: between silence and full scale.
pub proof fn lemma_env_level_bounds(stage: EnvStage, elapsed: int, release_start: int, a: Adsr)
    requires
        a.wf(),
        0 <= elapsed,
        0 <= release_start <= LEVEL_ONE,
    ensures
        0 <= spec_env_level(stage, elapsed, release_start, a) <= LEVEL_ONE,
{
    match stage {
        EnvStage::Idle => {},
        EnvStage::Attack => {
            if elapsed < a.attack {
                lemma_div_pos_is_pos(elapsed * LEVEL_ONE, a.attack as int);
                lemma_mul_inequality(elapsed, a.attack as int, LEVEL_ONE as int);
                lemma_multiply_divide_le(
                    elapsed * LEVEL_ONE,
                    a.attack as int,
                    LEVEL_ONE as int,
                );
            }
        },
        EnvStage::Decay => {
            if elapsed < a.decay {
                let drop = LEVEL_ONE - a.sustain;
                lemma_div_pos_is_pos(elapsed * drop, a.decay as int);
                lemma_mul_inequality(elapsed, a.decay as int, drop);
                lemma_multiply_divide_le(elapsed * drop, a.decay as int, drop);
            }
        },
        EnvStage::Sustain => {},
        EnvStage::Release => {
            if elapsed < a.release {
                lemma_div_pos_is_pos(release_start * (a.release - elapsed), a.release as int);
                lemma_mul_inequality(a.release - elapsed, a.release as int, release_start);
                lemma_multiply_divide_le(
                    release_start * (a.release - elapsed),
                    a.release as int,
                    release_start,
                );
            }
        },
    }
}

/// Compute current envelope level from voice state and ADSR params.
pub fn envelope_level(stage: EnvStage, elapsed: u64, release_start: u32, adsr: &Adsr) -> (level:
    u32)
    requires
        adsr.wf(),
        release_start <= LEVEL_ONE,
    ensures
        level == spec_env_level(stage, elapsed as int, release_start as int, *adsr),
        level <= LEVEL_ONE,
{
    proof {
        lemma_env_level_bounds(stage, elapsed as int, release_start as int, *adsr);
    }
    match stage {
        EnvStage::Idle => 0,
        EnvStage::Attack => {
            if elapsed >= adsr.attack {
                LEVEL_ONE
            } else {
                proof {
                    assert(elapsed * (LEVEL_ONE as int) <= MAX_STAGE_TIME * (LEVEL_ONE as int))
                        by (nonlinear_arith)
                        requires
                            0 <= elapsed <= MAX_STAGE_TIME,
                    ;
                }
                (elapsed * (LEVEL_ONE as u64) / adsr.attack) as u32
            }
        },
        EnvStage::Decay => {
            if elapsed >= adsr.decay {
                adsr.sustain
            } else {
                let drop: u64 = (LEVEL_ONE - adsr.sustain) as u64;
                proof {
                    assert(elapsed * (drop as int) <= MAX_STAGE_TIME * (LEVEL_ONE as int))
                        by (nonlinear_arith)
                        requires
                            0 <= elapsed <= MAX_STAGE_TIME,
                            0 <= drop <= LEVEL_ONE,
                    ;
                    lemma_div_pos_is_pos(elapsed as int * drop, adsr.decay as int);
                    lemma_mul_inequality(elapsed as int, adsr.decay as int, drop as int);
                    lemma_multiply_divide_le(
                        elapsed as int * drop,
                        adsr.decay as int,
                        drop as int,
                    );
                }
                LEVEL_ONE - (elapsed * drop / adsr.decay) as u32
            }
        },
        EnvStage::Sustain => adsr.sustain,
        EnvStage::Release => {
            if elapsed >= adsr.release {
                0
            } else {
                proof {
                    assert((release_start as int) * (adsr.release - elapsed) <= (
                    LEVEL_ONE as int) * MAX_STAGE_TIME) by (nonlinear_arith)
                        requires
                            0 <= release_start <= LEVEL_ONE,
                            0 <= adsr.release - elapsed <= MAX_STAGE_TIME,
                    ;
                }
                ((release_start as u64) * (adsr.release - elapsed) / adsr.release) as u32
            }
        },
    }
}

/// During Attack with a positive attack time, the level never falls as
/// elapsed time grows.
pub proof fn lemma_attack_monotone(a: Adsr, release_start: int, e1: int, e2: int)
    requires
        a.wf(),
        a.attack > 0,
        0 <= e1 <= e2,
    ensures
        spec_env_level(EnvStage::Attack, e1, release_start, a) <= spec_env_level(
            EnvStage::Attack,
            e2,
            release_start,
            a,
        ),
{
    lemma_env_level_bounds(EnvStage::Attack, e1, 0, a);
    lemma_env_level_bounds(EnvStage::Attack, e2, 0, a);
    if e2 < a.attack {
        lemma_mul_inequality(e1, e2, LEVEL_ONE as int);
        lemma_div_is_ordered(e1 * LEVEL_ONE, e2 * LEVEL_ONE, a.attack as int);
    }
}

/// During Release with a positive release time, the level never rises
/// as elapsed time grows.
pub proof fn lemma_release_monotone(a: Adsr, release_start: int, e1: int, e2: int)
    requires
        a.wf(),
        a.release > 0,
        0 <= release_start <= LEVEL_ONE,
        0 <= e1 <= e2,
    ensures
        spec_env_level(EnvStage::Release, e1, release_start, a) >= spec_env_level(
            EnvStage::Release,
            e2,
            release_start,
            a,
        ),
{
    lemma_env_level_bounds(EnvStage::Release, e1, release_start, a);
    lemma_env_level_bounds(EnvStage::Release, e2, release_start, a);
    if e2 < a.release {
        lemma_mul_inequality(a.release - e2, a.release - e1, release_start);
        lemma_div_is_ordered(
            release_start * (a.release - e2),
            release_start * (a.release - e1),
            a.release as int,
        );
    }
}

} // verus!
