//! The beeper's schedule: a short tone every 0.7 s until the popup is
//! closed, for 60 s at most.

use vstd::prelude::*;

verus! {

/// How long the beeper may sound, in milliseconds.
pub const BEEP_LIMIT_MS: u64 = 60_000;

/// Time from one tone to the next, in milliseconds.
pub const BEEP_PERIOD_MS: u64 = 700;

/// How often the beeper looks at the stop flag while waiting, in milliseconds.
pub const POLL_MS: u64 = 100;

/// What the beeper does next.
#[derive(Debug, Clone, Copy, PartialEq, Eq)]
pub enum BeepAction {
    /// Play one tone.
    Tone,
    /// Sleep for [`POLL_MS`] and look again.
    Wait,
    /// Stop the sound and end.
    Finish,
}

/// The beeper's next step, given whether the popup was closed, the time
/// since the beeper started and, once a tone has played, the time since it.
pub open spec fn next_beep(stop_requested: bool, elapsed_ms: u64, since_tone_ms: Option<u64>) -> BeepAction {
    if stop_requested {
        BeepAction::Finish
    } else if since_tone_ms matches Some(w) && w < BEEP_PERIOD_MS {
        BeepAction::Wait
    } else if elapsed_ms < BEEP_LIMIT_MS {
        BeepAction::Tone
    } else {
        BeepAction::Finish
    }
}

/// The beeper's next step: it ends as soon as the popup is closed; between
/// tones it waits until [`BEEP_PERIOD_MS`] have passed; a new tone starts
/// only within the first [`BEEP_LIMIT_MS`].
pub fn beep_step(stop_requested: bool, elapsed_ms: u64, since_tone_ms: Option<u64>) -> (r: BeepAction)
    ensures
        r == next_beep(stop_requested, elapsed_ms, since_tone_ms),
{
    if stop_requested {
        return BeepAction::Finish;
    }
    match since_tone_ms {
        Some(w) => {
            if w < BEEP_PERIOD_MS {
                return BeepAction::Wait;
            }
        },
        None => {},
    }
    if elapsed_ms < BEEP_LIMIT_MS {
        BeepAction::Tone
    } else {
        BeepAction::Finish
    }
}


/// Law: once the popup is closed the beeper finishes, whatever the times; a
/// tone starts only before the popup is closed, within the first
/// [`BEEP_LIMIT_MS`] and at least [`BEEP_PERIOD_MS`] after the previous tone;
/// the beeper waits only while a tone is younger than [`BEEP_PERIOD_MS`];
/// and it finishes only when closed or past [`BEEP_LIMIT_MS`].
pub proof fn lemma_beep_schedule(stop_requested: bool, elapsed_ms: u64, since_tone_ms: Option<u64>)
    ensures
        stop_requested ==> next_beep(stop_requested, elapsed_ms, since_tone_ms) == BeepAction::Finish,
        next_beep(stop_requested, elapsed_ms, since_tone_ms) == BeepAction::Tone <==> {
            &&& !stop_requested
            &&& elapsed_ms < 60_000
            &&& (since_tone_ms matches Some(w) ==> w >= 700)
        },
        next_beep(stop_requested, elapsed_ms, since_tone_ms) == BeepAction::Wait <==> {
            &&& !stop_requested
            &&& since_tone_ms matches Some(w) && w < 700
        },
        next_beep(stop_requested, elapsed_ms, since_tone_ms) == BeepAction::Finish <==> {
            ||| stop_requested
            ||| (elapsed_ms >= 60_000 && !(since_tone_ms matches Some(w) && w < 700))
        },
{
}

} // verus!
