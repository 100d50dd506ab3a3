//! Scheduling of the one-shot reference tone: which note sounds, how far into
//! its one-second envelope it is, and when it ends.

use vstd::prelude::*;

verus! {

/// Lowest sample rate the tone is timed at.
pub const TONE_MIN_SAMPLE_RATE: u32 = 48_000;

/// Where the reference tone stands, counted in output frames.
#[derive(Debug, Clone, Copy, PartialEq, Eq, Structural)]
pub struct ToneSchedule {
    /// Output sample rate (at least 1 once set).
    pub sample_rate: u32,
    /// The note that was last triggered, until the tone ends.
    pub active_midi_note: Option<i32>,
    /// Frames of the tone rendered so far.
    pub sample_index: u64,
    /// Length of the tone in frames.
    pub total_samples: u64,
    /// Length of the attack in frames.
    pub attack_samples: u64,
}

/// The sample rate the tone is timed at.
pub open spec fn tone_rate(sample_rate: u32) -> int {
    if sample_rate < TONE_MIN_SAMPLE_RATE {
        TONE_MIN_SAMPLE_RATE as int
    } else {
        sample_rate as int
    }
}

/// Attack length for a tone timed at `rate` lasting `total` frames: 10 ms,
/// rounded to nearest, at least one frame and at most the tone.
pub open spec fn attack_length(rate: int, total: int) -> int {
    let raw = (rate + 50) / 100;
    let lo = if raw < 1 {
        1
    } else {
        raw
    };
    let cap = if total < 1 {
        1
    } else {
        total
    };
    if lo < cap {
        lo
    } else {
        cap
    }
}

/// The note currently sounding: the triggered note, while frames of it remain.
pub open spec fn spec_active_note(t: ToneSchedule) -> Option<i32> {
    if t.sample_index < t.total_samples {
        t.active_midi_note
    } else {
        None
    }
}

/// Frames the next block of `frame_count` frames renders of the tone.
pub open spec fn block_frames(t: ToneSchedule, frame_count: int) -> int {
    if frame_count == 0 || spec_active_note(t) is None {
        0
    } else if frame_count < t.total_samples - t.sample_index {
        frame_count
    } else {
        t.total_samples - t.sample_index
    }
}

/// The schedule after an output block of `frame_count` frames: the rendered
/// frames are counted, and a tone whose last frame was rendered ends.
pub open spec fn after_block(t: ToneSchedule, frame_count: int) -> ToneSchedule {
    let n = block_frames(t, frame_count);
    let index = t.sample_index + n;
    ToneSchedule {
        sample_index: index as u64,
        active_midi_note: if n > 0 && index >= t.total_samples {
            None
        } else {
            t.active_midi_note
        },
        ..t
    }
}

impl ToneSchedule {
    /// No tone, no sample rate set.
    pub fn new() -> (t: ToneSchedule)
        ensures
            t == (ToneSchedule {
                sample_rate: 0,
                active_midi_note: None,
                sample_index: 0,
                total_samples: 0,
                attack_samples: 0,
            }),
    {
        ToneSchedule {
            sample_rate: 0,
            active_midi_note: None,
            sample_index: 0,
            total_samples: 0,
            attack_samples: 0,
        }
    }

    /// Records the output sample rate (at least 1).
    pub fn set_output_sample_rate(&mut self, sample_rate: u32)
        ensures
            *final(self) == (ToneSchedule {
                sample_rate: if sample_rate < 1 {
                    1
                } else {
                    sample_rate
                },
                ..*old(self)
            }),
    {
        self.sample_rate = if sample_rate < 1 {
            1
        } else {
            sample_rate
        };
    }

    /// Starts the tone for a note from its beginning: one second of frames at
    /// the tone's sample rate, with a 10 ms attack.
    pub fn trigger(&mut self, midi_note: i32)
        ensures
            final(self).sample_rate == old(self).sample_rate,
            final(self).active_midi_note == Some(midi_note),
            final(self).sample_index == 0,
            final(self).total_samples == tone_rate(old(self).sample_rate),
            final(self).attack_samples == attack_length(
                tone_rate(old(self).sample_rate),
                tone_rate(old(self).sample_rate),
            ),
    {
        let rate: u64 = if self.sample_rate < TONE_MIN_SAMPLE_RATE {
            TONE_MIN_SAMPLE_RATE as u64
        } else {
            self.sample_rate as u64
        };
        let raw = (rate + 50) / 100;
        let lo = if raw < 1 {
            1
        } else {
            raw
        };
        let cap = if rate < 1 {
            1
        } else {
            rate
        };
        self.active_midi_note = Some(midi_note);
        self.sample_index = 0;
        self.total_samples = rate;
        self.attack_samples = if lo < cap {
            lo
        } else {
            cap
        };
    }

    /// The note currently sounding, if any.
    pub fn active_midi_note(&self) -> (r: Option<i32>)
        ensures
            r == spec_active_note(*self),
    {
        if self.sample_index < self.total_samples {
            self.active_midi_note
        } else {
            None
        }
    }

    /// Silences the tone and forgets its timing.
    pub fn clear(&mut self)
        ensures
            *final(self) == (ToneSchedule {
                active_midi_note: None,
                sample_index: 0,
                total_samples: 0,
                attack_samples: 0,
                ..*old(self)
            }),
    {
        self.active_midi_note = None;
        self.sample_index = 0;
        self.total_samples = 0;
        self.attack_samples = 0;
    }

    /// Accounts for one output block of `frame_count` frames. Returns the
    /// index, within the tone, of the first frame to render and how many
    /// frames of the block carry the tone; the tone ends once all its frames
    /// are rendered.
    pub fn render_block(&mut self, frame_count: u64) -> (r: (u64, u64))
        ensures
            r.0 == old(self).sample_index,
            r.1 == block_frames(*old(self), frame_count as int),
            *final(self) == after_block(*old(self), frame_count as int),
    {
        let start = self.sample_index;
        if frame_count == 0 || self.active_midi_note().is_none() {
            return (start, 0);
        }
        let remaining = self.total_samples - self.sample_index;
        let n = if frame_count < remaining {
            frame_count
        } else {
            remaining
        };
        self.sample_index = self.sample_index + n;
        if self.sample_index >= self.total_samples {
            self.active_midi_note = None;
        }
        (start, n)
    }
}

/// A triggered tone sounds its note, and it has ended once blocks covering
/// its whole length have been rendered.
pub proof fn law_tone_sounds_then_ends(t: ToneSchedule, note: i32, frame_count: int)
    requires
        t.sample_index == 0,
        t.active_midi_note == Some(note),
        t.total_samples > 0,
        frame_count >= t.total_samples,
    ensures
        spec_active_note(t) == Some(note),
        block_frames(t, frame_count) == t.total_samples,
        spec_active_note(after_block(t, frame_count)) is None,
{
}

/// Rendering never runs past the end of the tone: the frames rendered in a
/// block are at most those that remain, and the count of rendered frames
/// never exceeds the tone's length.
pub proof fn law_tone_block_within_tone(t: ToneSchedule, frame_count: int)
    requires
        frame_count >= 0,
        t.sample_index <= t.total_samples,
    ensures
        0 <= block_frames(t, frame_count) <= t.total_samples - t.sample_index,
        block_frames(t, frame_count) <= frame_count,
        after_block(t, frame_count).sample_index <= t.total_samples,
{
}


/// A tone lasts one second at its sample rate, which is the output rate but
/// never below 48 kHz, and its attack lasts 10 ms rounded to the nearest
/// frame (halves up).
pub proof fn law_tone_timing(sample_rate: u32)
    ensures
        tone_rate(sample_rate) >= 48_000,
        sample_rate >= 48_000 ==> tone_rate(sample_rate) == sample_rate,
        sample_rate < 48_000 ==> tone_rate(sample_rate) == 48_000,
        ({
            let rate = tone_rate(sample_rate);
            let attack = attack_length(rate, rate);
            &&& 100 * attack - 50 <= rate < 100 * attack + 50
        }),
{
}

} // verus!
