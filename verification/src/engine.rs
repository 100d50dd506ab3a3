//! Integer bookkeeping of the playback engine: grain geometry of the
//! pitch-preserving stretcher, loop bounds, channel routing and the pending
//! output queue.

use vstd::prelude::*;
use crate::playback::AudioChannelMode;

verus! {

/// Sizes, in frames, used by the pitch-preserving time stretcher.
#[derive(Debug, Clone, Copy, PartialEq, Eq, Structural)]
pub struct StretchGeometry {
    /// Length of one grain.
    pub grain_size_frames: usize,
    /// Overlap between consecutive grains.
    pub overlap_frames: usize,
    /// Output hop between grains.
    pub synthesis_hop_frames: usize,
    /// Candidate search radius for waveform alignment.
    pub search_radius_frames: usize,
}

/// The grain length for a sample rate: 40 ms worth of frames, kept within
/// 1024..=4096 and rounded down to a multiple of 64.
pub open spec fn spec_grain_size(sample_rate: int) -> int {
    let raw = sample_rate * 40 / 1000;
    let clamped = if raw < 1024 {
        1024
    } else if raw > 4096 {
        4096
    } else {
        raw
    };
    clamped / 64 * 64
}

impl StretchGeometry {
    /// The geometry for a sample rate: grains of `spec_grain_size`, a quarter
    /// of a grain (at least 128 frames) of overlap, the rest of the grain as
    /// hop, and half the overlap (at least 64 frames) as search radius.
    pub fn for_sample_rate(sample_rate: u32) -> (g: StretchGeometry)
        ensures
            g.grain_size_frames == spec_grain_size(sample_rate as int),
            g.overlap_frames == (if g.grain_size_frames / 4 < 128 {
                128
            } else {
                g.grain_size_frames / 4
            }),
            g.synthesis_hop_frames == g.grain_size_frames - g.overlap_frames,
            g.search_radius_frames == (if g.overlap_frames / 2 < 64 {
                64
            } else {
                g.overlap_frames / 2
            }),
    {
        let raw: u64 = (sample_rate as u64) * 40 / 1000;
        let clamped: u64 = if raw < 1024 {
            1024
        } else if raw > 4096 {
            4096
        } else {
            raw
        };
        let grain = (clamped / 64 * 64) as usize;
        let quarter = grain / 4;
        let overlap = if quarter < 128 {
            128
        } else {
            quarter
        };
        let hop = grain - overlap;
        let half = overlap / 2;
        let radius = if half < 64 {
            64
        } else {
            half
        };
        StretchGeometry {
            grain_size_frames: grain,
            overlap_frames: overlap,
            synthesis_hop_frames: hop,
            search_radius_frames: radius,
        }
    }
}

/// Every sample rate gives grains of 1024 to 4096 frames in steps of 64,
/// overlapping by exactly a quarter grain, with hop and overlap making up the
/// grain and a non-empty hop.
pub proof fn law_stretch_geometry(sample_rate: u32)
    ensures
        ({
            let grain = spec_grain_size(sample_rate as int);
            &&& 1024 <= grain <= 4096
            &&& grain % 64 == 0
            &&& grain / 4 >= 128
            &&& grain - grain / 4 > 0
            &&& grain / 4 / 2 >= 64
        }),
{
}

/// A grain lasts 40 ms at the sample rate, rounded down to a multiple of 64
/// frames, whenever that lies between 1024 and 4096 frames; shorter grains
/// are raised to 1024 frames and longer ones cut to 4096.
pub proof fn law_grain_is_forty_ms(sample_rate: u32)
    ensures
        ({
            let raw = sample_rate * 40 / 1000;
            let grain = spec_grain_size(sample_rate as int);
            &&& 1024 <= raw <= 4096 ==> raw - 64 < grain <= raw && grain % 64 == 0
            &&& raw < 1024 ==> grain == 1024
            &&& raw > 4096 ==> grain == 4096
        }),
{
}

/// Loop playback settings of the engine, in frames.
#[derive(Debug, Clone, Copy, PartialEq, Eq, Structural)]
pub struct LoopSettings {
    /// Whether loop playback is switched on.
    pub enabled: bool,
    /// Loop start.
    pub start_frame: Option<usize>,
    /// Loop end.
    pub end_frame: Option<usize>,
}

/// Settings with looping switched off and no bounds.
pub open spec fn no_loop() -> LoopSettings {
    LoopSettings { enabled: false, start_frame: None, end_frame: None }
}

pub open spec fn min_usize(a: usize, b: usize) -> usize {
    if a < b {
        a
    } else {
        b
    }
}

/// The settings after asking for a loop from `start` to `end` in a source of
/// `total_frames` frames: an ordered pair of bounds, each capped at the end of
/// the source, switches looping on; anything else switches it off.
pub open spec fn spec_set_loop(start: Option<usize>, end: Option<usize>, total_frames: usize) -> LoopSettings {
    match (start, end) {
        (Some(s), Some(e)) => if s < e {
            LoopSettings {
                enabled: true,
                start_frame: Some(min_usize(s, total_frames)),
                end_frame: Some(min_usize(e, total_frames)),
            }
        } else {
            no_loop()
        },
        _ => no_loop(),
    }
}

/// The bounds loop playback uses: both bounds, when looping is on and they
/// form a non-empty range.
pub open spec fn spec_loop_bounds(l: LoopSettings) -> Option<(usize, usize)> {
    match (l.start_frame, l.end_frame) {
        (Some(s), Some(e)) => if l.enabled && s < e {
            Some((s, e))
        } else {
            None
        },
        _ => None,
    }
}

impl LoopSettings {
    /// Looping switched off, without bounds.
    pub fn new() -> (l: LoopSettings)
        ensures
            l == no_loop(),
    {
        LoopSettings { enabled: false, start_frame: None, end_frame: None }
    }

    /// Asks for a loop from `start` to `end` in a source of `total_frames` frames.
    pub fn set_loop(&mut self, start: Option<usize>, end: Option<usize>, total_frames: usize)
        ensures
            *final(self) == spec_set_loop(start, end, total_frames),
    {
        match (start, end) {
            (Some(s), Some(e)) => {
                if s < e {
                    self.start_frame = Some(if s < total_frames {
                        s
                    } else {
                        total_frames
                    });
                    self.end_frame = Some(if e < total_frames {
                        e
                    } else {
                        total_frames
                    });
                    self.enabled = true;
                } else {
                    self.clear();
                }
            },
            _ => {
                self.clear();
            },
        }
    }

    /// Switches looping off and forgets the bounds.
    pub fn clear(&mut self)
        ensures
            *final(self) == no_loop(),
    {
        self.enabled = false;
        self.start_frame = None;
        self.end_frame = None;
    }

    /// Whether loop playback is switched on.
    pub fn loop_enabled(&self) -> (b: bool)
        ensures
            b == self.enabled,
    {
        self.enabled
    }

    /// The bounds loop playback uses, if any.
    pub fn bounds(&self) -> (r: Option<(usize, usize)>)
        ensures
            r == spec_loop_bounds(*self),
    {
        match (self.start_frame, self.end_frame) {
            (Some(s), Some(e)) => {
                if self.enabled && s < e {
                    Some((s, e))
                } else {
                    None
                }
            },
            _ => None,
        }
    }
}

/// A loop asked for inside the source is used exactly as asked; one asked for
/// with its bounds out of order leaves no loop; and whatever is asked for, the
/// bounds used lie inside the source.
pub proof fn law_set_loop_then_bounds(start: usize, end: usize, total_frames: usize)
    ensures
        spec_loop_bounds(spec_set_loop(Some(start), Some(end), total_frames)) matches Some((a, b))
            ==> a < b <= total_frames,
        start < end <= total_frames ==> spec_loop_bounds(
            spec_set_loop(Some(start), Some(end), total_frames),
        ) == Some((start, end)),
        end <= start ==> spec_loop_bounds(spec_set_loop(Some(start), Some(end), total_frames))
            is None,
        spec_loop_bounds(no_loop()) is None,
{
}

/// The source channel that feeds an output channel: mono sources feed every
/// output; `Stereo` keeps the layout (extra outputs repeat the last source
/// channel), `Left` feeds channel 0 everywhere and `Right` channel 1.
pub open spec fn spec_source_channel(channels: int, mode: AudioChannelMode, output_channel: int) -> int {
    if channels <= 1 {
        0
    } else {
        match mode {
            AudioChannelMode::Stereo => if output_channel < channels - 1 {
                output_channel
            } else {
                channels - 1
            },
            AudioChannelMode::Left => 0,
            AudioChannelMode::Right => 1,
        }
    }
}

/// Channel routing: a mono (or empty) source feeds every output from channel
/// 0; otherwise `Left` feeds every output from channel 0 and `Right` from
/// channel 1, whatever the number of source channels, and `Stereo` feeds each
/// output from the source channel of the same number, the outputs beyond the
/// source repeating its last channel.
pub proof fn law_channel_routing(channels: int, mode: AudioChannelMode, output_channel: int)
    requires
        channels >= 0,
        output_channel >= 0,
    ensures
        channels <= 1 ==> spec_source_channel(channels, mode, output_channel) == 0,
        channels >= 2 && mode is Left ==> spec_source_channel(channels, mode, output_channel) == 0,
        channels >= 2 && mode is Right ==> spec_source_channel(channels, mode, output_channel) == 1,
        channels >= 2 && mode is Stereo && output_channel < channels ==> spec_source_channel(
            channels,
            mode,
            output_channel,
        ) == output_channel,
        channels >= 2 && mode is Stereo && output_channel >= channels ==> spec_source_channel(
            channels,
            mode,
            output_channel,
        ) == channels - 1,
        0 <= spec_source_channel(channels, mode, output_channel) < (if channels < 1 {
            1
        } else {
            channels
        }),
{
}

/// The source channel that feeds an output channel.
pub fn source_channel_for_output(channels: u16, mode: AudioChannelMode, output_channel: usize) -> (r:
    usize)
    ensures
        r as int == spec_source_channel(channels as int, mode, output_channel as int),
        channels >= 1 ==> r < channels,
        channels <= 1 ==> r == 0,
        channels >= 2 && mode is Left ==> r == 0,
        channels >= 2 && mode is Right ==> r == 1,
        channels >= 2 && mode is Stereo && output_channel < channels ==> r == output_channel,
        channels >= 2 && mode is Stereo && output_channel >= channels ==> r == channels - 1,
{
    let channels = channels as usize;
    if channels <= 1 {
        return 0;
    }
    match mode {
        AudioChannelMode::Stereo => if output_channel < channels - 1 {
            output_channel
        } else {
            channels - 1
        },
        AudioChannelMode::Left => 0,
        AudioChannelMode::Right => 1,
    }
}

/// Number of whole frames in an interleaved buffer.
pub fn frame_count(total_samples: usize, channels: u16) -> (r: usize)
    requires
        channels > 0,
    ensures
        r == total_samples / (channels as usize),
{
    total_samples / channels as usize
}

/// Samples that one read of the playback buffer writes: as many whole frames
/// of `channels` samples as fit in both the requested count and the output,
/// and none when the source holds no samples.
pub open spec fn spec_samples_to_render(total_samples: int, count: int, output_len: int, channels: int) -> int {
    if total_samples == 0 {
        0
    } else {
        let most = if count < output_len {
            count
        } else {
            output_len
        };
        most / channels * channels
    }
}

/// The number of samples one read of the playback buffer writes.
pub fn samples_to_render(total_samples: usize, count: usize, output_len: usize, channels: usize) -> (r:
    usize)
    requires
        channels > 0,
    ensures
        r as int == spec_samples_to_render(
            total_samples as int,
            count as int,
            output_len as int,
            channels as int,
        ),
        r <= count,
        r <= output_len,
        r % channels == 0,
{
    if total_samples == 0 {
        return 0;
    }
    let most = if count < output_len {
        count
    } else {
        output_len
    };
    let frames = most / channels;
    proof {
        assert(frames * channels <= most) by (nonlinear_arith)
            requires
                frames == most / channels,
                channels > 0,
                most >= 0,
        ;
        assert((frames * channels) % (channels as int) == 0) by (nonlinear_arith)
            requires
                channels > 0,
                frames >= 0,
        ;
    }
    frames * channels
}

/// Samples of the pending output queue not yet handed out.
pub fn pending_samples(pending_len: usize, pending_start: usize) -> (r: usize)
    ensures
        r == (if pending_start < pending_len {
            pending_len - pending_start
        } else {
            0
        }),
{
    pending_len.saturating_sub(pending_start)
}

/// What to do with the pending output queue once output has been handed out.
#[derive(Debug, Clone, Copy, PartialEq, Eq, Structural)]
pub enum PendingCompaction {
    /// Leave the queue as it is.
    Keep,
    /// Everything was handed out: empty the queue.
    Clear,
    /// Drop the handed-out prefix.
    DropConsumed,
}

/// The compaction rule: nothing to do before any output was handed out; empty
/// the queue once all of it was; drop the handed-out prefix once it is longer
/// than 16384 samples and at least half the queue.
pub open spec fn spec_compaction(pending_start: int, pending_len: int) -> PendingCompaction {
    if pending_start == 0 {
        PendingCompaction::Keep
    } else if pending_start >= pending_len {
        PendingCompaction::Clear
    } else if pending_start > 16384 && pending_start * 2 >= pending_len {
        PendingCompaction::DropConsumed
    } else {
        PendingCompaction::Keep
    }
}

/// Decides how to compact the pending output queue.
pub fn compaction_plan(pending_start: usize, pending_len: usize) -> (r: PendingCompaction)
    ensures
        r == spec_compaction(pending_start as int, pending_len as int),
{
    if pending_start == 0 {
        PendingCompaction::Keep
    } else if pending_start >= pending_len {
        PendingCompaction::Clear
    } else if pending_start > 16384 && pending_start >= pending_len - pending_start {
        PendingCompaction::DropConsumed
    } else {
        PendingCompaction::Keep
    }
}

} // verus!
