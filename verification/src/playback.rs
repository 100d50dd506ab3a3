//! Transport state and source-channel selection.

use vstd::prelude::*;

verus! {

/// Source-channel playback mode.
#[derive(Debug, Clone, Copy, PartialEq, Eq, Structural)]
pub enum AudioChannelMode {
    /// Preserve the original channel layout.
    Stereo,
    /// Play only the left channel on every output channel.
    Left,
    /// Play only the right channel on every output channel.
    Right,
}

impl Default for AudioChannelMode {
    /// Preserve the original channel layout.
    fn default() -> (m: AudioChannelMode)
        ensures
            m == AudioChannelMode::Stereo,
    {
        AudioChannelMode::Stereo
    }
}

/// Transport state of the player.
#[derive(Debug, Clone, Copy, PartialEq, Eq, Structural)]
pub enum PlaybackState {
    Stopped,
    Playing,
    Paused,
}

impl PlaybackState {
    /// Decode the numeric form stored in the shared transport flag.
    pub open spec fn spec_decode(v: u8) -> PlaybackState {
        if v == 1 {
            PlaybackState::Playing
        } else if v == 2 {
            PlaybackState::Paused
        } else {
            PlaybackState::Stopped
        }
    }

    /// Numeric form of the state, as stored in the shared transport flag.
    pub open spec fn spec_code(self) -> u8 {
        match self {
            PlaybackState::Stopped => 0,
            PlaybackState::Playing => 1,
            PlaybackState::Paused => 2,
        }
    }

    pub fn code(self) -> (r: u8)
        ensures
            r == self.spec_code(),
    {
        match self {
            PlaybackState::Stopped => 0,
            PlaybackState::Playing => 1,
            PlaybackState::Paused => 2,
        }
    }
}

impl From<u8> for PlaybackState {
    /// Decodes the shared transport flag: 1 is playing, 2 paused, anything
    /// else stopped.
    fn from(v: u8) -> (r: PlaybackState) {
        match v {
            1 => PlaybackState::Playing,
            2 => PlaybackState::Paused,
            _ => PlaybackState::Stopped,
        }
    }
}

impl vstd::std_specs::convert::FromSpecImpl<u8> for PlaybackState {
    open spec fn obeys_from_spec() -> bool {
        true
    }

    open spec fn from_spec(v: u8) -> PlaybackState {
        PlaybackState::spec_decode(v)
    }
}

/// Storing a state in the shared transport flag and reading it back gives
/// the same state.
pub proof fn law_state_code_round_trip(s: PlaybackState)
    ensures
        PlaybackState::spec_decode(s.spec_code()) == s,
{
}

} // verus!
