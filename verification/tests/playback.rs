use grepgrep::playback::{AudioChannelMode, PlaybackState};

#[test]
fn playback_state_codes_round_trip() {
    for state in [PlaybackState::Stopped, PlaybackState::Playing, PlaybackState::Paused] {
        assert_eq!(PlaybackState::from(state.code()), state);
    }
    assert_eq!(PlaybackState::from(1u8), PlaybackState::Playing);
    assert_eq!(PlaybackState::from(2u8), PlaybackState::Paused);
    assert_eq!(PlaybackState::from(7u8), PlaybackState::Stopped);
}

#[test]
fn default_channel_mode_is_stereo() {
    assert_eq!(AudioChannelMode::default(), AudioChannelMode::Stereo);
}
