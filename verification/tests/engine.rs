use grepgrep::engine::{
    compaction_plan, frame_count, pending_samples, samples_to_render, source_channel_for_output,
    LoopSettings,
    PendingCompaction, StretchGeometry,
};
use grepgrep::playback::AudioChannelMode;

fn geometry(rate: u32) -> (usize, usize, usize, usize) {
    let g = StretchGeometry::for_sample_rate(rate);
    (g.grain_size_frames, g.overlap_frames, g.synthesis_hop_frames, g.search_radius_frames)
}

#[test]
fn stretch_geometry_for_common_rates() {
    assert_eq!(geometry(48_000), (1920, 480, 1440, 240));
    assert_eq!(geometry(44_100), (1728, 432, 1296, 216));
    assert_eq!(geometry(8_000), (1024, 256, 768, 128));
    assert_eq!(geometry(192_000), (4096, 1024, 3072, 512));
    assert_eq!(geometry(0), (1024, 256, 768, 128));
    assert_eq!(geometry(u32::MAX), (4096, 1024, 3072, 512));
}

#[test]
fn disabling_loop_clears_buffer_loop_without_removing_selection() {
    let mut settings = LoopSettings::new();
    settings.set_loop(Some(48_000), Some(96_000), 48_000 * 4);
    assert!(settings.loop_enabled());
    assert_eq!(settings.bounds(), Some((48_000, 96_000)));

    settings.clear();
    assert!(!settings.loop_enabled());
    assert_eq!(settings.bounds(), None);
}

#[test]
fn loop_bounds_are_clamped_to_source() {
    let mut settings = LoopSettings::new();
    settings.set_loop(Some(10), Some(500), 100);
    assert_eq!(settings.bounds(), Some((10, 100)));
    settings.set_loop(Some(200), Some(500), 100);
    assert!(settings.loop_enabled());
    assert_eq!(settings.bounds(), None);
}

#[test]
fn inverted_or_missing_loop_clears_settings() {
    let mut settings = LoopSettings::new();
    settings.set_loop(Some(10), Some(20), 100);
    settings.set_loop(Some(20), Some(10), 100);
    assert_eq!(settings, LoopSettings::new());
    settings.set_loop(Some(10), Some(20), 100);
    settings.set_loop(None, Some(20), 100);
    assert!(!settings.loop_enabled());
    assert_eq!(settings.bounds(), None);
}

#[test]
fn left_channel_mode_duplicates_left_source_across_stereo_output() {
    assert_eq!(source_channel_for_output(2, AudioChannelMode::Left, 0), 0);
    assert_eq!(source_channel_for_output(2, AudioChannelMode::Left, 1), 0);
}

#[test]
fn right_channel_mode_duplicates_right_source_across_stereo_output() {
    assert_eq!(source_channel_for_output(2, AudioChannelMode::Right, 0), 1);
    assert_eq!(source_channel_for_output(2, AudioChannelMode::Right, 1), 1);
}

#[test]
fn stereo_mode_keeps_layout_and_repeats_last_channel() {
    assert_eq!(source_channel_for_output(2, AudioChannelMode::Stereo, 0), 0);
    assert_eq!(source_channel_for_output(2, AudioChannelMode::Stereo, 1), 1);
    assert_eq!(source_channel_for_output(2, AudioChannelMode::Stereo, 5), 1);
    assert_eq!(source_channel_for_output(6, AudioChannelMode::Stereo, 3), 3);
    assert_eq!(source_channel_for_output(1, AudioChannelMode::Right, 1), 0);
    assert_eq!(source_channel_for_output(0, AudioChannelMode::Stereo, 1), 0);
}

#[test]
fn frames_and_pending_samples() {
    assert_eq!(frame_count(90_000, 2), 45_000);
    assert_eq!(frame_count(7, 2), 3);
    assert_eq!(pending_samples(100, 30), 70);
    assert_eq!(pending_samples(100, 130), 0);
}

#[test]
fn compaction_rules() {
    assert_eq!(compaction_plan(0, 100), PendingCompaction::Keep);
    assert_eq!(compaction_plan(100, 100), PendingCompaction::Clear);
    assert_eq!(compaction_plan(120, 100), PendingCompaction::Clear);
    assert_eq!(compaction_plan(20_000, 30_000), PendingCompaction::DropConsumed);
    assert_eq!(compaction_plan(20_000, 50_000), PendingCompaction::Keep);
    assert_eq!(compaction_plan(16_384, 20_000), PendingCompaction::Keep);
    assert_eq!(compaction_plan(16_385, 32_770), PendingCompaction::DropConsumed);
    assert_eq!(compaction_plan(16_385, 32_771), PendingCompaction::Keep);
}

#[test]
fn reads_render_whole_frames_that_fit() {
    assert_eq!(samples_to_render(0, 64, 64, 2), 0);
    assert_eq!(samples_to_render(100, 64, 48, 2), 48);
    assert_eq!(samples_to_render(100, 7, 48, 2), 6);
    assert_eq!(samples_to_render(100, 64, 64, 3), 63);
    assert_eq!(samples_to_render(100, 1, 64, 2), 0);
}
