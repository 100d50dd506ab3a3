use grepgrep::tone::{ToneSchedule, TONE_MIN_SAMPLE_RATE};

#[test]
fn tone_lasts_one_second_at_output_rate() {
    let mut tone = ToneSchedule::new();
    tone.set_output_sample_rate(96_000);
    tone.trigger(69);
    assert_eq!(tone.active_midi_note(), Some(69));
    assert_eq!(tone.total_samples, 96_000);
    assert_eq!(tone.attack_samples, 960);
}

#[test]
fn tone_rate_has_a_floor() {
    let mut tone = ToneSchedule::new();
    tone.set_output_sample_rate(44_100);
    tone.trigger(60);
    assert_eq!(tone.total_samples, TONE_MIN_SAMPLE_RATE as u64);
    assert_eq!(tone.attack_samples, 480);
    tone.set_output_sample_rate(0);
    assert_eq!(tone.sample_rate, 1);
}

#[test]
fn tone_generates_blocks_then_expires() {
    let mut tone = ToneSchedule::new();
    tone.set_output_sample_rate(48_000);
    tone.trigger(69);
    assert_eq!(tone.render_block(16), (0, 16));
    assert_eq!(tone.active_midi_note(), Some(69));
    assert_eq!(tone.render_block(47_980), (16, 47_980));
    assert_eq!(tone.render_block(16), (47_996, 4));
    assert_eq!(tone.active_midi_note(), None);
    assert_eq!(tone.render_block(16), (48_000, 0));
}

#[test]
fn retriggering_tone_replaces_note_and_restarts() {
    let mut tone = ToneSchedule::new();
    tone.set_output_sample_rate(48_000);
    tone.trigger(69);
    tone.render_block(512);
    assert_eq!(tone.sample_index, 512);
    tone.trigger(72);
    assert_eq!(tone.active_midi_note(), Some(72));
    assert_eq!(tone.sample_index, 0);
    assert_eq!(tone.render_block(0), (0, 0));
}

#[test]
fn cleared_tone_is_silent() {
    let mut tone = ToneSchedule::new();
    tone.set_output_sample_rate(48_000);
    tone.trigger(69);
    tone.clear();
    assert_eq!(tone.active_midi_note(), None);
    assert_eq!(tone.render_block(64), (0, 0));
    assert_eq!(tone.sample_rate, 48_000);
}
