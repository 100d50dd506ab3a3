use grepgrep::shortcuts::{shortcut_action, ShortcutAction, ShortcutContext, ShortcutKey};

fn cx(ctrl: bool, shift: bool) -> ShortcutContext {
    ShortcutContext {
        ctrl,
        shift,
        has_player: true,
        is_playing: false,
        has_audio: true,
        has_loop: true,
    }
}

#[test]
fn space_toggles_playback() {
    assert_eq!(shortcut_action(ShortcutKey::Space, cx(false, false)), Some(ShortcutAction::Play));
    let playing = ShortcutContext { is_playing: true, ..cx(false, false) };
    assert_eq!(shortcut_action(ShortcutKey::Space, playing), Some(ShortcutAction::Pause));
    assert_eq!(shortcut_action(ShortcutKey::Space, cx(true, false)), None);
    let no_player = ShortcutContext { has_player: false, ..cx(false, false) };
    assert_eq!(shortcut_action(ShortcutKey::Space, no_player), None);
}

#[test]
fn open_and_save_shortcuts() {
    assert_eq!(shortcut_action(ShortcutKey::O, cx(true, true)), Some(ShortcutAction::OpenProject));
    assert_eq!(shortcut_action(ShortcutKey::O, cx(true, false)), Some(ShortcutAction::OpenFile));
    assert_eq!(shortcut_action(ShortcutKey::O, cx(false, true)), None);
    assert_eq!(shortcut_action(ShortcutKey::S, cx(true, false)), Some(ShortcutAction::SaveProject));
    assert_eq!(shortcut_action(ShortcutKey::S, cx(false, false)), None);
    let no_audio = ShortcutContext { has_audio: false, ..cx(true, false) };
    assert_eq!(shortcut_action(ShortcutKey::S, no_audio), None);
}

#[test]
fn loop_and_stop_shortcuts() {
    assert_eq!(shortcut_action(ShortcutKey::L, cx(true, true)), Some(ShortcutAction::ToggleLoop));
    let no_loop = ShortcutContext { has_loop: false, ..cx(false, false) };
    assert_eq!(shortcut_action(ShortcutKey::L, no_loop), None);
    assert_eq!(shortcut_action(ShortcutKey::Escape, cx(false, false)), Some(ShortcutAction::Stop));
    let no_player = ShortcutContext { has_player: false, ..cx(false, false) };
    assert_eq!(shortcut_action(ShortcutKey::Escape, no_player), None);
}
