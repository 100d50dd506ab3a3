//! Keyboard shortcuts of the main window: which action a key press asks for,
//! given the modifiers held and what is loaded.

use vstd::prelude::*;

verus! {

/// Keys that have a shortcut.
#[derive(Debug, Clone, Copy, PartialEq, Eq, Structural)]
pub enum ShortcutKey {
    Space,
    O,
    S,
    L,
    Escape,
}

/// What the window knows when a key is pressed.
#[derive(Debug, Clone, Copy, PartialEq, Eq, Structural)]
pub struct ShortcutContext {
    /// The control (command) modifier is held.
    pub ctrl: bool,
    /// The shift modifier is held.
    pub shift: bool,
    /// An audio player exists.
    pub has_player: bool,
    /// The player is playing.
    pub is_playing: bool,
    /// Audio is loaded.
    pub has_audio: bool,
    /// A loop region is selected.
    pub has_loop: bool,
}

/// What a shortcut asks the window to do.
#[derive(Debug, Clone, Copy, PartialEq, Eq, Structural)]
pub enum ShortcutAction {
    Play,
    Pause,
    OpenProject,
    OpenFile,
    SaveProject,
    ToggleLoop,
    Stop,
}

/// The action of a key press: Space plays or pauses (without control, once a
/// player exists), Ctrl+Shift+O opens a project, Ctrl+O an audio file,
/// Ctrl+S saves the project once audio is loaded, L toggles the loop once one
/// is selected, and Escape stops the player.
pub fn shortcut_action(key: ShortcutKey, cx: ShortcutContext) -> (r: Option<ShortcutAction>)
    ensures
        r == Some(ShortcutAction::Play) <==> (key == ShortcutKey::Space && !cx.ctrl
            && cx.has_player && !cx.is_playing),
        r == Some(ShortcutAction::Pause) <==> (key == ShortcutKey::Space && !cx.ctrl
            && cx.has_player && cx.is_playing),
        r == Some(ShortcutAction::OpenProject) <==> (key == ShortcutKey::O && cx.ctrl && cx.shift),
        r == Some(ShortcutAction::OpenFile) <==> (key == ShortcutKey::O && cx.ctrl && !cx.shift),
        r == Some(ShortcutAction::SaveProject) <==> (key == ShortcutKey::S && cx.ctrl
            && cx.has_audio),
        r == Some(ShortcutAction::ToggleLoop) <==> (key == ShortcutKey::L && cx.has_loop),
        r == Some(ShortcutAction::Stop) <==> (key == ShortcutKey::Escape && cx.has_player),
{
    match key {
        ShortcutKey::Space => {
            if cx.ctrl || !cx.has_player {
                None
            } else if cx.is_playing {
                Some(ShortcutAction::Pause)
            } else {
                Some(ShortcutAction::Play)
            }
        },
        ShortcutKey::O => {
            if !cx.ctrl {
                None
            } else if cx.shift {
                Some(ShortcutAction::OpenProject)
            } else {
                Some(ShortcutAction::OpenFile)
            }
        },
        ShortcutKey::S => {
            if cx.ctrl && cx.has_audio {
                Some(ShortcutAction::SaveProject)
            } else {
                None
            }
        },
        ShortcutKey::L => {
            if cx.has_loop {
                Some(ShortcutAction::ToggleLoop)
            } else {
                None
            }
        },
        ShortcutKey::Escape => {
            if cx.has_player {
                Some(ShortcutAction::Stop)
            } else {
                None
            }
        },
    }
}

} // verus!
