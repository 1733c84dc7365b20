//! The keyboard.

use vstd::prelude::*;

verus! {

/// A key that means something.
#[derive(Clone, Copy, Debug, PartialEq, Eq, Structural)]
pub enum Key {
    ArrowLeft,
    ArrowRight,
    ArrowUp,
    ArrowDown,
    Minus,
    Equal,
    Escape,
    Delete,
    Backspace,
    Enter,
    Space,
    E,
    N,
    O,
    S,
    Y,
    Z,
    Other,
}

/// What a key asks for.
#[derive(Clone, Copy, Debug, PartialEq, Eq, Structural)]
pub enum Command {
    Nothing,
    GotoEditPoint { forward: bool },
    StepFrame { forward: bool },
    NudgeLevel { up: bool, fine: bool },
    Undo,
    Redo,
    ZoomIn,
    ZoomOut,
    ZoomToFit,
    CloseMenu,
    Export,
    Save { ask: bool },
    Open,
    NewProject,
    DeleteSelected,
    TogglePlayback,
    PickMedia,
    Split,
    ToggleSnap,
}

impl Command {
    /// Whether holding the key repeats the command.
    pub open spec fn repeats(self) -> bool {
        match self {
            Command::GotoEditPoint { forward: _ } => true,
            Command::StepFrame { forward: _ } => true,
            Command::NudgeLevel { up: _, fine: _ } => true,
            Command::Undo => true,
            Command::Redo => true,
            Command::ZoomIn => true,
            Command::ZoomOut => true,
            _ => false,
        }
    }
}

/// What a key asks for when it is pressed once.
pub open spec fn meaning(key: Key, ctrl: bool, shift: bool) -> Command {
    match key {
        Key::ArrowLeft => if shift {
            Command::GotoEditPoint { forward: false }
        } else {
            Command::StepFrame { forward: false }
        },
        Key::ArrowRight => if shift {
            Command::GotoEditPoint { forward: true }
        } else {
            Command::StepFrame { forward: true }
        },
        Key::ArrowUp => Command::NudgeLevel { up: true, fine: shift },
        Key::ArrowDown => Command::NudgeLevel { up: false, fine: shift },
        Key::Z => if ctrl {
            if shift {
                Command::Redo
            } else {
                Command::Undo
            }
        } else if shift {
            Command::ZoomToFit
        } else {
            Command::Nothing
        },
        Key::Y => if ctrl {
            Command::Redo
        } else {
            Command::Nothing
        },
        Key::Minus => Command::ZoomOut,
        Key::Equal => Command::ZoomIn,
        Key::Escape => Command::CloseMenu,
        Key::E => if ctrl {
            Command::Export
        } else {
            Command::Nothing
        },
        Key::S => if ctrl {
            Command::Save { ask: shift }
        } else {
            Command::Split
        },
        Key::O => if ctrl {
            Command::Open
        } else {
            Command::PickMedia
        },
        Key::N => if ctrl {
            Command::NewProject
        } else {
            Command::ToggleSnap
        },
        Key::Delete | Key::Backspace => Command::DeleteSelected,
        Key::Space => if ctrl {
            Command::Nothing
        } else {
            Command::TogglePlayback
        },
        Key::Enter | Key::Other => Command::Nothing,
    }
}

/// What a key asks for. A key that is held asks only for what repeats.
pub fn command(key: Key, ctrl: bool, shift: bool, repeat: bool) -> (r: Command)
    ensures
        r == if repeat && !meaning(key, ctrl, shift).repeats() {
            Command::Nothing
        } else {
            meaning(key, ctrl, shift)
        },
{
    match key {
        Key::ArrowLeft => {
            return if shift {
                Command::GotoEditPoint { forward: false }
            } else {
                Command::StepFrame { forward: false }
            };
        },
        Key::ArrowRight => {
            return if shift {
                Command::GotoEditPoint { forward: true }
            } else {
                Command::StepFrame { forward: true }
            };
        },
        Key::ArrowUp => {
            return Command::NudgeLevel { up: true, fine: shift };
        },
        Key::ArrowDown => {
            return Command::NudgeLevel { up: false, fine: shift };
        },
        Key::Z => {
            if ctrl {
                return if shift {
                    Command::Redo
                } else {
                    Command::Undo
                };
            }
        },
        Key::Y => {
            if ctrl {
                return Command::Redo;
            }
        },
        Key::Minus => {
            return Command::ZoomOut;
        },
        Key::Equal => {
            return Command::ZoomIn;
        },
        _ => {},
    }
    if repeat {
        return Command::Nothing;
    }
    match key {
        Key::Escape => Command::CloseMenu,
        Key::Z => if shift {
            Command::ZoomToFit
        } else {
            Command::Nothing
        },
        Key::E => if ctrl {
            Command::Export
        } else {
            Command::Nothing
        },
        Key::S => if ctrl {
            Command::Save { ask: shift }
        } else {
            Command::Split
        },
        Key::O => if ctrl {
            Command::Open
        } else {
            Command::PickMedia
        },
        Key::N => if ctrl {
            Command::NewProject
        } else {
            Command::ToggleSnap
        },
        Key::Delete | Key::Backspace => Command::DeleteSelected,
        Key::Space => if ctrl {
            Command::Nothing
        } else {
            Command::TogglePlayback
        },
        _ => Command::Nothing,
    }
}

/// What a key asks for while a title is being typed into.
#[derive(Clone, Copy, Debug, PartialEq, Eq, Structural)]
pub enum Typing {
    /// The words go back to what they were.
    Cancel,
    /// The words stay as they are.
    Accept,
    /// The last character goes.
    Erase,
    /// A new line begins.
    Break,
    /// The text of the key is added.
    Insert,
}

/// What a key asks for while a title is being typed into: Escape gives the typing up, Enter
/// ends it, or the line with Shift, and Backspace takes a character back.
pub fn typing(key: Key, shift: bool) -> (r: Typing)
    ensures
        r == (match key {
            Key::Escape => Typing::Cancel,
            Key::Backspace => Typing::Erase,
            Key::Enter => if shift {
                Typing::Break
            } else {
                Typing::Accept
            },
            _ => Typing::Insert,
        }),
{
    match key {
        Key::Escape => Typing::Cancel,
        Key::Backspace => Typing::Erase,
        Key::Enter => if shift {
            Typing::Break
        } else {
            Typing::Accept
        },
        _ => Typing::Insert,
    }
}

} // verus!
