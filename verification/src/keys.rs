//! Terminal input events and the commands they stand for.
use vstd::prelude::*;
use crate::app::InputMode;

verus! {

/// A key, as far as the dashboard tells keys apart.
#[derive(Debug, Clone, Copy, PartialEq, Eq)]
pub enum Key {
    Char(char),
    Enter,
    Esc,
    Backspace,
    Up,
    Down,
    Other,
}

/// A terminal event, as far as the dashboard tells events apart.
#[derive(Debug, Clone, Copy, PartialEq, Eq)]
pub enum InputEvent {
    Key(Key),
    /// A mouse button pressed at a cell.
    MouseDown { column: u16, row: u16 },
    /// Any other event: other mouse activity, a resize, focus, paste.
    Other,
}

/// What the user asked for.
#[derive(Debug, Clone, Copy, PartialEq, Eq)]
pub enum AppCommand {
    Ignore,
    Quit,
    Up,
    Down,
    Refresh,
    Enter,
    Restart,
    ToggleStartStop,
    Logs,
    StartFilter,
    CancelFilter,
    SubmitFilter,
    Backspace,
    Type(char),
    MouseClick { x: u16, y: u16 },
}

/// The key bindings. While filtering, keys edit the filter; otherwise `q` or Esc
/// quits, `j`/Down and `k`/Up move, `r` restarts, `s` starts or stops, `l` shows
/// logs, `f` or `/` starts filtering, Enter opens the browser and `R` refreshes.
/// A mouse press is a click at its cell.
pub open spec fn command_for(event: InputEvent, mode: InputMode) -> AppCommand {
    match event {
        InputEvent::Key(k) => match mode {
            InputMode::Filtering => match k {
                Key::Esc => AppCommand::CancelFilter,
                Key::Enter => AppCommand::SubmitFilter,
                Key::Backspace => AppCommand::Backspace,
                Key::Char(c) => AppCommand::Type(c),
                _ => AppCommand::Ignore,
            },
            InputMode::Normal => match k {
                Key::Char('q') | Key::Esc => AppCommand::Quit,
                Key::Down | Key::Char('j') => AppCommand::Down,
                Key::Up | Key::Char('k') => AppCommand::Up,
                Key::Char('r') => AppCommand::Restart,
                Key::Char('s') => AppCommand::ToggleStartStop,
                Key::Char('l') => AppCommand::Logs,
                Key::Char('f') | Key::Char('/') => AppCommand::StartFilter,
                Key::Enter => AppCommand::Enter,
                Key::Char('R') => AppCommand::Refresh,
                _ => AppCommand::Ignore,
            },
        },
        InputEvent::MouseDown { column, row } => AppCommand::MouseClick { x: column, y: row },
        InputEvent::Other => AppCommand::Ignore,
    }
}

/// Outside the filter each command comes from exactly its keys: quitting from
/// `q` and Esc, moving up from the Up arrow and `k`, moving down from the Down
/// arrow and `j`, restarting from `r`, stopping or starting from `s`, logs from
/// `l`, filtering from `f` and `/`, the browser from Enter, refreshing from `R`;
/// every other key is ignored.
pub proof fn lemma_normal_keys(k: Key)
    ensures
        command_for(InputEvent::Key(k), InputMode::Normal) == AppCommand::Quit <==> (k == Key::Char('q')
            || k == Key::Esc),
        command_for(InputEvent::Key(k), InputMode::Normal) == AppCommand::Up <==> (k == Key::Up || k
            == Key::Char('k')),
        command_for(InputEvent::Key(k), InputMode::Normal) == AppCommand::Down <==> (k == Key::Down || k
            == Key::Char('j')),
        command_for(InputEvent::Key(k), InputMode::Normal) == AppCommand::Restart <==> k == Key::Char('r'),
        command_for(InputEvent::Key(k), InputMode::Normal) == AppCommand::ToggleStartStop <==> k == Key::Char(
            's',
        ),
        command_for(InputEvent::Key(k), InputMode::Normal) == AppCommand::Logs <==> k == Key::Char('l'),
        command_for(InputEvent::Key(k), InputMode::Normal) == AppCommand::StartFilter <==> (k == Key::Char('f')
            || k == Key::Char('/')),
        command_for(InputEvent::Key(k), InputMode::Normal) == AppCommand::Enter <==> k == Key::Enter,
        command_for(InputEvent::Key(k), InputMode::Normal) == AppCommand::Refresh <==> k == Key::Char('R'),
        command_for(InputEvent::Key(k), InputMode::Normal) == AppCommand::Ignore <==> !(k == Key::Char('q')
            || k == Key::Esc || k == Key::Up || k == Key::Char('k') || k == Key::Down || k == Key::Char('j')
            || k == Key::Char('r') || k == Key::Char('s') || k == Key::Char('l') || k == Key::Char('f')
            || k == Key::Char('/') || k == Key::Enter || k == Key::Char('R')),
{
}

/// While filtering, each character typed goes into the filter, Esc cancels,
/// Enter submits and Backspace deletes; every other key is ignored.
pub proof fn lemma_filtering_keys(k: Key, c: char)
    ensures
        command_for(InputEvent::Key(k), InputMode::Filtering) == AppCommand::Type(c) <==> k == Key::Char(c),
        command_for(InputEvent::Key(k), InputMode::Filtering) == AppCommand::CancelFilter <==> k == Key::Esc,
        command_for(InputEvent::Key(k), InputMode::Filtering) == AppCommand::SubmitFilter <==> k == Key::Enter,
        command_for(InputEvent::Key(k), InputMode::Filtering) == AppCommand::Backspace <==> k == Key::Backspace,
        command_for(InputEvent::Key(k), InputMode::Filtering) == AppCommand::Ignore <==> (k == Key::Up || k
            == Key::Down || k == Key::Other),
{
}

/// The command that an event stands for in the given input mode.
pub fn map_event(event: InputEvent, mode: InputMode) -> (r: AppCommand)
    ensures
        r == command_for(event, mode),
{
    match event {
        InputEvent::Key(k) => match mode {
            InputMode::Filtering => match k {
                Key::Esc => AppCommand::CancelFilter,
                Key::Enter => AppCommand::SubmitFilter,
                Key::Backspace => AppCommand::Backspace,
                Key::Char(c) => AppCommand::Type(c),
                _ => AppCommand::Ignore,
            },
            InputMode::Normal => match k {
                Key::Char('q') | Key::Esc => AppCommand::Quit,
                Key::Down | Key::Char('j') => AppCommand::Down,
                Key::Up | Key::Char('k') => AppCommand::Up,
                Key::Char('r') => AppCommand::Restart,
                Key::Char('s') => AppCommand::ToggleStartStop,
                Key::Char('l') => AppCommand::Logs,
                Key::Char('f') | Key::Char('/') => AppCommand::StartFilter,
                Key::Enter => AppCommand::Enter,
                Key::Char('R') => AppCommand::Refresh,
                _ => AppCommand::Ignore,
            },
        },
        InputEvent::MouseDown { column, row } => AppCommand::MouseClick { x: column, y: row },
        InputEvent::Other => AppCommand::Ignore,
    }
}

} // verus!
