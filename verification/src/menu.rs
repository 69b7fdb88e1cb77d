//! Message types between the tray UI and the background tasks. The tray
//! itself is pure presentation and lives outside the crate.

use vstd::prelude::*;

verus! {

/// Requests from the menu to the background.
#[derive(Debug)]
pub enum UiCommand {
    /// Copy the session code to the clipboard.
    CopyCode,
    /// Turn starting at login on or off.
    ToggleLoginItem(bool),
    /// Quit the application.
    Quit,
}

/// Reports from the background to the menu.
#[derive(Debug)]
pub enum BackgroundEvent {
    /// Connection status changed.
    ConnectionStatus(String),
    /// Session code updated.
    SessionCode(String),
    /// Active session count changed.
    SessionCount(u32),
}

} // verus!
