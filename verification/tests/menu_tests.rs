//! Message types between the tray menu and the background tasks.

use terminal_remote::menu::{BackgroundEvent, UiCommand};

#[test]
fn ui_commands_carry_their_payloads() {
    let toggle = UiCommand::ToggleLoginItem(true);
    assert!(matches!(toggle, UiCommand::ToggleLoginItem(true)));
    let s = format!("{:?} {:?}", UiCommand::CopyCode, UiCommand::Quit);
    assert!(s.contains("CopyCode"));
    assert!(s.contains("Quit"));
}

#[test]
fn background_events_carry_their_payloads() {
    match BackgroundEvent::SessionCode("AB2CDE".to_string()) {
        BackgroundEvent::SessionCode(code) => assert_eq!(code, "AB2CDE"),
        other => panic!("unexpected {:?}", other),
    }
    match BackgroundEvent::SessionCount(3) {
        BackgroundEvent::SessionCount(n) => assert_eq!(n, 3),
        other => panic!("unexpected {:?}", other),
    }
    let s = format!("{:?}", BackgroundEvent::ConnectionStatus("Connected".to_string()));
    assert!(s.contains("Connected"));
}
