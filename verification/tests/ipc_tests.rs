//! IPC surface: socket path, events, sessions, shell registration JSON.

use terminal_remote::ipc::{
    IpcEvent, Session, ShellRegistration, SOCKET_PATH, shell_registration_json_bytes,
    parse_shell_registration_bytes, registration_events, disconnect_events,
};

#[test]
fn test_socket_path_constant() {
    assert_eq!(SOCKET_PATH, "/tmp/terminal-remote.sock");
}

#[test]
fn test_ipc_event_debug() {
    let event = IpcEvent::SessionCountChanged(5);
    let debug_str = format!("{:?}", event);
    assert!(debug_str.contains("SessionCountChanged"));
    assert!(debug_str.contains("5"));
}

#[test]
fn test_session_new() {
    let session = Session::new("test-id".to_string(), "test-name".to_string(), 1_000);
    assert_eq!(session.id, "test-id");
    assert_eq!(session.name, "test-name");
}

#[test]
fn test_session_duration() {
    let session = Session::new("id".to_string(), "name".to_string(), 1_000);
    // Duration should be at least 0
    assert!(session.duration_secs(1_000) >= 0);
    assert_eq!(session.duration_secs(4_500), 3);
    assert_eq!(session.duration_secs(500), 0);
}

#[test]
fn test_shell_registration_serialization() {
    let reg = ShellRegistration {
        name: "zsh - ~/project".to_string(),
        shell: "zsh".to_string(),
        pid: 12345,
    };
    let json = String::from_utf8(shell_registration_json_bytes(&reg)).unwrap();
    assert!(json.contains("\"name\":\"zsh - ~/project\""));
    assert!(json.contains("\"shell\":\"zsh\""));
    assert!(json.contains("\"pid\":12345"));
}

#[test]
fn test_shell_registration_deserialization() {
    let json = r#"{"name":"bash - ~/code","shell":"bash","pid":54321}"#;
    let reg = parse_shell_registration_bytes(&json.as_bytes().to_vec()).unwrap();
    assert_eq!(reg.name, "bash - ~/code");
    assert_eq!(reg.shell, "bash");
    assert_eq!(reg.pid, 54321);
}

#[test]
fn shell_registration_round_trip() {
    let reg = ShellRegistration {
        name: "fish - ~/with \"quotes\"".to_string(),
        shell: "fish".to_string(),
        pid: 1,
    };
    let bytes = shell_registration_json_bytes(&reg);
    let back = parse_shell_registration_bytes(&bytes).unwrap();
    assert_eq!(back.name, reg.name);
    assert_eq!(back.shell, reg.shell);
    assert_eq!(back.pid, reg.pid);
}

#[test]
fn registration_line_produces_connect_events() {
    let sid = "abc".to_string();
    let line = br#"{"name":"bash - ~/code","shell":"bash","pid":54321}"#.to_vec();
    let events = registration_events(&sid, &line, 1);
    assert_eq!(events.len(), 2);
    match &events[0] {
        IpcEvent::SessionConnected { session_id, name } => {
            assert_eq!(session_id, "abc");
            assert_eq!(name, "bash - ~/code");
        }
        other => panic!("unexpected {:?}", other),
    }
    assert!(matches!(&events[1], IpcEvent::SessionCountChanged(1)));
}

#[test]
fn bad_registration_line_produces_nothing() {
    let sid = "abc".to_string();
    let events = registration_events(&sid, &b"garbage".to_vec(), 1);
    assert!(events.is_empty());
}

#[test]
fn disconnect_produces_detach_events() {
    let sid = "abc".to_string();
    let events = disconnect_events(&sid, 0);
    assert_eq!(events.len(), 2);
    match &events[0] {
        IpcEvent::SessionDisconnected { session_id } => assert_eq!(session_id, "abc"),
        other => panic!("unexpected {:?}", other),
    }
    assert!(matches!(&events[1], IpcEvent::SessionCountChanged(0)));
}
