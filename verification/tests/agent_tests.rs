//! Agent session server: dispatch, connection lifecycle, commands.

use terminal_remote::agent::{
    AgentAction, AgentConnection, PtyCommand, PtyEvent, PtyManager, dispatch_frame,
    new_session_id, SOCKET_PATH as AGENT_SOCKET_PATH,
};
use terminal_remote::wire::{ControlMessage, control_json_bytes, Registration, registration_json_bytes};

fn reg_payload(name: &str, shell: &str, pid: u32, tty: &str) -> Vec<u8> {
    registration_json_bytes(&Registration {
        name: name.as_bytes().to_vec(),
        shell: shell.as_bytes().to_vec(),
        pid,
        tty: tty.as_bytes().to_vec(),
        proxy_version: 1,
    })
}

#[test]
fn agent_socket_path_matches_proxy() {
    assert_eq!(AGENT_SOCKET_PATH, "/tmp/terminal-remote.sock");
}

#[test]
fn session_ids_are_uuid_shaped() {
    let id = new_session_id();
    assert_eq!(id.len(), 36);
    let id2 = new_session_id();
    assert_eq!(id2.len(), 36);
}

#[test]
fn dispatch_output_frame() {
    let sid = "s1".to_string();
    let mut payload = vec![b'O'];
    payload.extend_from_slice(b"hello\r\n");
    match dispatch_frame(&sid, &payload) {
        Some(PtyEvent::Output { session_id, data }) => {
            assert_eq!(session_id, "s1");
            assert_eq!(data, b"hello\r\n".to_vec());
        }
        other => panic!("unexpected {:?}", other),
    }
}

#[test]
fn dispatch_input_echo_ignored() {
    let sid = "s1".to_string();
    let mut payload = vec![b'I'];
    payload.extend_from_slice(b"typed");
    assert!(dispatch_frame(&sid, &payload).is_none());
}

#[test]
fn dispatch_resize_control() {
    let sid = "s1".to_string();
    let payload = control_json_bytes(&ControlMessage::Resize { cols: 120, rows: 40 });
    match dispatch_frame(&sid, &payload) {
        Some(PtyEvent::SessionResize { session_id, cols, rows }) => {
            assert_eq!(session_id, "s1");
            assert_eq!(cols, 120);
            assert_eq!(rows, 40);
        }
        other => panic!("unexpected {:?}", other),
    }
}

#[test]
fn dispatch_unknown_tag_ignored() {
    let sid = "s1".to_string();
    assert!(dispatch_frame(&sid, &vec![b'Z', 1, 2]).is_none());
    // an unknown control type is ignored too
    assert!(dispatch_frame(&sid, &b"{\"type\":\"open\"}".to_vec()).is_none());
}

#[test]
fn connection_lifecycle_events() {
    // one Attached, then outputs, then exactly one Detached
    let mut mgr = PtyManager::new();
    let mut conn = AgentConnection::new("sid-1".to_string());
    let reg = reg_payload("zsh - ~/p", "zsh", 1234, "/dev/ttys001");
    match conn.on_frame(&reg, &mut mgr) {
        Ok(Some(PtyEvent::Attached { session_id, session_name })) => {
            assert_eq!(session_id, "sid-1");
            assert_eq!(session_name, "zsh - ~/p");
        }
        other => panic!("unexpected {:?}", other),
    }
    assert_eq!(mgr.session_count(), 1);
    assert_eq!(mgr.session_pid(&"sid-1".to_string()), Some(1234));
    assert_eq!(mgr.resolve_tty(&"sid-1".to_string()), Some("/dev/ttys001".to_string()));

    let mut out = vec![b'O'];
    out.extend_from_slice(b"hi");
    match conn.on_frame(&out, &mut mgr) {
        Ok(Some(PtyEvent::Output { data, .. })) => assert_eq!(data, b"hi".to_vec()),
        other => panic!("unexpected {:?}", other),
    }

    match conn.on_disconnect(&mut mgr) {
        Some(PtyEvent::Detached { session_id }) => assert_eq!(session_id, "sid-1"),
        other => panic!("unexpected {:?}", other),
    }
    assert_eq!(mgr.session_count(), 0);
    // the TTY mapping outlives the session
    assert_eq!(mgr.resolve_tty(&"sid-1".to_string()), Some("/dev/ttys001".to_string()));
}

#[test]
fn connection_rejects_bad_registration() {
    let mut mgr = PtyManager::new();
    let mut conn = AgentConnection::new("sid-2".to_string());
    let r = conn.on_frame(&b"not json".to_vec(), &mut mgr);
    assert!(r.is_err());
    assert_eq!(mgr.session_count(), 0);
}

#[test]
fn write_command_frames_browser_input() {
    let mut mgr = PtyManager::new();
    let mut conn = AgentConnection::new("sid-3".to_string());
    conn.on_frame(&reg_payload("n", "sh", 1, "/dev/t1"), &mut mgr).unwrap();
    let actions = mgr.handle_command(&PtyCommand::Write {
        session_id: "sid-3".to_string(),
        data: vec![104, 105],
    });
    assert_eq!(actions.len(), 1);
    match &actions[0] {
        AgentAction::SendFrame { session_id, bytes } => {
            assert_eq!(session_id, "sid-3");
            let json = b"{\"type\":\"input\",\"data\":[104,105]}".to_vec();
            let mut expected = vec![0, 0, 0, json.len() as u8];
            expected.extend_from_slice(&json);
            assert_eq!(bytes, &expected);
        }
        other => panic!("unexpected {:?}", other),
    }
}

#[test]
fn kill_session_live_forces_window_close() {
    // the close goes to the window, forced, while the session lives
    let mut mgr = PtyManager::new();
    let mut conn = AgentConnection::new("sid-4".to_string());
    conn.on_frame(&reg_payload("n", "sh", 7, "/dev/t4"), &mut mgr).unwrap();
    let actions = mgr.handle_command(&PtyCommand::KillSession { session_id: "sid-4".to_string() });
    assert_eq!(actions.len(), 1);
    match &actions[0] {
        AgentAction::CloseWindow { tty, force } => {
            assert_eq!(tty, "/dev/t4");
            assert!(*force);
        }
        other => panic!("unexpected {:?}", other),
    }
}

#[test]
fn late_kill_after_detach_is_busy_checked() {
    // the shell exited and the proxy detached; a late kill still resolves
    // the TTY and asks for a busy-checked close, never a forced one
    let mut mgr = PtyManager::new();
    let mut conn = AgentConnection::new("sid-5".to_string());
    conn.on_frame(&reg_payload("n", "sh", 7, "/dev/t5"), &mut mgr).unwrap();
    conn.on_disconnect(&mut mgr);
    let actions = mgr.handle_command(&PtyCommand::KillSession { session_id: "sid-5".to_string() });
    assert_eq!(actions.len(), 1);
    match &actions[0] {
        AgentAction::CloseWindow { tty, force } => {
            assert_eq!(tty, "/dev/t5");
            assert!(!*force);
        }
        other => panic!("unexpected {:?}", other),
    }
}

#[test]
fn shutdown_signals_every_shell_and_stops() {
    let mut mgr = PtyManager::new();
    let mut c1 = AgentConnection::new("a".to_string());
    c1.on_frame(&reg_payload("n1", "sh", 11, "/dev/t1"), &mut mgr).unwrap();
    let mut c2 = AgentConnection::new("b".to_string());
    c2.on_frame(&reg_payload("n2", "sh", 22, "/dev/t2"), &mut mgr).unwrap();
    let actions = mgr.handle_command(&PtyCommand::Shutdown);
    assert_eq!(actions.len(), 3);
    match (&actions[0], &actions[1], &actions[2]) {
        (
            AgentAction::SignalTerm { pid: p1 },
            AgentAction::SignalTerm { pid: p2 },
            AgentAction::Stop,
        ) => {
            assert_eq!(*p1, 11);
            assert_eq!(*p2, 22);
        }
        other => panic!("unexpected {:?}", other),
    }
    assert_eq!(mgr.session_count(), 0);
}

#[test]
fn duplicate_session_id_refused() {
    let mut mgr = PtyManager::new();
    let mut c1 = AgentConnection::new("dup".to_string());
    c1.on_frame(&reg_payload("n1", "sh", 1, "/dev/t1"), &mut mgr).unwrap();
    let mut c2 = AgentConnection::new("dup".to_string());
    let r = c2.on_frame(&reg_payload("n2", "sh", 2, "/dev/t2"), &mut mgr);
    assert!(r.is_err());
    assert_eq!(mgr.session_count(), 1);
}

#[test]
fn registration_with_multibyte_name_decodes() {
    // the UTF-8 decoding really decodes: a multibyte name comes through
    let mut mgr = PtyManager::new();
    let mut conn = AgentConnection::new("sid-6".to_string());
    let name = "sh\u{00e9}ll caf\u{00e9}";
    let reg = reg_payload(name, "zsh", 5, "/dev/t6");
    match conn.on_frame(&reg, &mut mgr) {
        Ok(Some(PtyEvent::Attached { session_name, .. })) => assert_eq!(session_name, name),
        other => panic!("unexpected {:?}", other),
    }
}
