//! Proxy event-loop decisions: tee, resize, close, reconnect, exit codes.

use terminal_remote::proxy::{
    ProxyAction, ProxyState, WaitInfo, choose_shell, exit_code_for, make_registration,
    RECONNECT_INTERVAL_SECS,
};
use terminal_remote::wire::{ControlMessage, control_json_bytes};
use terminal_remote::codec::encode_frame;

fn framed(payload: &[u8]) -> Vec<u8> {
    encode_frame(&payload.to_vec())
}

#[test]
fn stdin_is_forwarded_and_teed_tagged_input() {
    let st = ProxyState::new(true);
    let actions = st.on_stdin_data(&b"echo hi\n".to_vec());
    assert_eq!(actions.len(), 2);
    match &actions[0] {
        ProxyAction::WriteMaster(d) => assert_eq!(d, &b"echo hi\n".to_vec()),
        other => panic!("unexpected {:?}", other),
    }
    match &actions[1] {
        ProxyAction::SendFrame(bytes) => {
            let mut expected = vec![0, 0, 0, 9, b'I'];
            expected.extend_from_slice(b"echo hi\n");
            assert_eq!(bytes, &expected);
        }
        other => panic!("unexpected {:?}", other),
    }
}

#[test]
fn master_output_is_forwarded_and_teed_tagged_output() {
    // tee fidelity: the terminal sees the bytes, the agent sees 'O' + bytes
    let st = ProxyState::new(true);
    let actions = st.on_master_data(&b"hi\n".to_vec());
    assert_eq!(actions.len(), 2);
    match &actions[0] {
        ProxyAction::WriteStdout(d) => assert_eq!(d, &b"hi\n".to_vec()),
        other => panic!("unexpected {:?}", other),
    }
    match &actions[1] {
        ProxyAction::SendFrame(bytes) => {
            let mut expected = vec![0, 0, 0, 4, b'O'];
            expected.extend_from_slice(b"hi\n");
            assert_eq!(bytes, &expected);
        }
        other => panic!("unexpected {:?}", other),
    }
}

#[test]
fn no_tee_without_agent() {
    // agent absent: the shell still works, nothing is sent anywhere
    let st = ProxyState::new(false);
    let actions = st.on_master_data(&b"hi\n".to_vec());
    assert_eq!(actions.len(), 1);
    assert!(matches!(&actions[0], ProxyAction::WriteStdout(_)));
}

#[test]
fn winch_programs_pty_and_notifies_agent() {
    let st = ProxyState::new(true);
    let actions = st.on_winch(120, 40);
    assert_eq!(actions.len(), 2);
    assert!(matches!(&actions[0], ProxyAction::SetPtySize(120, 40)));
    match &actions[1] {
        ProxyAction::SendFrame(bytes) => {
            assert_eq!(bytes, &framed(b"{\"type\":\"resize\",\"cols\":120,\"rows\":40}"));
        }
        other => panic!("unexpected {:?}", other),
    }
}

#[test]
fn resize_from_browser_sets_pty_size() {
    let mut st = ProxyState::new(true);
    let wire = framed(&control_json_bytes(&ControlMessage::Resize { cols: 120, rows: 40 }));
    let (actions, exit) = st.on_socket_data(&wire);
    assert!(!exit);
    assert_eq!(actions.len(), 1);
    assert!(matches!(&actions[0], ProxyAction::SetPtySize(120, 40)));
}

#[test]
fn browser_input_goes_to_the_shell() {
    let mut st = ProxyState::new(true);
    let wire = framed(&control_json_bytes(&ControlMessage::Input { data: b"ls\n".to_vec() }));
    let (actions, exit) = st.on_socket_data(&wire);
    assert!(!exit);
    assert_eq!(actions.len(), 1);
    match &actions[0] {
        ProxyAction::WriteMaster(d) => assert_eq!(d, &b"ls\n".to_vec()),
        other => panic!("unexpected {:?}", other),
    }
}

#[test]
fn close_order_hangs_up_and_exits_clean() {
    let mut st = ProxyState::new(true);
    let wire = framed(&control_json_bytes(&ControlMessage::Close));
    let (actions, exit) = st.on_socket_data(&wire);
    assert!(exit);
    assert_eq!(actions.len(), 2);
    assert!(matches!(&actions[0], ProxyAction::SignalChildHup));
    assert!(matches!(&actions[1], ProxyAction::ExitClean));
}

#[test]
fn non_json_payload_is_raw_input() {
    let mut st = ProxyState::new(true);
    let wire = framed(b"plain keystrokes");
    let (actions, exit) = st.on_socket_data(&wire);
    assert!(!exit);
    assert_eq!(actions.len(), 1);
    match &actions[0] {
        ProxyAction::WriteMaster(d) => assert_eq!(d, &b"plain keystrokes".to_vec()),
        other => panic!("unexpected {:?}", other),
    }
}

#[test]
fn partial_frame_waits_for_the_rest() {
    let mut st = ProxyState::new(true);
    let wire = framed(&control_json_bytes(&ControlMessage::Close));
    let (actions, exit) = st.on_socket_data(&wire[..5].to_vec());
    assert!(actions.is_empty());
    assert!(!exit);
    let (actions, exit) = st.on_socket_data(&wire[5..].to_vec());
    assert!(exit);
    assert_eq!(actions.len(), 2);
}

#[test]
fn reconnect_every_interval_while_disconnected() {
    // agent-absent startup: first tick tries at once, then every 5 s
    let mut st = ProxyState::new(false);
    assert!(st.should_reconnect(1_000));
    assert!(!st.should_reconnect(2_000));
    assert!(!st.should_reconnect(1_000 + RECONNECT_INTERVAL_SECS * 1000 - 1));
    assert!(st.should_reconnect(1_000 + RECONNECT_INTERVAL_SECS * 1000));
    // once connected, no more attempts
    let reg = make_registration(&b"zsh".to_vec(), &b"/home/u".to_vec(), 42, &b"/dev/t".to_vec());
    st.on_connected(&reg, Some((80, 24)));
    assert!(!st.should_reconnect(1_000_000));
}

#[test]
fn connect_sends_registration_then_size() {
    let mut st = ProxyState::new(false);
    let reg = make_registration(&b"zsh".to_vec(), &b"/home/u".to_vec(), 42, &b"/dev/t".to_vec());
    let actions = st.on_connected(&reg, Some((80, 24)));
    assert_eq!(actions.len(), 2);
    match &actions[0] {
        ProxyAction::SendFrame(bytes) => {
            assert_eq!(
                bytes,
                &framed(
                    b"{\"name\":\"zsh - /home/u\",\"shell\":\"zsh\",\"pid\":42,\"tty\":\"/dev/t\",\"proxy_version\":1}"
                )
            );
        }
        other => panic!("unexpected {:?}", other),
    }
    match &actions[1] {
        ProxyAction::SendFrame(bytes) => {
            assert_eq!(bytes, &framed(b"{\"type\":\"resize\",\"cols\":80,\"rows\":24}"));
        }
        other => panic!("unexpected {:?}", other),
    }
    assert!(st.is_connected());
}

#[test]
fn socket_loss_clears_the_frame_buffer() {
    let mut st = ProxyState::new(true);
    let wire = framed(&control_json_bytes(&ControlMessage::Close));
    // half a frame arrives, then the socket drops and comes back
    let (_, _) = st.on_socket_data(&wire[..5].to_vec());
    st.on_socket_closed();
    assert!(!st.is_connected());
    let reg = make_registration(&b"sh".to_vec(), &b"/".to_vec(), 1, &b"t".to_vec());
    st.on_connected(&reg, None);
    // the stale half-frame is gone: a fresh full frame parses cleanly
    let (actions, exit) = st.on_socket_data(&wire);
    assert!(exit);
    assert_eq!(actions.len(), 2);
}

#[test]
fn exit_codes_follow_the_shell() {
    assert_eq!(exit_code_for(&WaitInfo::Exited(0)), 0);
    assert_eq!(exit_code_for(&WaitInfo::Exited(3)), 3);
    assert_eq!(exit_code_for(&WaitInfo::Signaled(9)), 137);
    assert_eq!(exit_code_for(&WaitInfo::Signaled(1)), 129);
    assert_eq!(exit_code_for(&WaitInfo::Unknown), 1);
}

#[test]
fn shell_choice_prefers_env() {
    assert_eq!(choose_shell(Some("/bin/bash".to_string())), "/bin/bash");
    assert_eq!(choose_shell(Some("".to_string())), "/bin/zsh");
    assert_eq!(choose_shell(None), "/bin/zsh");
}
