//! The agent's IPC surface for shell-integration connections: the socket
//! path, the session events handed to the UI thread, and the registration
//! message that a connecting shell sends as one JSON line.

use vstd::prelude::*;
use vstd::utf8::{valid_utf8, encode_utf8};
use crate::wire::{
    json_string, dec_digits, parse_json_string, parse_number, starts_with, lit_name_pre,
    lit_shell_mid, lit_pid_mid, lit_name_pre_vec, lit_shell_mid_vec, lit_pid_mid_vec, push_all,
    push_json_string, push_dec, parse_json_string_at, parse_dec, string_from_utf8,
    starts_with_from,
};

verus! {

/// Path of the domain socket for shell integration connections.
pub const SOCKET_PATH: &'static str = "/tmp/terminal-remote.sock";

/// Events sent from the IPC server to the main thread.
#[derive(Debug, Clone)]
pub enum IpcEvent {
    /// A new shell session connected.
    SessionConnected { session_id: String, name: String },
    /// A shell session disconnected.
    SessionDisconnected { session_id: String },
    /// Total session count changed.
    SessionCountChanged(usize),
    /// An error occurred in the IPC server.
    Error(String),
}

/// A connected shell session. Times are an instant in milliseconds from
/// the caller's monotonic clock.
pub struct Session {
    /// Unique session identifier.
    pub id: String,
    /// Display name for the session.
    pub name: String,
    /// When the session connected.
    pub connected_at: u64,
}

impl Session {
    /// Track a session that connected at instant `now_ms`.
    pub fn new(id: String, name: String, now_ms: u64) -> (r: Session)
        ensures
            r.id@ == id@,
            r.name@ == name@,
            r.connected_at == now_ms,
    {
        Session { id, name, connected_at: now_ms }
    }

    /// How long this session has been connected, in whole seconds, as of
    /// instant `now_ms`; zero if the clock reads earlier than the start.
    pub fn duration_secs(&self, now_ms: u64) -> (r: u64)
        ensures
            now_ms >= self.connected_at ==> r == (now_ms - self.connected_at) / 1000,
            now_ms < self.connected_at ==> r == 0,
    {
        if now_ms >= self.connected_at {
            (now_ms - self.connected_at) / 1000
        } else {
            0
        }
    }
}

/// Registration message sent by a shell integration when connecting.
#[derive(Debug, Clone)]
pub struct ShellRegistration {
    /// Display name.
    pub name: String,
    /// Shell type.
    pub shell: String,
    /// Process id of the shell.
    pub pid: u32,
}

/// The canonical JSON bytes of a shell registration, over the UTF-8
/// bytes of its strings.
pub open spec fn shell_registration_json(name: Seq<u8>, shell: Seq<u8>, pid: u32) -> Seq<u8> {
    lit_name_pre() + json_string(name) + lit_shell_mid() + json_string(shell) + lit_pid_mid()
        + dec_digits(pid as nat) + seq![125u8]
}

/// Parse a shell registration: exactly the canonical form is accepted.
pub open spec fn parse_shell_registration(b: Seq<u8>) -> Option<(Seq<u8>, Seq<u8>, u32)> {
    if !starts_with(b, lit_name_pre()) {
        None
    } else {
        match parse_json_string(b.skip(8)) {
            None => None,
            Some((name, r1)) => if !starts_with(r1, lit_shell_mid()) {
                None
            } else {
                match parse_json_string(r1.skip(9)) {
                    None => None,
                    Some((shell, r2)) => if !starts_with(r2, lit_pid_mid()) {
                        None
                    } else {
                        match parse_number(r2.skip(7), 4294967295) {
                            None => None,
                            Some((pid, r3)) => if r3 == seq![125u8] {
                                Some((name, shell, pid as u32))
                            } else {
                                None
                            },
                        }
                    },
                }
            },
        }
    }
}

/// Serialize a shell registration to its canonical JSON bytes.
pub fn shell_registration_json_bytes(reg: &ShellRegistration) -> (r: Vec<u8>)
    ensures
        r@ == shell_registration_json(encode_utf8(reg.name@), encode_utf8(reg.shell@), reg.pid),
{
    let mut out: Vec<u8> = Vec::new();
    let p1 = lit_name_pre_vec();
    push_all(&mut out, &p1);
    let name_b = vstd::slice::slice_to_vec(reg.name.as_str().as_bytes());
    push_json_string(&mut out, &name_b);
    let p2 = lit_shell_mid_vec();
    push_all(&mut out, &p2);
    let shell_b = vstd::slice::slice_to_vec(reg.shell.as_str().as_bytes());
    push_json_string(&mut out, &shell_b);
    let p3 = lit_pid_mid_vec();
    push_all(&mut out, &p3);
    push_dec(&mut out, reg.pid);
    out.push(125);
    proof {
        assert(out@ =~= shell_registration_json(
            encode_utf8(reg.name@),
            encode_utf8(reg.shell@),
            reg.pid,
        ));
    }
    out
}

/// Parse a shell registration line. Mirrors [`parse_shell_registration`];
/// the strings must in addition be valid UTF-8, as JSON text always is.
pub fn parse_shell_registration_bytes(payload: &Vec<u8>) -> (r: Option<ShellRegistration>)
    ensures
        parse_shell_registration(payload@) is None ==> r is None,
        parse_shell_registration(payload@) matches Some((n, s, p)) ==> {
            &&& r is Some <==> valid_utf8(n) && valid_utf8(s)
            &&& r matches Some(reg) ==> encode_utf8(reg.name@) == n && encode_utf8(reg.shell@)
                == s && reg.pid == p
        },
{
    let n = payload.len();
    let ghost pv = payload@;
    proof {
        assert(pv.skip(0) =~= pv);
    }
    let p1 = lit_name_pre_vec();
    if !starts_with_from(payload, 0, &p1) {
        return None;
    }
    proof {
        assert(pv.skip(0).skip(8) =~= pv.skip(8));
    }
    let (name_v, j1) = match parse_json_string_at(payload, 8) {
        None => {
            return None;
        },
        Some(v) => v,
    };
    let p2 = lit_shell_mid_vec();
    if !starts_with_from(payload, j1, &p2) {
        return None;
    }
    proof {
        assert(pv.skip(j1 as int).skip(9) =~= pv.skip(j1 + 9));
    }
    let (shell_v, j2) = match parse_json_string_at(payload, j1 + 9) {
        None => {
            return None;
        },
        Some(v) => v,
    };
    let p3 = lit_pid_mid_vec();
    if !starts_with_from(payload, j2, &p3) {
        return None;
    }
    proof {
        assert(pv.skip(j2 as int).skip(7) =~= pv.skip(j2 + 7));
    }
    let (pid_v, j3) = match parse_dec(payload, j2 + 7, 4294967295u32) {
        None => {
            return None;
        },
        Some(v) => v,
    };
    let ghost r3_spec = pv.skip(j3 as int);
    if !(n - j3 == 1 && payload[j3] == 125) {
        proof {
            if r3_spec == seq![125u8] {
                assert(r3_spec.len() == 1);
                assert(r3_spec[0] == pv[j3 as int]);
                assert(r3_spec[0] == 125);
            }
            assert(parse_shell_registration(pv) is None);
        }
        return None;
    }
    proof {
        assert(r3_spec =~= seq![125u8]);
    }
    let name_s = match string_from_utf8(name_v) {
        Some(s) => s,
        None => {
            return None;
        },
    };
    let shell_s = match string_from_utf8(shell_v) {
        Some(s) => s,
        None => {
            return None;
        },
    };
    Some(ShellRegistration { name: name_s, shell: shell_s, pid: pid_v })
}

/// The events one accepted shell-integration connection emits when its
/// registration line arrives: a connect event and the new session count
/// on success, nothing for an unparseable line.
pub fn registration_events(session_id: &String, line: &Vec<u8>, count_after: usize) -> (events:
    Vec<IpcEvent>)
    ensures
        parse_shell_registration(line@) is None ==> events@.len() == 0,
        parse_shell_registration(line@) matches Some((n, s, p)) ==> if valid_utf8(n) && valid_utf8(
            s,
        ) {
            events@.len() == 2 && (events@[0] matches IpcEvent::SessionConnected {
                session_id: sid,
                name,
            } && sid@ == session_id@ && encode_utf8(name@) == n) && (
            events@[1] matches IpcEvent::SessionCountChanged(c) && c == count_after)
        } else {
            events@.len() == 0
        },
{
    let mut events: Vec<IpcEvent> = Vec::new();
    match parse_shell_registration_bytes(line) {
        None => events,
        Some(reg) => {
            events.push(
                IpcEvent::SessionConnected {
                    session_id: crate::agent::clone_string(session_id),
                    name: reg.name,
                },
            );
            events.push(IpcEvent::SessionCountChanged(count_after));
            events
        },
    }
}

/// The events one connection emits when its stream ends.
pub fn disconnect_events(session_id: &String, count_after: usize) -> (events: Vec<IpcEvent>)
    ensures
        events@.len() == 2,
        events@[0] matches IpcEvent::SessionDisconnected { session_id: sid } && sid@
            == session_id@,
        events@[1] matches IpcEvent::SessionCountChanged(c) && c == count_after,
{
    let mut events: Vec<IpcEvent> = Vec::new();
    events.push(
        IpcEvent::SessionDisconnected { session_id: crate::agent::clone_string(session_id) },
    );
    events.push(IpcEvent::SessionCountChanged(count_after));
    events
}


/// A shell registration encoded canonically parses back to itself.
#[verifier::rlimit(60)]
pub proof fn lemma_parse_shell_registration_round_trip(name: Seq<u8>, shell: Seq<u8>, pid: u32)
    ensures
        parse_shell_registration(shell_registration_json(name, shell, pid)) == Some(
            (name, shell, pid),
        ),
{
    crate::wire::lemma_pow10_ten();
    let b = shell_registration_json(name, shell, pid);
    let rest1 = lit_shell_mid() + json_string(shell) + lit_pid_mid() + dec_digits(pid as nat)
        + seq![125u8];
    let s1 = json_string(name) + rest1;
    assert(b =~= lit_name_pre() + s1);
    assert(b.take(8) =~= lit_name_pre());
    assert(b.skip(8) =~= s1);
    assert(s1[0] == 34);
    assert(s1.skip(1) =~= crate::wire::esc_bytes(name) + seq![34u8] + rest1);
    crate::wire::lemma_parse_string_round_trip(name, rest1);

    let rest2 = lit_pid_mid() + dec_digits(pid as nat) + seq![125u8];
    let s2 = json_string(shell) + rest2;
    assert(rest1.take(9) =~= lit_shell_mid());
    assert(rest1.skip(9) =~= s2);
    assert(s2[0] == 34);
    assert(s2.skip(1) =~= crate::wire::esc_bytes(shell) + seq![34u8] + rest2);
    crate::wire::lemma_parse_string_round_trip(shell, rest2);

    let rest3 = seq![125u8];
    assert(rest2.take(7) =~= lit_pid_mid());
    assert(rest2.skip(7) =~= dec_digits(pid as nat) + rest3);
    assert(!crate::wire::is_digit(rest3[0]));
    crate::wire::lemma_parse_number_round_trip(pid as nat, rest3, 4294967295);
    assert((pid as nat) as u32 == pid);
}

} // verus!
