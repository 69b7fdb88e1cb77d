//! The proxy's event-loop decisions.
//!
//! The proxy interposes a PTY between the user's terminal and the shell
//! and tees all traffic to the agent. Polling, reading and writing of
//! file descriptors happen outside the crate; each readiness event is
//! handed in here, and the actions to perform come back, in order.

use vstd::prelude::*;
use crate::codec::{FrameDecoder, encode_frame, frame_bytes, be32_val, drop_zero_frames};
use crate::wire::{
    ControlMessage, ControlModel, Registration, control_json, control_json_bytes, parse_control,
    parse_control_message, registration_json, registration_json_bytes,
};

verus! {

/// Reads from stdin and the PTY master happen in chunks of this size.
pub const BUF_SIZE: usize = 8192;

/// Seconds between attempts to reach the agent while disconnected.
pub const RECONNECT_INTERVAL_SECS: u64 = 5;

/// One thing the proxy's surroundings must do, in order.
#[derive(Debug, Clone)]
pub enum ProxyAction {
    /// Write all of these bytes to the PTY master (input to the shell).
    WriteMaster(Vec<u8>),
    /// Write all of these bytes to stdout (output to the terminal).
    WriteStdout(Vec<u8>),
    /// Send these already-framed bytes to the agent socket.
    SendFrame(Vec<u8>),
    /// Program this size onto the PTY master.
    SetPtySize(u16, u16),
    /// Send the shell a hang-up signal.
    SignalChildHup,
    /// Reap the child and exit with code 0.
    ExitClean,
}

/// The mathematical model of a proxy action.
pub enum ProxyActionModel {
    WriteMaster(Seq<u8>),
    WriteStdout(Seq<u8>),
    SendFrame(Seq<u8>),
    SetPtySize(u16, u16),
    SignalChildHup,
    ExitClean,
}

impl View for ProxyAction {
    type V = ProxyActionModel;

    open spec fn view(&self) -> ProxyActionModel {
        match self {
            ProxyAction::WriteMaster(d) => ProxyActionModel::WriteMaster(d@),
            ProxyAction::WriteStdout(d) => ProxyActionModel::WriteStdout(d@),
            ProxyAction::SendFrame(d) => ProxyActionModel::SendFrame(d@),
            ProxyAction::SetPtySize(c, r) => ProxyActionModel::SetPtySize(*c, *r),
            ProxyAction::SignalChildHup => ProxyActionModel::SignalChildHup,
            ProxyAction::ExitClean => ProxyActionModel::ExitClean,
        }
    }
}

/// A byte stream teed to the agent: the tag, then the raw chunk.
pub open spec fn tagged(tag: u8, d: Seq<u8>) -> Seq<u8> {
    seq![tag] + d
}

/// What one complete frame from the agent makes the proxy do, and
/// whether it ends the session: browser input goes to the shell, a
/// resize is programmed onto the PTY, close hangs the shell up and exits
/// cleanly, and anything that is no control message is legacy raw input.
pub open spec fn frame_action(p: Seq<u8>) -> (Seq<ProxyActionModel>, bool) {
    match parse_control(p) {
        Some(ControlModel::Input(d)) => (seq![ProxyActionModel::WriteMaster(d)], false),
        Some(ControlModel::Resize(c, r)) => (seq![ProxyActionModel::SetPtySize(c, r)], false),
        Some(ControlModel::Close) => (
            seq![ProxyActionModel::SignalChildHup, ProxyActionModel::ExitClean],
            true,
        ),
        None => (seq![ProxyActionModel::WriteMaster(p)], false),
    }
}

/// Actions for every complete frame buffered, in order, stopping at a
/// close order: the actions, the bytes left in the buffer, and whether
/// the proxy exits.
pub open spec fn buf_actions(b: Seq<u8>) -> (Seq<ProxyActionModel>, Seq<u8>, bool)
    decreases b.len(),
    via buf_actions_decreases
{
    let c = drop_zero_frames(b);
    if c.len() < 4 || c.len() < 4 + be32_val(c) {
        (seq![], c, false)
    } else {
        let p = c.subrange(4, 4 + be32_val(c));
        let rest = c.skip(4 + be32_val(c));
        let fa = frame_action(p);
        if fa.1 {
            (fa.0, rest, true)
        } else {
            let more = buf_actions(rest);
            (fa.0 + more.0, more.1, more.2)
        }
    }
}

#[via_fn]
proof fn buf_actions_decreases(b: Seq<u8>) {
    lemma_drop_zero_le_len(b);
}

/// Skipping zero-length frames never grows the buffer.
pub proof fn lemma_drop_zero_le_len(b: Seq<u8>)
    ensures
        drop_zero_frames(b).len() <= b.len(),
    decreases b.len(),
{
    if b.len() >= 4 && be32_val(b) == 0 {
        lemma_drop_zero_le_len(b.skip(4));
    }
}

/// The proxy's connection state: whether the agent socket is up, the
/// frame buffer of bytes read from it, and when a reconnect was last
/// tried.
pub struct ProxyState {
    socket_connected: bool,
    decoder: FrameDecoder,
    last_reconnect_ms: Option<u64>,
}

impl ProxyState {
    pub closed spec fn connected(self) -> bool {
        self.socket_connected
    }

    /// Bytes read from the agent socket, not yet forming a whole frame.
    pub closed spec fn buffered(self) -> Seq<u8> {
        self.decoder@
    }

    pub closed spec fn last_attempt(self) -> Option<u64> {
        self.last_reconnect_ms
    }

    /// Fresh state: `connected` says whether the first connect at
    /// startup reached the agent; a missing agent is not fatal.
    pub fn new(connected: bool) -> (r: ProxyState)
        ensures
            r.connected() == connected,
            r.buffered() =~= Seq::<u8>::empty(),
            r.last_attempt() is None,
    {
        ProxyState {
            socket_connected: connected,
            decoder: FrameDecoder::new(),
            last_reconnect_ms: None,
        }
    }

    pub fn is_connected(&self) -> (r: bool)
        ensures
            r == self.connected(),
    {
        self.socket_connected
    }

    /// The user typed: forward to the shell, and tee a frame tagged `'I'`
    /// to the agent when it is connected.
    pub fn on_stdin_data(&self, data: &Vec<u8>) -> (actions: Vec<ProxyAction>)
        requires
            data@.len() <= BUF_SIZE,
        ensures
            actions@.len() == (if self.connected() {
                2int
            } else {
                1int
            }),
            actions@[0]@ == ProxyActionModel::WriteMaster(data@),
            self.connected() ==> actions@[1]@ == ProxyActionModel::SendFrame(
                frame_bytes(tagged(73, data@)),
            ),
    {
        let mut actions: Vec<ProxyAction> = Vec::new();
        actions.push(ProxyAction::WriteMaster(crate::relay::copy_bytes(data)));
        if self.socket_connected {
            actions.push(ProxyAction::SendFrame(tee_frame(73, data)));
        }
        actions
    }

    /// The shell wrote: forward to the terminal, and tee a frame tagged
    /// `'O'` to the agent when it is connected.
    pub fn on_master_data(&self, data: &Vec<u8>) -> (actions: Vec<ProxyAction>)
        requires
            data@.len() <= BUF_SIZE,
        ensures
            actions@.len() == (if self.connected() {
                2int
            } else {
                1int
            }),
            actions@[0]@ == ProxyActionModel::WriteStdout(data@),
            self.connected() ==> actions@[1]@ == ProxyActionModel::SendFrame(
                frame_bytes(tagged(79, data@)),
            ),
    {
        let mut actions: Vec<ProxyAction> = Vec::new();
        actions.push(ProxyAction::WriteStdout(crate::relay::copy_bytes(data)));
        if self.socket_connected {
            actions.push(ProxyAction::SendFrame(tee_frame(79, data)));
        }
        actions
    }

    /// The terminal was resized: program the new size onto the PTY
    /// master, and tell the agent when it is connected.
    pub fn on_winch(&self, cols: u16, rows: u16) -> (actions: Vec<ProxyAction>)
        ensures
            actions@.len() == (if self.connected() {
                2int
            } else {
                1int
            }),
            actions@[0]@ == ProxyActionModel::SetPtySize(cols, rows),
            self.connected() ==> actions@[1]@ == ProxyActionModel::SendFrame(
                frame_bytes(control_json(ControlModel::Resize(cols, rows))),
            ),
    {
        let mut actions: Vec<ProxyAction> = Vec::new();
        actions.push(ProxyAction::SetPtySize(cols, rows));
        if self.socket_connected {
            let msg = control_json_bytes(&ControlMessage::Resize { cols, rows });
            proof {
                lemma_resize_json_short(cols, rows);
            }
            actions.push(ProxyAction::SendFrame(encode_frame(&msg)));
        }
        actions
    }

    /// Whether to try reconnecting now: only while disconnected, and at
    /// most once per interval. A `true` records the attempt.
    pub fn should_reconnect(&mut self, now_ms: u64) -> (r: bool)
        ensures
            r == (!old(self).connected() && (old(self).last_attempt() is None || (old(
                self,
            ).last_attempt() matches Some(t) && now_ms >= t + RECONNECT_INTERVAL_SECS * 1000))),
            r ==> final(self).last_attempt() == Some(now_ms),
            !r ==> *final(self) == *old(self),
            final(self).connected() == old(self).connected(),
            final(self).buffered() == old(self).buffered(),
    {
        if self.socket_connected {
            return false;
        }
        let due = match self.last_reconnect_ms {
            None => true,
            Some(t) => now_ms >= t && now_ms - t >= RECONNECT_INTERVAL_SECS * 1000,
        };
        if due {
            self.last_reconnect_ms = Some(now_ms);
        }
        due
    }

    /// A connect to the agent succeeded: start a fresh frame buffer and
    /// send the registration, then the current terminal size if known.
    pub fn on_connected(&mut self, reg: &Registration, size: Option<(u16, u16)>) -> (actions: Vec<
        ProxyAction,
    >)
        requires
            registration_json(reg@).len() <= u32::MAX,
        ensures
            final(self).connected(),
            final(self).buffered() =~= Seq::<u8>::empty(),
            final(self).last_attempt() == old(self).last_attempt(),
            actions@.len() == (if size is Some {
                2int
            } else {
                1int
            }),
            actions@[0]@ == ProxyActionModel::SendFrame(frame_bytes(registration_json(reg@))),
            size matches Some((c, r)) ==> actions@[1]@ == ProxyActionModel::SendFrame(
                frame_bytes(control_json(ControlModel::Resize(c, r))),
            ),
    {
        self.socket_connected = true;
        self.decoder.clear();
        let mut actions: Vec<ProxyAction> = Vec::new();
        let reg_bytes = registration_json_bytes(reg);
        actions.push(ProxyAction::SendFrame(encode_frame(&reg_bytes)));
        match size {
            Some((cols, rows)) => {
                let msg = control_json_bytes(&ControlMessage::Resize { cols, rows });
                proof {
                    lemma_resize_json_short(cols, rows);
                }
                actions.push(ProxyAction::SendFrame(encode_frame(&msg)));
            },
            None => {
            },
        }
        actions
    }

    /// The agent socket dropped: forget it and its half-read frame; a
    /// reconnect will be tried on a later tick.
    pub fn on_socket_closed(&mut self)
        ensures
            !final(self).connected(),
            final(self).buffered() =~= Seq::<u8>::empty(),
            final(self).last_attempt() == old(self).last_attempt(),
    {
        self.socket_connected = false;
        self.decoder.clear();
    }

    /// Bytes arrived from the agent: buffer them, drain every complete
    /// frame, and act on each in order. A close order ends the session:
    /// the remaining actions are dropped and `true` comes back.
    pub fn on_socket_data(&mut self, data: &Vec<u8>) -> (r: (Vec<ProxyAction>, bool))
        requires
            old(self).connected(),
        ensures
            final(self).connected(),
            final(self).last_attempt() == old(self).last_attempt(),
            ({
                let spec_r = buf_actions(old(self).buffered() + data@);
                &&& r.0@.map_values(|a: ProxyAction| a@) == spec_r.0
                &&& final(self).buffered() == spec_r.1
                &&& r.1 == spec_r.2
            }),
    {
        self.decoder.push_bytes(data);
        let ghost buf0 = self.decoder@;
        let mut actions: Vec<ProxyAction> = Vec::new();
        proof {
            assert(actions@.map_values(|a: ProxyAction| a@) =~= Seq::<ProxyActionModel>::empty());
        }
        loop
            invariant
                self.socket_connected == old(self).socket_connected,
                old(self).connected(),
                self.last_reconnect_ms == old(self).last_reconnect_ms,
                buf0 == old(self).buffered() + data@,
                ({
                    let whole = buf_actions(buf0);
                    let here = buf_actions(self.decoder@);
                    &&& whole.0 == actions@.map_values(|a: ProxyAction| a@) + here.0
                    &&& whole.1 == here.1
                    &&& whole.2 == here.2
                }),
            decreases self.decoder@.len(),
        {
            let ghost cur = self.decoder@;
            let ghost c = drop_zero_frames(cur);
            let next = self.decoder.next_frame(usize::MAX);
            match next {
                Err(_) => {
                    proof {
                        assert(be32_val(c) <= u32::MAX);
                        assert(false);
                    }
                },
                Ok(None) => {
                    proof {
                        let here = buf_actions(cur);
                        assert(here.0 =~= Seq::<ProxyActionModel>::empty());
                        assert(actions@.map_values(|a: ProxyAction| a@) + here.0
                            =~= actions@.map_values(|a: ProxyAction| a@));
                    }
                    return (actions, false);
                },
                Ok(Some(payload)) => {
                    let ghost p = c.subrange(4, 4 + be32_val(c));
                    let ghost rest = c.skip(4 + be32_val(c));
                    let ghost acc0 = actions@.map_values(|a: ProxyAction| a@);
                    proof {
                        lemma_drop_zero_le_len(cur);
                        assert(self.decoder@.len() < cur.len());
                    }
                    let exit = match parse_control_message(&payload) {
                        Some(ControlMessage::Input { data: d }) => {
                            actions.push(ProxyAction::WriteMaster(d));
                            false
                        },
                        Some(ControlMessage::Resize { cols, rows }) => {
                            actions.push(ProxyAction::SetPtySize(cols, rows));
                            false
                        },
                        Some(ControlMessage::Close) => {
                            actions.push(ProxyAction::SignalChildHup);
                            actions.push(ProxyAction::ExitClean);
                            true
                        },
                        None => {
                            actions.push(ProxyAction::WriteMaster(payload));
                            false
                        },
                    };
                    proof {
                        let fa = frame_action(p);
                        assert(actions@.map_values(|a: ProxyAction| a@) =~= acc0 + fa.0);
                        if !fa.1 {
                            let whole = buf_actions(buf0);
                            let more = buf_actions(rest);
                            assert(whole.0 =~= actions@.map_values(|a: ProxyAction| a@) + more.0);
                        }
                    }
                    if exit {
                        return (actions, true);
                    }
                },
            }
        }
    }
}

/// A resize message is a handful of bytes, well under the frame cap.
proof fn lemma_resize_json_short(cols: u16, rows: u16)
    ensures
        control_json(ControlModel::Resize(cols, rows)).len() <= 64,
{
    reveal_with_fuel(crate::wire::pow10, 6);
    crate::wire::lemma_dec_digits_len(cols as nat, 5);
    crate::wire::lemma_dec_digits_len(rows as nat, 5);
}

/// Frame one teed chunk: the tag byte, then the chunk, length-prefixed.
fn tee_frame(tag: u8, data: &Vec<u8>) -> (r: Vec<u8>)
    requires
        data@.len() <= BUF_SIZE,
    ensures
        r@ == frame_bytes(tagged(tag, data@)),
{
    let mut msg: Vec<u8> = Vec::new();
    msg.push(tag);
    crate::wire::push_all(&mut msg, data);
    proof {
        assert(msg@ =~= tagged(tag, data@));
    }
    encode_frame(&msg)
}

/// How the shell's end becomes the proxy's exit code: the shell's own
/// code is passed through, death by signal becomes `128` plus the signal
/// number, and anything else is `1`.
#[derive(Debug, Clone, Copy)]
pub enum WaitInfo {
    /// The shell exited with this code.
    Exited(i32),
    /// The shell died of this signal.
    Signaled(i32),
    /// The wait failed or reported something else.
    Unknown,
}

pub fn exit_code_for(w: &WaitInfo) -> (r: i32)
    requires
        w matches WaitInfo::Signaled(s) ==> 0 <= *s <= 64,
    ensures
        match w {
            WaitInfo::Exited(c) => r == c,
            WaitInfo::Signaled(s) => r == 128 + *s,
            WaitInfo::Unknown => r == 1,
        },
{
    match w {
        WaitInfo::Exited(c) => *c,
        WaitInfo::Signaled(s) => 128 + *s,
        WaitInfo::Unknown => 1,
    }
}

/// The shell to run: the `SHELL` environment variable when it is set and
/// non-empty, else `/bin/zsh`.
pub fn choose_shell(env_shell: Option<String>) -> (r: String)
    ensures
        match env_shell {
            Some(s) => if s@.len() > 0 {
                r@ == s@
            } else {
                r@ == "/bin/zsh"@
            },
            None => r@ == "/bin/zsh"@,
        },
{
    match env_shell {
        Some(s) => {
            if s.as_str().is_empty() {
                "/bin/zsh".to_owned()
            } else {
                s
            }
        },
        None => "/bin/zsh".to_owned(),
    }
}

/// Build the registration the proxy announces itself with: the display
/// name is the shell, a dash, and the working directory.
pub fn make_registration(shell: &Vec<u8>, cwd: &Vec<u8>, pid: u32, tty: &Vec<u8>) -> (r:
    Registration)
    ensures
        r@.name == shell@ + seq![32u8, 45u8, 32u8] + cwd@,
        r@.shell == shell@,
        r@.pid == pid,
        r@.tty == tty@,
        r@.proxy_version == 1u8,
{
    let mut name: Vec<u8> = Vec::new();
    crate::wire::push_all(&mut name, shell);
    name.push(32);
    name.push(45);
    name.push(32);
    crate::wire::push_all(&mut name, cwd);
    proof {
        assert(name@ =~= shell@ + seq![32u8, 45u8, 32u8] + cwd@);
    }
    Registration {
        name,
        shell: crate::relay::copy_bytes(shell),
        pid,
        tty: crate::relay::copy_bytes(tty),
        proxy_version: 1,
    }
}

} // verus!
