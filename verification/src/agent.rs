//! The agent's session server: bookkeeping for connected proxies, the
//! frame dispatch that turns proxy traffic into session events, and the
//! per-connection lifecycle that guarantees a well-formed event stream:
//! one `Attached` first, then only `Output` and `SessionResize`, and one
//! final `Detached`.
//!
//! The sockets themselves are driven outside the crate; bytes and frames
//! are handed in, events and actions are handed back.

use vstd::prelude::*;
use crate::wire::{
    ControlMessage, ControlModel, Registration, control_json,
    control_json_bytes, parse_control, parse_control_message, string_from_utf8,
};
use vstd::utf8::{valid_utf8, encode_utf8};
use crate::codec::{encode_frame, frame_bytes};

verus! {

/// Path of the domain socket the agent listens on for proxy connections.
pub const SOCKET_PATH: &'static str = "/tmp/terminal-remote.sock";

/// What the agent knows of a connected proxy session.
#[derive(Debug, Clone)]
pub struct PtySessionInfo {
    pub name: String,
    pub shell: String,
    pub pid: u32,
    pub tty: String,
}

/// The mathematical model of a session's registration info.
#[verifier::ext_equal]
pub struct InfoModel {
    pub name: Seq<char>,
    pub shell: Seq<char>,
    pub pid: u32,
    pub tty: Seq<char>,
}

impl View for PtySessionInfo {
    type V = InfoModel;

    open spec fn view(&self) -> InfoModel {
        InfoModel { name: self.name@, shell: self.shell@, pid: self.pid, tty: self.tty@ }
    }
}

/// Decode a wire registration into session info. The byte strings must
/// be valid UTF-8, as JSON text always is; anything else is
/// refused, and the connection with it.
pub fn registration_to_info(reg: Registration) -> (r: Option<PtySessionInfo>)
    ensures
        r is Some <==> valid_utf8(reg@.name) && valid_utf8(reg@.shell) && valid_utf8(reg@.tty),
        r matches Some(info) ==> {
            &&& encode_utf8(info@.name) == reg@.name
            &&& encode_utf8(info@.shell) == reg@.shell
            &&& encode_utf8(info@.tty) == reg@.tty
            &&& info@.pid == reg@.pid
        },
{
    let Registration { name, shell, pid, tty, proxy_version: _ } = reg;
    let name_s = match string_from_utf8(name) {
        Some(s) => s,
        None => {
            return None;
        },
    };
    let shell_s = match string_from_utf8(shell) {
        Some(s) => s,
        None => {
            return None;
        },
    };
    let tty_s = match string_from_utf8(tty) {
        Some(s) => s,
        None => {
            return None;
        },
    };
    Some(PtySessionInfo { name: name_s, shell: shell_s, pid, tty: tty_s })
}

/// The event, if any, that one proxy frame produces on a live session.
/// The tag byte decides: `'O'` carries shell output for the browsers,
/// `'I'` is the local input echo and is dropped, `'{'` is a JSON control
/// message of which only a resize becomes an event; anything else is
/// ignored.
pub open spec fn spec_dispatch(sid: Seq<char>, payload: Seq<u8>) -> Option<PtyEventModel>
    recommends
        payload.len() > 0,
{
    if payload[0] == 79 {
        Some(PtyEventModel::Output(sid, payload.skip(1)))
    } else if payload[0] == 73 {
        None
    } else if payload[0] == 123 {
        match parse_control(payload) {
            Some(ControlModel::Resize(c, w)) => Some(PtyEventModel::SessionResize(sid, c, w)),
            _ => None,
        }
    } else {
        None
    }
}

/// Turn one non-empty frame from a proxy into a session event, or drop it.
pub fn dispatch_frame(session_id: &String, payload: &Vec<u8>) -> (r: Option<PtyEvent>)
    requires
        payload@.len() > 0,
    ensures
        r is None <==> spec_dispatch(session_id@, payload@) is None,
        r matches Some(e) ==> spec_dispatch(session_id@, payload@) == Some(e@),
{
    let tag = payload[0];
    if tag == 79 {
        let data = crate::codec::tail_from(payload, 1);
        Some(PtyEvent::Output { session_id: clone_string(session_id), data })
    } else if tag == 73 {
        None
    } else if tag == 123 {
        match parse_control_message(payload) {
            Some(ControlMessage::Resize { cols, rows }) => Some(
                PtyEvent::SessionResize { session_id: clone_string(session_id), cols, rows },
            ),
            _ => None,
        }
    } else {
        None
    }
}

/// Events emitted by the agent's session server.
#[derive(Debug, Clone)]
pub enum PtyEvent {
    /// A new proxy connected and registered.
    Attached { session_id: String, session_name: String },
    /// A proxy disconnected.
    Detached { session_id: String },
    /// Terminal output from a session, bound for the browsers.
    Output { session_id: String, data: Vec<u8> },
    /// The terminal was resized on the workstation.
    SessionResize { session_id: String, cols: u16, rows: u16 },
    /// An error to report.
    Error(String),
}

/// The mathematical model of a session event.
pub enum PtyEventModel {
    Attached(Seq<char>, Seq<char>),
    Detached(Seq<char>),
    Output(Seq<char>, Seq<u8>),
    SessionResize(Seq<char>, u16, u16),
    Error(Seq<char>),
}

impl View for PtyEvent {
    type V = PtyEventModel;

    open spec fn view(&self) -> PtyEventModel {
        match self {
            PtyEvent::Attached { session_id, session_name } => PtyEventModel::Attached(
                session_id@,
                session_name@,
            ),
            PtyEvent::Detached { session_id } => PtyEventModel::Detached(session_id@),
            PtyEvent::Output { session_id, data } => PtyEventModel::Output(session_id@, data@),
            PtyEvent::SessionResize { session_id, cols, rows } => PtyEventModel::SessionResize(
                session_id@,
                *cols,
                *rows,
            ),
            PtyEvent::Error(e) => PtyEventModel::Error(e@),
        }
    }
}

/// Commands the agent accepts for its sessions.
#[derive(Debug)]
pub enum PtyCommand {
    /// Browser input to inject into a session's shell.
    Write { session_id: String, data: Vec<u8> },
    /// Close a session's terminal window, or the session itself.
    KillSession { session_id: String },
    /// Stop the server, signalling every tracked shell.
    Shutdown,
}

/// What the agent asks its surroundings to do for a command; the I/O
/// itself happens outside the crate.
#[derive(Debug, Clone)]
pub enum AgentAction {
    /// Send a framed message to the session's proxy.
    SendFrame { session_id: String, bytes: Vec<u8> },
    /// Ask the OS scripting collaborator to close the window on this TTY.
    /// Forced for a live session, busy-checked for a dead one.
    CloseWindow { tty: String, force: bool },
    /// Signal the recorded shell process to terminate.
    SignalTerm { pid: u32 },
    /// Stop the command loop.
    Stop,
}

/// The mathematical model of an action.
pub enum ActionModel {
    SendFrame(Seq<char>, Seq<u8>),
    CloseWindow(Seq<char>, bool),
    SignalTerm(u32),
    Stop,
}

impl View for AgentAction {
    type V = ActionModel;

    open spec fn view(&self) -> ActionModel {
        match self {
            AgentAction::SendFrame { session_id, bytes } => ActionModel::SendFrame(
                session_id@,
                bytes@,
            ),
            AgentAction::CloseWindow { tty, force } => ActionModel::CloseWindow(tty@, *force),
            AgentAction::SignalTerm { pid } => ActionModel::SignalTerm(*pid),
            AgentAction::Stop => ActionModel::Stop,
        }
    }
}

/// Relies on `uuid::Uuid::new_v4` and its `Display` form: a version-4
/// UUID printed as the 36-character hyphenated lowercase string. The
/// value is random; only its length is promised.
#[verifier::external_body]
pub fn new_session_id() -> (r: String)
    ensures
        r@.len() == 36,
{
    uuid::Uuid::new_v4().to_string()
}

/// Bookkeeping for connected proxies: the live sessions, and the TTY of
/// every session ever registered. The TTY map outlives the session on
/// purpose, so a late close request can still find the window.
pub struct PtyManager {
    sessions: Vec<(String, PtySessionInfo)>,
    tty_map: Vec<(String, String)>,
}

impl PtyManager {
    /// Ids and infos of the live sessions, in registration order.
    pub closed spec fn sessions_model(self) -> Seq<(Seq<char>, InfoModel)> {
        self.sessions@.map_values(|p: (String, PtySessionInfo)| (p.0@, p.1@))
    }

    /// Session id to TTY path, in first-registration order.
    pub closed spec fn tty_model(self) -> Seq<(Seq<char>, Seq<char>)> {
        self.tty_map@.map_values(|p: (String, String)| (p.0@, p.1@))
    }

    pub open spec fn session_ids(self) -> Seq<Seq<char>> {
        self.sessions_model().map_values(|p: (Seq<char>, InfoModel)| p.0)
    }

    pub open spec fn tty_ids(self) -> Seq<Seq<char>> {
        self.tty_model().map_values(|p: (Seq<char>, Seq<char>)| p.0)
    }

    pub open spec fn has_session(self, sid: Seq<char>) -> bool {
        self.session_ids().contains(sid)
    }

    pub open spec fn has_tty(self, sid: Seq<char>) -> bool {
        self.tty_ids().contains(sid)
    }

    /// Ids are unique in both maps.
    pub closed spec fn wf(self) -> bool {
        self.session_ids().no_duplicates() && self.tty_ids().no_duplicates()
    }

    pub fn new() -> (r: PtyManager)
        ensures
            r.wf(),
            r.sessions_model() =~= Seq::<(Seq<char>, InfoModel)>::empty(),
            r.tty_model() =~= Seq::<(Seq<char>, Seq<char>)>::empty(),
    {
        let r = PtyManager { sessions: Vec::new(), tty_map: Vec::new() };
        proof {
            assert(r.session_ids() =~= Seq::<Seq<char>>::empty());
            assert(r.tty_ids() =~= Seq::<Seq<char>>::empty());
        }
        r
    }

    fn find_session(&self, sid: &String) -> (r: Option<usize>)
        ensures
            r is Some <==> self.has_session(sid@),
            r matches Some(i) ==> 0 <= i < self.sessions_model().len()
                && self.sessions_model()[i as int].0 == sid@,
    {
        let n = self.sessions.len();
        let mut i: usize = 0;
        while i < n
            invariant
                n == self.sessions@.len(),
                0 <= i <= n,
                forall|j: int| 0 <= j < i ==> self.sessions_model()[j].0 != sid@,
            decreases n - i,
        {
            if self.sessions[i].0.eq(sid) {
                proof {
                    assert(self.session_ids()[i as int] == sid@);
                }
                return Some(i);
            }
            i = i + 1;
        }
        proof {
            let ids = self.session_ids();
            assert(forall|j: int| 0 <= j < ids.len() ==> #[trigger] ids[j] != sid@);
        }
        None
    }

    fn find_tty(&self, sid: &String) -> (r: Option<usize>)
        ensures
            r is Some <==> self.has_tty(sid@),
            r matches Some(i) ==> 0 <= i < self.tty_model().len() && self.tty_model()[i as int].0
                == sid@,
    {
        let n = self.tty_map.len();
        let mut i: usize = 0;
        while i < n
            invariant
                n == self.tty_map@.len(),
                0 <= i <= n,
                forall|j: int| 0 <= j < i ==> self.tty_model()[j].0 != sid@,
            decreases n - i,
        {
            if self.tty_map[i].0.eq(sid) {
                proof {
                    assert(self.tty_ids()[i as int] == sid@);
                }
                return Some(i);
            }
            i = i + 1;
        }
        proof {
            let ids = self.tty_ids();
            assert(forall|j: int| 0 <= j < ids.len() ==> #[trigger] ids[j] != sid@);
        }
        None
    }

    /// Track a freshly registered session and record its TTY. A duplicate
    /// session id is refused and changes nothing.
    pub fn register_session(&mut self, session_id: String, info: PtySessionInfo) -> (r: bool)
        requires
            old(self).wf(),
        ensures
            final(self).wf(),
            r == !old(self).has_session(session_id@),
            !r ==> *final(self) == *old(self),
            r ==> final(self).sessions_model() == old(self).sessions_model().push(
                (session_id@, info@),
            ),
            r ==> final(self).has_session(session_id@) && final(self).has_tty(session_id@),
            r && old(self).has_tty(session_id@) ==> exists|i: int|
                {
                    &&& 0 <= i < old(self).tty_model().len()
                    &&& old(self).tty_model()[i].0 == session_id@
                    &&& final(self).tty_model() == old(self).tty_model().update(
                        i,
                        (session_id@, info.tty@),
                    )
                },
            r && !old(self).has_tty(session_id@) ==> final(self).tty_model() == old(
                self,
            ).tty_model().push((session_id@, info.tty@)),
    {
        if self.find_session(&session_id).is_some() {
            return false;
        }
        let ghost s_before = self.sessions_model();
        let ghost t_before = self.tty_model();
        let ghost sid = session_id@;
        let sid_for_tty = session_id.clone();
        let tty_copy = clone_string(&info.tty);
        match self.find_tty(&session_id) {
            Some(i) => {
                let ghost ghost_i = i as int;
                let mut pair = self.tty_map.remove(i);
                pair.1 = tty_copy;
                self.tty_map.insert(i, pair);
                proof {
                    assert(self.tty_model() =~~= t_before.update(ghost_i, (sid, info.tty@)));
                    assert(self.tty_ids() =~= old(self).tty_ids());
                }
            },
            None => {
                self.tty_map.push((sid_for_tty, tty_copy));
                proof {
                    assert(self.tty_model() =~~= t_before.push((sid, info.tty@)));
                    assert(self.tty_ids() =~= old(self).tty_ids().push(sid));
                    lemma_ids_push_fresh(old(self).tty_ids(), sid);
                }
            },
        }
        self.sessions.push((session_id, info));
        proof {
            assert(self.sessions_model() =~~= s_before.push((sid, info@)));
            assert(self.session_ids() =~= old(self).session_ids().push(sid));
            lemma_ids_push_fresh(old(self).session_ids(), sid);
            assert(self.session_ids().last() == sid);
            assert(self.tty_ids().contains(sid)) by {
                if old(self).has_tty(sid) {
                    let j = choose|j: int|
                        0 <= j < old(self).tty_ids().len() && old(self).tty_ids()[j] == sid;
                    assert(self.tty_ids()[j] == sid);
                } else {
                    assert(self.tty_ids().last() == sid);
                }
            }
        }
        true
    }

    /// Drop a session when its proxy disconnects. The TTY mapping stays,
    /// so that a late close request can still resolve the window.
    pub fn remove_session(&mut self, session_id: &String)
        requires
            old(self).wf(),
        ensures
            final(self).wf(),
            final(self).tty_model() == old(self).tty_model(),
            !final(self).has_session(session_id@),
            !old(self).has_session(session_id@) ==> *final(self) == *old(self),
            old(self).has_session(session_id@) ==> exists|i: int|
                {
                    &&& 0 <= i < old(self).sessions_model().len()
                    &&& old(self).sessions_model()[i].0 == session_id@
                    &&& final(self).sessions_model() == old(self).sessions_model().remove(i)
                },
    {
        match self.find_session(session_id) {
            None => {
            },
            Some(i) => {
                let ghost before = self.sessions_model();
                let ghost ghost_i = i as int;
                self.sessions.remove(i);
                proof {
                    assert(self.sessions_model() =~= before.remove(ghost_i));
                    assert(self.session_ids() =~= old(self).session_ids().remove(ghost_i));
                    lemma_ids_remove(old(self).session_ids(), ghost_i);
                    assert(!self.has_session(session_id@)) by {
                        if self.has_session(session_id@) {
                            let j = choose|j: int|
                                0 <= j < self.session_ids().len() && self.session_ids()[j]
                                    == session_id@;
                            let j0 = if j < ghost_i {
                                j
                            } else {
                                j + 1
                            };
                            assert(old(self).session_ids()[j0] == session_id@);
                            assert(old(self).session_ids()[ghost_i] == session_id@);
                        }
                    }
                }
            },
        }
    }

    /// The TTY recorded for a session id, live or dead.
    pub fn resolve_tty(&self, session_id: &String) -> (r: Option<String>)
        ensures
            r is Some <==> self.has_tty(session_id@),
            r matches Some(t) ==> exists|i: int|
                {
                    &&& 0 <= i < self.tty_model().len()
                    &&& self.tty_model()[i].0 == session_id@
                    &&& self.tty_model()[i].1 == t@
                },
    {
        match self.find_tty(session_id) {
            None => None,
            Some(i) => {
                let t = clone_string(&self.tty_map[i].1);
                proof {
                    assert(self.tty_model()[i as int].1 == t@);
                }
                Some(t)
            },
        }
    }

    /// The shell pid recorded for a live session.
    pub fn session_pid(&self, session_id: &String) -> (r: Option<u32>)
        ensures
            r is Some <==> self.has_session(session_id@),
            r matches Some(p) ==> exists|i: int|
                {
                    &&& 0 <= i < self.sessions_model().len()
                    &&& self.sessions_model()[i].0 == session_id@
                    &&& self.sessions_model()[i].1.pid == p
                },
    {
        match self.find_session(session_id) {
            None => None,
            Some(i) => Some(self.sessions[i].1.pid),
        }
    }

    /// Number of live sessions.
    pub fn session_count(&self) -> (r: usize)
        ensures
            r == self.sessions_model().len(),
    {
        self.sessions.len()
    }

    /// Carry out one command: turn it into the actions the surroundings
    /// must perform. A `KillSession` on a session whose TTY is known asks
    /// the window to close: forced while the session lives, busy-checked
    /// after it died. With no TTY on record, a live session's proxy is
    /// told to close instead; a dead one needs nothing. `Shutdown` signals
    /// every tracked shell and stops the loop, dropping every session.
    pub fn handle_command(&mut self, cmd: &PtyCommand) -> (actions: Vec<AgentAction>)
        requires
            old(self).wf(),
            cmd matches PtyCommand::Write { session_id, data } ==> data@.len()
                <= crate::codec::MAX_FRAME_LEN,
        ensures
            final(self).wf(),
            final(self).tty_model() == old(self).tty_model(),
            match cmd {
                PtyCommand::Write { session_id, data } => {
                    &&& *final(self) == *old(self)
                    &&& old(self).has_session(session_id@) ==> actions@.len() == 1
                        && actions@[0]@ == ActionModel::SendFrame(
                        session_id@,
                        frame_bytes(control_json(ControlModel::Input(data@))),
                    )
                    &&& !old(self).has_session(session_id@) ==> actions@.len() == 0
                },
                PtyCommand::KillSession { session_id } => {
                    &&& *final(self) == *old(self)
                    &&& old(self).has_tty(session_id@) ==> actions@.len() == 1
                        && (exists|i: int|
                        {
                            &&& 0 <= i < old(self).tty_model().len()
                            &&& old(self).tty_model()[i].0 == session_id@
                            &&& actions@[0]@ == ActionModel::CloseWindow(
                                old(self).tty_model()[i].1,
                                old(self).has_session(session_id@),
                            )
                        })
                    &&& !old(self).has_tty(session_id@) && old(self).has_session(session_id@)
                        ==> actions@.len() == 1 && actions@[0]@ == ActionModel::SendFrame(
                        session_id@,
                        frame_bytes(control_json(ControlModel::Close)),
                    )
                    &&& !old(self).has_tty(session_id@) && !old(self).has_session(session_id@)
                        ==> actions@.len() == 0
                },
                PtyCommand::Shutdown => {
                    &&& final(self).sessions_model() =~= Seq::<(Seq<char>, InfoModel)>::empty()
                    &&& actions@.len() == old(self).sessions_model().len() + 1
                    &&& forall|i: int|
                        0 <= i < old(self).sessions_model().len() ==> (#[trigger] actions@[i])@
                            == ActionModel::SignalTerm(old(self).sessions_model()[i].1.pid)
                    &&& actions@.last()@ == ActionModel::Stop
                },
            },
    {
        let mut actions: Vec<AgentAction> = Vec::new();
        match cmd {
            PtyCommand::Write { session_id, data } => {
                if self.find_session(session_id).is_some() {
                    let msg = control_json_bytes(
                        &ControlMessage::Input { data: crate::relay::copy_bytes(data) },
                    );
                    proof {
                        crate::wire::lemma_byte_list_len(data@);
                    }
                    let framed = encode_frame_checked(msg);
                    actions.push(
                        AgentAction::SendFrame { session_id: clone_string(session_id), bytes: framed },
                    );
                }
                actions
            },
            PtyCommand::KillSession { session_id } => {
                let live = self.find_session(session_id).is_some();
                match self.resolve_tty(session_id) {
                    Some(tty) => {
                        actions.push(AgentAction::CloseWindow { tty, force: live });
                        actions
                    },
                    None => {
                        if live {
                            let msg = control_json_bytes(&ControlMessage::Close);
                            let framed = encode_frame_checked(msg);
                            actions.push(
                                AgentAction::SendFrame {
                                    session_id: clone_string(session_id),
                                    bytes: framed,
                                },
                            );
                        }
                        actions
                    },
                }
            },
            PtyCommand::Shutdown => {
                let n = self.sessions.len();
                let mut i: usize = 0;
                let ghost before = self.sessions_model();
                while i < n
                    invariant
                        n == self.sessions@.len(),
                        0 <= i <= n,
                        self.sessions_model() == before,
                        actions@.len() == i,
                        forall|j: int|
                            0 <= j < i ==> (#[trigger] actions@[j])@ == ActionModel::SignalTerm(
                                before[j].1.pid,
                            ),
                    decreases n - i,
                {
                    actions.push(AgentAction::SignalTerm { pid: self.sessions[i].1.pid });
                    i = i + 1;
                }
                actions.push(AgentAction::Stop);
                self.sessions.clear();
                proof {
                    assert(self.sessions_model() =~= Seq::<(Seq<char>, InfoModel)>::empty());
                    assert(self.session_ids() =~= Seq::<Seq<char>>::empty());
                }
                actions
            },
        }
    }
}

/// Frame a payload whose length is known to fit the length prefix.
fn encode_frame_checked(payload: Vec<u8>) -> (r: Vec<u8>)
    requires
        payload@.len() <= u32::MAX,
    ensures
        r@ == frame_bytes(payload@),
{
    encode_frame(&payload)
}

/// Clone with the view kept.
pub fn clone_string(s: &String) -> (r: String)
    ensures
        r@ == s@,
{
    s.clone()
}

proof fn lemma_ids_push_fresh(s: Seq<Seq<char>>, x: Seq<char>)
    requires
        s.no_duplicates(),
        !s.contains(x),
    ensures
        s.push(x).no_duplicates(),
{
    assert forall|i: int, j: int|
        0 <= i < s.push(x).len() && 0 <= j < s.push(x).len() && i != j implies s.push(x)[i]
        != s.push(x)[j] by {
        if i < s.len() && j < s.len() {
        } else if i < s.len() {
            assert(s[i] == s.push(x)[i]);
        } else {
            assert(s[j] == s.push(x)[j]);
        }
    }
}

proof fn lemma_ids_remove(s: Seq<Seq<char>>, j: int)
    requires
        s.no_duplicates(),
        0 <= j < s.len(),
    ensures
        s.remove(j).no_duplicates(),
{
    let t = s.remove(j);
    assert forall|a: int, b: int| 0 <= a < t.len() && 0 <= b < t.len() && a != b implies t[a]
        != t[b] by {
        let a0 = if a < j {
            a
        } else {
            a + 1
        };
        let b0 = if b < j {
            b
        } else {
            b + 1
        };
        assert(t[a] == s[a0] && t[b] == s[b0]);
    }
}


/// Why a proxy connection was refused.
#[derive(Debug, PartialEq, Eq, Structural, Clone, Copy)]
pub enum ProtocolError {
    /// The registration frame was not a well-formed registration.
    BadRegistration,
    /// The minted session id is already live.
    DuplicateSession,
}

/// Phase of one proxy connection.
#[derive(Debug, PartialEq, Eq, Structural, Clone, Copy)]
pub enum ConnPhase {
    AwaitRegistration,
    Active,
    Closed,
}

/// An event a live session may emit between attach and detach.
pub open spec fn is_mid_event(e: PtyEventModel, sid: Seq<char>) -> bool {
    match e {
        PtyEventModel::Output(s, _) => s == sid,
        PtyEventModel::SessionResize(s, _, _) => s == sid,
        _ => false,
    }
}

pub open spec fn is_attached_event(e: PtyEventModel, sid: Seq<char>) -> bool {
    match e {
        PtyEventModel::Attached(s, _) => s == sid,
        _ => false,
    }
}

/// The event stream of a live connection: one `Attached` first, then
/// only output and resize events for the same session id.
pub open spec fn wf_active_stream(h: Seq<PtyEventModel>, sid: Seq<char>) -> bool {
    &&& h.len() >= 1
    &&& is_attached_event(h[0], sid)
    &&& forall|i: int| 1 <= i < h.len() ==> is_mid_event(#[trigger] h[i], sid)
}

/// The complete event stream of a registered connection: one `Attached`
/// first, one `Detached` last, and only output and resize events between.
pub open spec fn wf_closed_stream(h: Seq<PtyEventModel>, sid: Seq<char>) -> bool {
    &&& h.len() >= 2
    &&& is_attached_event(h[0], sid)
    &&& h.last() == PtyEventModel::Detached(sid)
    &&& forall|i: int| 1 <= i < h.len() - 1 ==> is_mid_event(#[trigger] h[i], sid)
}

/// The registration info a payload carries, if it is acceptable: the
/// canonical registration form with valid UTF-8 strings.
pub open spec fn spec_accept_registration(payload: Seq<u8>) -> Option<InfoModel> {
    match crate::wire::parse_registration(payload) {
        None => None,
        Some(m) => if valid_utf8(m.name) && valid_utf8(m.shell) && valid_utf8(m.tty) {
            Some(
                InfoModel {
                    name: vstd::utf8::decode_utf8(m.name),
                    shell: vstd::utf8::decode_utf8(m.shell),
                    pid: m.pid,
                    tty: vstd::utf8::decode_utf8(m.tty),
                },
            )
        } else {
            None
        },
    }
}

/// One accepted proxy connection, from registration to disconnect. The
/// ghost history records every event the connection emitted; the phase
/// invariant keeps that history well formed at all times.
pub struct AgentConnection {
    session_id: String,
    phase: ConnPhase,
    history: Ghost<Seq<PtyEventModel>>,
}

impl AgentConnection {
    /// The session id this connection was minted.
    pub closed spec fn sid(self) -> Seq<char> {
        self.session_id@
    }

    /// Every event this connection has emitted, in order.
    pub closed spec fn events(self) -> Seq<PtyEventModel> {
        self.history@
    }

    pub closed spec fn phase(self) -> ConnPhase {
        self.phase
    }

    /// Before registration nothing was emitted; while active the stream
    /// is one `Attached` then mid events; once closed it is either empty
    /// (never registered) or properly terminated by `Detached`.
    pub closed spec fn wf(self) -> bool {
        match self.phase {
            ConnPhase::AwaitRegistration => self.history@.len() == 0,
            ConnPhase::Active => wf_active_stream(self.history@, self.session_id@),
            ConnPhase::Closed => self.history@.len() == 0 || wf_closed_stream(
                self.history@,
                self.session_id@,
            ),
        }
    }

    /// A connection for a freshly minted session id.
    pub fn new(session_id: String) -> (r: AgentConnection)
        ensures
            r.wf(),
            r.phase() is AwaitRegistration,
            r.events() =~= Seq::<PtyEventModel>::empty(),
            r.sid() == session_id@,
    {
        AgentConnection {
            session_id,
            phase: ConnPhase::AwaitRegistration,
            history: Ghost(Seq::empty()),
        }
    }

    /// Handle one complete frame from the proxy.
    ///
    /// The first frame must be an acceptable registration: the session is
    /// then tracked in `mgr` and `Attached` is emitted. Anything else
    /// closes the connection with an error. Later frames are dispatched
    /// by tag; events carry this connection's session id.
    pub fn on_frame(&mut self, payload: &Vec<u8>, mgr: &mut PtyManager) -> (r: Result<
        Option<PtyEvent>,
        ProtocolError,
    >)
        requires
            old(self).wf(),
            !(old(self).phase() is Closed),
            old(mgr).wf(),
            payload@.len() > 0,
        ensures
            final(self).wf(),
            final(mgr).wf(),
            final(self).sid() == old(self).sid(),
            old(self).phase() is AwaitRegistration ==> match spec_accept_registration(payload@) {
                None => {
                    &&& r == Err::<Option<PtyEvent>, ProtocolError>(ProtocolError::BadRegistration)
                    &&& final(self).phase() is Closed
                    &&& final(self).events() == old(self).events()
                    &&& *final(mgr) == *old(mgr)
                },
                Some(info) => if old(mgr).has_session(old(self).sid()) {
                    &&& r == Err::<Option<PtyEvent>, ProtocolError>(ProtocolError::DuplicateSession)
                    &&& final(self).phase() is Closed
                    &&& final(self).events() == old(self).events()
                    &&& *final(mgr) == *old(mgr)
                } else {
                    &&& (r matches Ok(Some(e)) && e@ == PtyEventModel::Attached(
                        old(self).sid(),
                        info.name,
                    ))
                    &&& final(self).phase() is Active
                    &&& final(self).events() == seq![
                        PtyEventModel::Attached(old(self).sid(), info.name),
                    ]
                    &&& final(mgr).sessions_model() == old(mgr).sessions_model().push(
                        (old(self).sid(), info),
                    )
                    &&& final(mgr).has_session(old(self).sid())
                    &&& final(mgr).has_tty(old(self).sid())
                },
            },
            old(self).phase() is Active ==> {
                &&& *final(mgr) == *old(mgr)
                &&& final(self).phase() is Active
                &&& match spec_dispatch(old(self).sid(), payload@) {
                    None => r == Ok::<Option<PtyEvent>, ProtocolError>(None) && final(self).events()
                        == old(self).events(),
                    Some(em) => (r matches Ok(Some(e)) && e@ == em) && final(self).events() == old(
                        self,
                    ).events().push(em),
                }
            },
    {
        match self.phase {
            ConnPhase::AwaitRegistration => {
                let reg = match crate::wire::parse_registration_bytes(payload) {
                    None => {
                        self.phase = ConnPhase::Closed;
                        return Err(ProtocolError::BadRegistration);
                    },
                    Some(reg) => reg,
                };
                let info = match registration_to_info(reg) {
                    None => {
                        self.phase = ConnPhase::Closed;
                        return Err(ProtocolError::BadRegistration);
                    },
                    Some(info) => info,
                };
                proof {
                    vstd::utf8::encode_utf8_decode_utf8(info@.name);
                    vstd::utf8::encode_utf8_decode_utf8(info@.shell);
                    vstd::utf8::encode_utf8_decode_utf8(info@.tty);
                    assert(spec_accept_registration(payload@) == Some(info@));
                }
                let session_name = clone_string(&info.name);
                let sid_copy = clone_string(&self.session_id);
                let registered = mgr.register_session(sid_copy, info);
                if !registered {
                    self.phase = ConnPhase::Closed;
                    return Err(ProtocolError::DuplicateSession);
                }
                self.phase = ConnPhase::Active;
                let e = PtyEvent::Attached {
                    session_id: clone_string(&self.session_id),
                    session_name,
                };
                proof {
                    self.history@ = self.history@.push(e@);
                }
                proof {
                    assert(self.events() =~= seq![
                        PtyEventModel::Attached(old(self).sid(), spec_accept_registration(
                            payload@,
                        ).unwrap().name),
                    ]);
                }
                Ok(Some(e))
            },
            ConnPhase::Active => {
                match dispatch_frame(&self.session_id, payload) {
                    None => Ok(None),
                    Some(e) => {
                        proof {
                            self.history@ = self.history@.push(e@);
                        }
                        proof {
                            assert(is_mid_event(e@, self.session_id@));
                            assert(wf_active_stream(self.history@, self.session_id@)) by {
                                let h = self.history@;
                                let h0 = old(self).events();
                                assert(h == h0.push(e@));
                                assert(h[0] == h0[0]);
                                assert(forall|i: int|
                                    1 <= i < h.len() ==> is_mid_event(#[trigger] h[i], self.session_id@));
                            }
                        }
                        Ok(Some(e))
                    },
                }
            },
            ConnPhase::Closed => {
                // unreachable: the caller stops after the connection closed
                proof {
                    assert(false);
                }
                Ok(None)
            },
        }
    }

    /// The proxy's stream ended: drop the session (the TTY mapping stays)
    /// and emit `Detached` if the session had attached.
    pub fn on_disconnect(&mut self, mgr: &mut PtyManager) -> (r: Option<PtyEvent>)
        requires
            old(self).wf(),
            !(old(self).phase() is Closed),
            old(mgr).wf(),
        ensures
            final(self).wf(),
            final(mgr).wf(),
            final(self).sid() == old(self).sid(),
            final(self).phase() is Closed,
            final(mgr).tty_model() == old(mgr).tty_model(),
            old(self).phase() is Active ==> !final(mgr).has_session(old(self).sid()),
            old(self).phase() is Active ==> (r matches Some(e) && e@ == PtyEventModel::Detached(
                old(self).sid(),
            )) && final(self).events() == old(self).events().push(
                PtyEventModel::Detached(old(self).sid()),
            ) && wf_closed_stream(final(self).events(), final(self).sid()),
            old(self).phase() is AwaitRegistration ==> r is None && final(self).events() == old(
                self,
            ).events() && *final(mgr) == *old(mgr),
    {
        match self.phase {
            ConnPhase::AwaitRegistration => {
                self.phase = ConnPhase::Closed;
                None
            },
            _ => {
                mgr.remove_session(&self.session_id);
                self.phase = ConnPhase::Closed;
                let e = PtyEvent::Detached { session_id: clone_string(&self.session_id) };
                proof {
                    self.history@ = self.history@.push(e@);
                }
                proof {
                    let h = self.history@;
                    let h0 = old(self).events();
                    assert(h == h0.push(e@));
                    assert(h[0] == h0[0]);
                    assert(h.last() == PtyEventModel::Detached(self.session_id@));
                    assert(forall|i: int| 1 <= i < h.len() - 1 ==> is_mid_event(#[trigger] h[i], self.session_id@));
                }
                Some(e)
            },
        }
    }
}

/// The event stream of every accepted proxy connection is well shaped:
/// exactly one `Attached` opens it, exactly one `Detached` closes it,
/// and everything between is output or resize for that same session id.
pub proof fn lemma_event_stream_shape(h: Seq<PtyEventModel>, sid: Seq<char>)
    requires
        wf_closed_stream(h, sid),
    ensures
        h.len() >= 2,
        is_attached_event(h[0], sid),
        forall|i: int| 0 < i < h.len() ==> !is_attached_event(#[trigger] h[i], sid),
        h[h.len() - 1] == PtyEventModel::Detached(sid),
        forall|i: int| 0 <= i < h.len() - 1 ==> h[i] != PtyEventModel::Detached(sid),
        forall|i: int| 1 <= i < h.len() - 1 ==> is_mid_event(#[trigger] h[i], sid),
{
    assert forall|i: int| 0 < i < h.len() implies !is_attached_event(#[trigger] h[i], sid) by {
        if i < h.len() - 1 {
            assert(is_mid_event(h[i], sid));
        }
    }
    assert forall|i: int| 0 <= i < h.len() - 1 implies h[i] != PtyEventModel::Detached(sid) by {
        if i == 0 {
        } else {
            assert(is_mid_event(h[i], sid));
        }
    }
}


/// Tee fidelity across the control socket: a chunk of shell output the
/// proxy tees (tagged `'O'`) is dispatched by the agent to an `Output`
/// event carrying exactly those bytes, and a teed input echo (tagged
/// `'I'`) never becomes an event at all.
pub proof fn lemma_tee_round_trip(sid: Seq<char>, d: Seq<u8>)
    ensures
        spec_dispatch(sid, crate::proxy::tagged(79, d)) == Some(PtyEventModel::Output(sid, d)),
        spec_dispatch(sid, crate::proxy::tagged(73, d)) is None,
{
    let out = crate::proxy::tagged(79, d);
    assert(out[0] == 79);
    assert(out.skip(1) =~= d);
    let echo = crate::proxy::tagged(73, d);
    assert(echo[0] == 73);
}

} // verus!
