//! Core of a remote-terminal system: the frame codec used on the control
//! socket between a PTY proxy and a tray agent, the agent's session
//! bookkeeping, the proxy's event-loop decisions, and the relay's
//! per-session fanout state with bounded scrollback.
//!
//! All I/O (sockets, PTYs, signals, processes) lives outside this crate;
//! the functions here compute over plain values and carry contracts.

pub mod codec;
pub mod relay;
pub mod wire;
pub mod agent;
pub mod proxy;
pub mod ipc;
pub mod menu;
