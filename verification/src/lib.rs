//! Core of a Raft-based replicated state machine: a deterministic,
//! side-effect-free consensus module.  Given the current server state and one
//! input event, each handler mutates the in-memory state and records the side
//! effects the host must perform (messages to send, metadata to persist, log
//! entries to append, timers to reschedule) in a [`consensus::Tick`].
//!
//! The host owns all I/O: it persists whatever a returned `Tick` marks dirty,
//! dispatches the `Tick`'s outbound messages, and calls back into the module
//! on timer expiry and on inbound messages.

pub mod protos;
pub mod log;
pub mod state;
pub mod util;
pub mod config_state;
pub mod constraint;
pub mod consensus;
pub mod safety;
