//! Monitoring the exit of a set of processes through one readiness multiplexer.
//!
//! A [`PidSet`] tracks a set of process ids. Each pid is turned into a waitable
//! exit handle that is attached to a single multiplexer, with the pid as its
//! token; a wait then blocks on the multiplexer until enough of the tracked
//! processes have exited, detaching and forgetting each one as it is observed.
//!
//! The library performs no system call itself. A wait is a state machine: the
//! functions that start one, and [`PidSet::resume`], hand back the next
//! [`Action`] for the caller to perform, and the caller feeds the outcome back
//! as an [`Event`], until the action is [`Action::Finished`].
pub mod monitor;

pub use monitor::{Action, Event, PidSet, PidSetError};
