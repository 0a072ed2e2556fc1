//! Processes and a wall-clock-free scheduler built on the capability
//! kernel. A process names its capabilities only through small local
//! `Handle`s, like a file-descriptor table.
use vstd::prelude::*;

pub mod scheduler;
pub mod table;
pub mod transfer;

pub use scheduler::{ProcessError, Scheduler};
pub use table::{Handle, Process, ProcessId};
pub use transfer::{apply_grants, resolve_grants, Grant, GrantError};

verus! {

/// The stamp of one event of a process.
pub type Stamp = crate::clock::Stamp<ProcessId>;

} // verus!
