use vstd::prelude::*;

pub mod capability;
pub mod clock;
pub mod ipc;
pub mod memory;
pub mod process;
pub mod rights;
pub mod workload;

verus! {

} // verus!
