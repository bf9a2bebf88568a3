//! ARM64 vCPUs: their power states, their exits, the workers that run
//! them and the machine around them.
pub mod cpus;
pub mod exits;
pub mod hvf;
pub mod laws;
pub mod worker;
