//! Verified core of the SOKR reference plugins: the first-capable substrate
//! registry and the synchronous CPU substrate's capability / dispatch /
//! completion logic with its completion-token table.
pub mod abi;
pub mod completion_table;
pub mod cpu;
pub mod dispatch_first;
