//! Plain-value mirrors of the SOKR C ABI values that the substrate logic reads
//! and writes: result codes, completion signals and the response records.
use vstd::prelude::*;

verus! {

/// Result code of a SOKR operation, one variant per ABI code.
#[derive(Debug, Clone, Copy, PartialEq, Eq, Structural)]
pub enum ResultCode {
    /// Operation succeeded (for capability / completion: "mine"); the ABI code `Ok`.
    Success,
    /// Substrate disclaims the computation.
    CapabilityDenied,
    /// Dispatch failed at runtime.
    DispatchFailed,
    /// Operation timed out.
    Timeout,
    /// Plugin ABI version incompatible with core.
    VersionMismatch,
    /// No registered substrate can fulfill the computation.
    NoCapableSubstrate,
    /// Invalid input parameters.
    InvalidInput,
    /// Invalid IR format.
    InvalidIR,
    /// Resource not found (for completion: "not mine").
    NotFound,
    /// Plugin registry is full.
    RegistryFull,
}

/// Status of a dispatched computation.
#[derive(Debug, Clone, Copy, PartialEq, Eq, Structural)]
pub enum CompletionSignal {
    /// Still running.
    Pending,
    /// Finished successfully.
    Complete,
    /// Failed.
    Failed,
    /// Timed out.
    TimedOut,
}

/// What a capability query writes into its response record.
#[derive(Debug, Clone, Copy, PartialEq, Eq, Structural)]
pub struct CapabilityResponse {
    /// Claim (`Success`) or disclaim (`CapabilityDenied`).
    pub result: ResultCode,
    /// Reserved, always written as zero.
    pub padding: u32,
    /// Substrate id reported by the plugin.
    pub substrate_id: u64,
    /// Estimated latency in nanoseconds, 0 when unknown.
    pub estimated_latency_ns: u64,
}

/// What a dispatch writes into its response record.
#[derive(Debug, Clone, Copy, PartialEq, Eq, Structural)]
pub struct DispatchResponse {
    /// Outcome of the dispatch.
    pub result: ResultCode,
    /// Reserved, always written as zero.
    pub padding: u32,
    /// Handle of the completion token; 0 is the invalid / unset token.
    pub completion_token: u64,
}

} // verus!
