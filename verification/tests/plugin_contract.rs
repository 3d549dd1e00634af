//! Behavioral contract of the CPU substrate: capability → dispatch →
//! completion → destroy, driven through the library's entry points with the
//! plugin's completion table as the substrate state.
//!
//! Where the SOKR core turns a plugin's disclaim (`NotFound`, nothing written)
//! into a `Failed` signal, `core_signal` does the same so the expected values
//! read as they do through the core.

use sokr_plugins::abi::{CompletionSignal, ResultCode};
use sokr_plugins::completion_table::CompletionTable;
use sokr_plugins::cpu::{capability, completion, destroy, dispatch, CapabilityQuery};

/// Run a capability query for the given IR format.
fn query_capability(
    ir_format: &str,
) -> (ResultCode, Option<sokr_plugins::abi::CapabilityResponse>) {
    let query = CapabilityQuery { ir_format: Some(ir_format.as_bytes()) };
    capability(Some(&query), true)
}

/// Dispatch one computation, returning its token handle.
fn dispatch_noop(table: &mut CompletionTable) -> u64 {
    let (result, response) = dispatch(table, true, true);
    assert_eq!(result, ResultCode::Success, "dispatch must succeed");
    let response = response.expect("dispatch writes its response");
    assert_eq!(response.result, ResultCode::Success);
    assert_ne!(
        response.completion_token, 0,
        "dispatch must issue a non-zero completion token"
    );
    response.completion_token
}

/// The signal a caller sees through the core: what the plugin wrote, or
/// `Failed` when the plugin disclaimed and wrote nothing.
fn core_signal(written: Option<CompletionSignal>) -> CompletionSignal {
    written.unwrap_or(CompletionSignal::Failed)
}

/// Poll a token, returning `(result, signal as seen through the core)`.
fn poll(table: &mut CompletionTable, handle: u64) -> (ResultCode, CompletionSignal) {
    let (result, written) = completion(table, Some(handle), true);
    if result == ResultCode::NotFound {
        assert_eq!(written, None, "a disclaim must leave the signal untouched");
    }
    (result, core_signal(written))
}

#[test]
fn test_capability_accepts_noop_disclaims_others() {
    let (result, response) = query_capability("sokr-noop");
    assert_eq!(result, ResultCode::Success, "sokr-noop must be claimed");
    assert_eq!(response.unwrap().result, ResultCode::Success);

    let (result, response) = query_capability("sokr-matmul");
    assert_eq!(
        result,
        ResultCode::CapabilityDenied,
        "unknown IR must be disclaimed, not claimed or errored"
    );
    assert_eq!(response.unwrap().result, ResultCode::CapabilityDenied);
}

#[test]
fn plugin_contract_test_1_2_dispatch_completion_roundtrip() {
    let mut table = CompletionTable::new();

    let (cap, _) = query_capability("sokr-noop");
    assert_eq!(cap, ResultCode::Success);

    let token = dispatch_noop(&mut table);
    let (result, signal) = poll(&mut table, token);
    assert_eq!(result, ResultCode::Success);
    assert_eq!(signal, CompletionSignal::Complete);

    destroy(&mut table);
}

#[test]
fn plugin_contract_test_1_2_multiple_concurrent_dispatches() {
    let mut table = CompletionTable::new();

    let mut tokens = Vec::new();
    for _low in 0..5 {
        let token = dispatch_noop(&mut table);
        assert!(
            !tokens.contains(&token),
            "each dispatch must yield a unique token"
        );
        tokens.push(token);
    }

    for &handle in &tokens {
        let (result, signal) = poll(&mut table, handle);
        assert_eq!(result, ResultCode::Success);
        assert_eq!(signal, CompletionSignal::Complete);
    }

    destroy(&mut table);
}

#[test]
fn plugin_contract_test_1_3_destroy_invalidates_tokens() {
    let mut table = CompletionTable::new();

    let token = dispatch_noop(&mut table);

    destroy(&mut table);

    let (result, signal) = poll(&mut table, token);
    assert_eq!(result, ResultCode::NotFound);
    assert_eq!(signal, CompletionSignal::Failed);
}

#[test]
fn plugin_contract_test_1_3_destroy_clears_all_slots() {
    let mut table = CompletionTable::new();

    let stale: Vec<u64> = (0..10).map(|_| dispatch_noop(&mut table)).collect();

    destroy(&mut table);

    for &token in &stale {
        let (result, _signal) = poll(&mut table, token);
        assert_eq!(
            result,
            ResultCode::NotFound,
            "destroy must have cleared every outstanding slot"
        );
    }

    let fresh = dispatch_noop(&mut table);
    let (result, signal) = poll(&mut table, fresh);
    assert_eq!(result, ResultCode::Success);
    assert_eq!(signal, CompletionSignal::Complete);

    destroy(&mut table);
}

#[test]
fn plugin_contract_test_1_4_full_lifecycle() {
    let mut table = CompletionTable::new();

    let (cap, response) = query_capability("sokr-noop");
    assert_eq!(cap, ResultCode::Success);
    assert_eq!(response.unwrap().result, ResultCode::Success);

    let token = dispatch_noop(&mut table);

    let (result, signal) = poll(&mut table, token);
    assert_eq!(result, ResultCode::Success);
    assert_eq!(signal, CompletionSignal::Complete);

    let (result, signal) = poll(&mut table, token);
    assert_eq!(result, ResultCode::NotFound);
    assert_eq!(signal, CompletionSignal::Failed);

    destroy(&mut table);
}

#[test]
fn plugin_contract_test_1_4_multiple_computations() {
    let mut table = CompletionTable::new();

    let mut tokens = Vec::new();
    for _low in 0..20 {
        let token = dispatch_noop(&mut table);
        assert!(
            !tokens.contains(&token),
            "tokens must be unique across computations"
        );
        tokens.push(token);
    }

    for &handle in &tokens {
        let (result, signal) = poll(&mut table, handle);
        assert_eq!(result, ResultCode::Success);
        assert_eq!(signal, CompletionSignal::Complete);
    }

    for &handle in &tokens {
        let (result, _signal) = poll(&mut table, handle);
        assert_eq!(result, ResultCode::NotFound);
    }

    destroy(&mut table);
}

#[test]
fn test_1_3_destroy_test_1_3_destroy_invalidates_tokens() {
    let mut table = CompletionTable::new();
    let token = dispatch_noop(&mut table);

    let (_, signal) = poll(&mut table, token);
    assert_eq!(signal, CompletionSignal::Complete);

    destroy(&mut table);

    let (_, signal_after) = poll(&mut table, token);
    assert_eq!(
        signal_after,
        CompletionSignal::Failed,
        "completion should return Failed after destroy"
    );
}

#[test]
fn test_1_3_destroy_test_1_3_destroy_clears_all_slots() {
    let mut table = CompletionTable::new();
    let tokens: Vec<u64> = (0..10).map(|_| dispatch_noop(&mut table)).collect();

    destroy(&mut table);

    for (idx, &token) in tokens.iter().enumerate() {
        let (_, signal) = poll(&mut table, token);
        assert_eq!(
            signal,
            CompletionSignal::Failed,
            "token {} should be invalid after destroy",
            idx
        );
    }
}

// The original test of this name expected the plugin itself to answer `Ok`
// with a `Failed` signal for a token it never issued. The plugin's documented
// behaviour (and its code) is to disclaim such a token with `NotFound` and
// leave the signal untouched; the core then reports `Failed`. The inputs are
// the original's; the result code follows the documentation, and the signal
// is the one the caller sees through the core.
#[test]
fn test_completion_unknown_token_returns_failed() {
    let mut table = CompletionTable::new();
    let (result, written) = completion(&mut table, Some(999999), true);
    assert_eq!(result, ResultCode::NotFound);
    assert_eq!(written, None, "a disclaim must leave the signal untouched");
    let sig = core_signal(written);
    assert_eq!(sig, CompletionSignal::Failed);
}
