use sokr_plugins::abi::{CapabilityResponse, CompletionSignal, DispatchResponse, ResultCode};
use sokr_plugins::completion_table::{CompletionTable, COMPLETION_TABLE_CAPACITY};
use sokr_plugins::cpu::{
    capability, completion, destroy, dispatch, ir_format_is_accepted, CapabilityQuery,
};

fn issue(table: &mut CompletionTable) -> u64 {
    let (result, response) = dispatch(table, true, true);
    assert_eq!(result, ResultCode::Success);
    response.unwrap().completion_token
}

#[test]
fn test_dispatch_stores_result_retrievable_by_completion() {
    let mut table = CompletionTable::new();
    let (result, response) = dispatch(&mut table, true, true);
    assert_eq!(result, ResultCode::Success);
    let token = response.unwrap().completion_token;
    assert_ne!(token, 0);

    let (result, signal) = completion(&mut table, Some(token), true);
    assert_eq!(result, ResultCode::Success);
    assert_eq!(signal, Some(CompletionSignal::Complete));
}

#[test]
fn test_dispatch_returns_distinct_tokens() {
    let mut table = CompletionTable::new();
    let first = issue(&mut table);
    let second = issue(&mut table);
    assert_ne!(first, second);
}

#[test]
fn test_dispatch_null_request_returns_error() {
    let mut table = CompletionTable::new();
    let (result, response) = dispatch(&mut table, false, true);
    assert_eq!(result, ResultCode::InvalidInput);
    assert_eq!(response, None);
    assert_eq!(issue(&mut table), 1, "a refused dispatch must not use up a handle");
}

#[test]
fn test_dispatch_null_response_returns_error() {
    let mut table = CompletionTable::new();
    let (result, response) = dispatch(&mut table, true, false);
    assert_eq!(result, ResultCode::InvalidInput);
    assert_eq!(response, None);
}

#[test]
fn test_1_2_roundtrip_test_1_2_dispatch_completion_roundtrip() {
    let mut table = CompletionTable::new();
    let (dispatch_result, response) = dispatch(&mut table, true, true);
    assert_eq!(dispatch_result, ResultCode::Success, "dispatch failed");
    let response = response.unwrap();
    assert_eq!(response.result, ResultCode::Success, "dispatch response result not Ok");
    assert_ne!(response.completion_token, 0, "dispatch returned invalid token (0)");

    let (completion_result, signal) = completion(&mut table, Some(response.completion_token), true);
    assert_eq!(completion_result, ResultCode::Success, "completion failed");
    assert_eq!(signal, Some(CompletionSignal::Complete), "completion status not Complete");
}

#[test]
fn test_1_2_roundtrip_test_1_2_multiple_concurrent_dispatches() {
    let mut table = CompletionTable::new();
    let mut tokens = Vec::new();
    for _i in 0..5 {
        let (result, response) = dispatch(&mut table, true, true);
        assert_eq!(result, ResultCode::Success);
        let token = response.unwrap().completion_token;
        assert_ne!(token, 0);
        tokens.push(token);
    }
    for (idx, token) in tokens.iter().enumerate() {
        let (result, signal) = completion(&mut table, Some(*token), true);
        assert_eq!(result, ResultCode::Success, "completion failed for dispatch {}", idx);
        assert_eq!(
            signal,
            Some(CompletionSignal::Complete),
            "completion not Complete for dispatch {}",
            idx
        );
    }
}

#[test]
fn test_tokens_start_at_one_and_count_up() {
    let mut table = CompletionTable::new();
    assert_eq!(issue(&mut table), 1);
    assert_eq!(issue(&mut table), 2);
    assert_eq!(issue(&mut table), 3);
}

#[test]
fn test_dispatch_response_fields() {
    let mut table = CompletionTable::new();
    let (_, response) = dispatch(&mut table, true, true);
    assert_eq!(
        response,
        Some(DispatchResponse { result: ResultCode::Success, padding: 0, completion_token: 1 })
    );
}

#[test]
fn test_null_response_leaves_table_unchanged() {
    let mut table = CompletionTable::new();
    let _ = dispatch(&mut table, true, false);
    assert_eq!(issue(&mut table), 1, "a refused dispatch must not use up a handle");
}

#[test]
fn test_full_table_fails_dispatch_without_using_a_handle() {
    let mut table = CompletionTable::new();
    for expected in 1..=(COMPLETION_TABLE_CAPACITY as u64) {
        assert_eq!(issue(&mut table), expected);
    }
    let (result, response) = dispatch(&mut table, true, true);
    assert_eq!(result, ResultCode::DispatchFailed);
    assert_eq!(
        response,
        Some(DispatchResponse { result: ResultCode::DispatchFailed, padding: 0, completion_token: 0 })
    );

    // Polling one token frees its slot; the allocator carries on past the
    // handles it already issued.
    let (result, _) = completion(&mut table, Some(5), true);
    assert_eq!(result, ResultCode::Success);
    assert_eq!(issue(&mut table), COMPLETION_TABLE_CAPACITY as u64 + 1);
    let (result, _) = dispatch(&mut table, true, true);
    assert_eq!(result, ResultCode::DispatchFailed);
}

#[test]
fn test_destroy_resets_allocator() {
    let mut table = CompletionTable::new();
    issue(&mut table);
    issue(&mut table);
    destroy(&mut table);
    assert_eq!(issue(&mut table), 1);
}

#[test]
fn test_completion_of_foreign_and_zero_tokens_disclaims() {
    let mut table = CompletionTable::new();
    let token = issue(&mut table);
    assert_eq!(completion(&mut table, Some(999_999), true), (ResultCode::NotFound, None));
    assert_eq!(completion(&mut table, Some(0), true), (ResultCode::NotFound, None));
    // The foreign polls did not consume our token.
    assert_eq!(
        completion(&mut table, Some(token), true),
        (ResultCode::Success, Some(CompletionSignal::Complete))
    );
}

#[test]
fn test_completion_null_pointers_are_invalid_input() {
    let mut table = CompletionTable::new();
    let token = issue(&mut table);
    assert_eq!(completion(&mut table, None, true), (ResultCode::InvalidInput, None));
    assert_eq!(completion(&mut table, Some(token), false), (ResultCode::InvalidInput, None));
    // Neither refused poll consumed the token.
    assert_eq!(
        completion(&mut table, Some(token), true),
        (ResultCode::Success, Some(CompletionSignal::Complete))
    );
}

#[test]
fn test_capability_response_fields() {
    let query = CapabilityQuery { ir_format: Some(&b"sokr-noop"[..]) };
    assert_eq!(
        capability(Some(&query), true),
        (
            ResultCode::Success,
            Some(CapabilityResponse {
                result: ResultCode::Success,
                padding: 0,
                substrate_id: 0,
                estimated_latency_ns: 0
            })
        )
    );
    let query = CapabilityQuery { ir_format: Some(&b"spirv"[..]) };
    assert_eq!(
        capability(Some(&query), true),
        (
            ResultCode::CapabilityDenied,
            Some(CapabilityResponse {
                result: ResultCode::CapabilityDenied,
                padding: 0,
                substrate_id: 0,
                estimated_latency_ns: 0
            })
        )
    );
}

#[test]
fn test_capability_null_pointers_disclaim_without_writing() {
    let query = CapabilityQuery { ir_format: Some(&b"sokr-noop"[..]) };
    assert_eq!(capability(None, true), (ResultCode::CapabilityDenied, None));
    assert_eq!(capability(Some(&query), false), (ResultCode::CapabilityDenied, None));
    let null_format = CapabilityQuery { ir_format: None };
    let (result, response) = capability(Some(&null_format), true);
    assert_eq!(result, ResultCode::CapabilityDenied);
    assert_eq!(response.unwrap().result, ResultCode::CapabilityDenied);
}

#[test]
fn test_ir_format_is_accepted_exact_match_only() {
    assert!(ir_format_is_accepted(Some(&b"sokr-noop"[..])));
    assert!(!ir_format_is_accepted(Some(&b"sokr-noo"[..])));
    assert!(!ir_format_is_accepted(Some(&b"sokr-noopx"[..])));
    assert!(!ir_format_is_accepted(Some(&b"SOKR-NOOP"[..])));
    assert!(!ir_format_is_accepted(Some(&b""[..])));
    assert!(!ir_format_is_accepted(None));
}

#[test]
fn test_table_insert_take_roundtrip_keeps_other_tokens() {
    let mut table = CompletionTable::new();
    let a = table.insert(CompletionSignal::Pending).unwrap();
    let b = table.insert(CompletionSignal::TimedOut).unwrap();
    assert_eq!((a, b), (1, 2));
    assert_eq!(table.take(b), Some(CompletionSignal::TimedOut));
    assert_eq!(table.take(b), None);
    assert_eq!(table.take(a), Some(CompletionSignal::Pending));
    assert_eq!(table.take(0), None);
}

#[test]
fn test_table_clear_invalidates_everything() {
    let mut table = CompletionTable::new();
    let a = table.insert(CompletionSignal::Complete).unwrap();
    let b = table.insert(CompletionSignal::Failed).unwrap();
    table.clear();
    assert_eq!(table.take(a), None);
    assert_eq!(table.take(b), None);
    assert_eq!(table.insert(CompletionSignal::Complete), Some(1));
}

#[test]
fn test_consumed_token_stays_unrecognized_across_dispatches() {
    let mut table = CompletionTable::new();
    let first = issue(&mut table);
    assert_eq!(
        completion(&mut table, Some(first), true),
        (ResultCode::Success, Some(CompletionSignal::Complete))
    );
    let mut later = Vec::new();
    for _ in 0..30 {
        let token = issue(&mut table);
        assert_ne!(token, first, "a consumed token must never be issued again");
        later.push(token);
        assert_eq!(completion(&mut table, Some(first), true), (ResultCode::NotFound, None));
    }
    // Issued handles strictly increase since the last reset.
    for pair in later.windows(2) {
        assert!(pair[0] < pair[1]);
    }
}

#[test]
fn test_polls_commute() {
    let mut one = CompletionTable::new();
    let mut two = CompletionTable::new();
    let a1 = issue(&mut one);
    let b1 = issue(&mut one);
    let a2 = issue(&mut two);
    let b2 = issue(&mut two);
    assert_eq!((a1, b1), (a2, b2));
    let first_order = (completion(&mut one, Some(a1), true), completion(&mut one, Some(b1), true));
    let second_order = (completion(&mut two, Some(b2), true), completion(&mut two, Some(a2), true));
    assert_eq!(first_order.0, second_order.1);
    assert_eq!(first_order.1, second_order.0);
    // Both tables now hold no token and issue the same next handle.
    assert_eq!(issue(&mut one), issue(&mut two));
}

#[test]
fn test_take_zero_is_none() {
    let mut table = CompletionTable::new();
    issue(&mut table);
    assert_eq!(table.take(0), None);
}
