//! The synchronous CPU substrate: claims only the `sokr-noop` IR, runs the
//! (no-op) computation inline at dispatch, and records an already `Complete`
//! token that the first completion poll consumes.
//!
//! The entry points here take the values behind the ABI pointers: `None` (or
//! `false`) stands for a null pointer, and a returned `Some(..)` is what the
//! entry point writes through its output pointer (`None`: nothing is written).
use vstd::prelude::*;

use crate::abi::{CapabilityResponse, CompletionSignal, DispatchResponse, ResultCode};
use crate::completion_table::{
    empty_table_view, is_first_free_handle, is_run_since_reset,
    lemma_run_consumed_token_stays_gone, table_step, view_after_insert, view_after_take,
    CompletionTable, TableView,
};

verus! {

/// The parts of a capability query that this substrate reads.
pub struct CapabilityQuery<'a> {
    /// Bytes of the IR format name, without the terminating NUL; `None` when
    /// the query's format pointer is null.
    pub ir_format: Option<&'a [u8]>,
}

/// The only IR format this substrate claims: the bytes of `"sokr-noop"`.
pub open spec fn accepted_ir_format() -> Seq<u8> {
    seq![115u8, 111u8, 107u8, 114u8, 45u8, 110u8, 111u8, 111u8, 112u8]
}

/// Whether an IR format name (`None`: null pointer) is the accepted one.
pub open spec fn is_accepted_format(ir_format: Option<Seq<u8>>) -> bool {
    ir_format == Some(accepted_ir_format())
}

/// The view of an optional byte slice.
pub open spec fn bytes_view(b: Option<&[u8]>) -> Option<Seq<u8>> {
    match b {
        Some(s) => Some(s@),
        None => None,
    }
}

/// The response a capability query writes when it answers `result`.
pub open spec fn capability_reply(result: ResultCode) -> CapabilityResponse {
    CapabilityResponse { result, padding: 0, substrate_id: 0, estimated_latency_ns: 0 }
}

/// The response a dispatch writes when it answers `result` with token `handle`.
pub open spec fn dispatch_reply(result: ResultCode, handle: u64) -> DispatchResponse {
    DispatchResponse { result, padding: 0, completion_token: handle }
}

/// What a completion poll of handle `h` on table state `v` answers, and the
/// state it leaves: a token we hold is reported and consumed, any other handle
/// is disclaimed with `NotFound` and changes nothing.
pub open spec fn completion_answer(
    v: TableView,
    h: u64,
    r: (ResultCode, Option<CompletionSignal>),
    after: TableView,
) -> bool {
    if v.tokens.dom().contains(h) {
        r == (ResultCode::Success, Some(v.tokens[h])) && after == view_after_take(v, h)
    } else {
        r == (ResultCode::NotFound, None::<CompletionSignal>) && after == v
    }
}

/// `after` follows from `before` by one operation of this substrate: nothing
/// changed, a dispatch stored a `Complete` token under the first free handle,
/// or a poll consumed an outstanding token.
pub open spec fn plugin_step(before: TableView, after: TableView) -> bool {
    ||| after == before
    ||| exists|h: u64|
        is_first_free_handle(before.tokens, before.next_handle, h) && after
            == #[trigger] view_after_insert(before, h, CompletionSignal::Complete)
    ||| exists|h: u64|
        before.tokens.dom().contains(h) && after == #[trigger] view_after_take(before, h)
}

/// `states` is a run of this substrate's table since its last destroy (or
/// creation): it starts empty and each state follows from the previous one by
/// a dispatch, a poll, or a call that changed nothing.
pub open spec fn is_plugin_run(states: Seq<TableView>) -> bool {
    &&& states.len() > 0
    &&& states[0] == empty_table_view()
    &&& forall|k: int|
        0 <= k < states.len() - 1 ==> #[trigger] plugin_step(states[k], states[k + 1])
}

/// Every outstanding token has status `Complete`.
pub open spec fn all_tokens_complete(v: TableView) -> bool {
    forall|h: u64| #[trigger] v.tokens.dom().contains(h) ==> v.tokens[h] == CompletionSignal::Complete
}

/// Returns true if `ir_format` names the IR this substrate claims.
pub fn ir_format_is_accepted(ir_format: Option<&[u8]>) -> (r: bool)
    ensures
        r == is_accepted_format(bytes_view(ir_format)),
        r <==> (ir_format matches Some(b) && b@ == seq![115u8, 111u8, 107u8, 114u8, 45u8, 110u8, 111u8, 111u8, 112u8]),
{
    match ir_format {
        None => false,
        Some(b) => {
            let r = b.len() == 9 && b[0] == 115u8 && b[1] == 111u8 && b[2] == 107u8 && b[3]
                == 114u8 && b[4] == 45u8 && b[5] == 110u8 && b[6] == 111u8 && b[7] == 111u8
                && b[8] == 112u8;
            proof {
                if r {
                    assert(b@ =~= accepted_ir_format());
                }
                if b@ == accepted_ir_format() {
                    assert(b@[8] == 112u8);
                }
            }
            r
        },
    }
}

/// Capability query: claim `sokr-noop`, disclaim everything else.
///
/// With a null query or response it disclaims without writing anything. It
/// never answers `InvalidIR` / `InvalidInput`: any code other than a claim or
/// `CapabilityDenied` would abort the core's capability scan.
pub fn capability(query: Option<&CapabilityQuery>, has_response: bool) -> (r: (
    ResultCode,
    Option<CapabilityResponse>,
))
    ensures
        r.0 == ResultCode::Success || r.0 == ResultCode::CapabilityDenied,
        r.0 == ResultCode::Success <==> has_response && (query matches Some(q) && (q.ir_format matches Some(
            b,
        ) && b@ == seq![115u8, 111u8, 107u8, 114u8, 45u8, 110u8, 111u8, 111u8, 112u8])),
        r.1 matches Some(resp) ==> has_response && query is Some && resp.result == r.0
            && resp.padding == 0 && resp.substrate_id == 0 && resp.estimated_latency_ns == 0,
        has_response && query is Some ==> r.1 is Some,
        query is None || !has_response ==> r == (ResultCode::CapabilityDenied, None::<
            CapabilityResponse,
        >),
        has_response ==> (query matches Some(q) ==> {
            &&& r.0 == (if is_accepted_format(bytes_view(q.ir_format)) {
                ResultCode::Success
            } else {
                ResultCode::CapabilityDenied
            })
            &&& r.1 == Some(capability_reply(r.0))
        }),
{
    match query {
        None => (ResultCode::CapabilityDenied, None),
        Some(q) => {
            if !has_response {
                return (ResultCode::CapabilityDenied, None);
            }
            let result = if ir_format_is_accepted(q.ir_format) {
                ResultCode::Success
            } else {
                ResultCode::CapabilityDenied
            };
            let response = CapabilityResponse {
                result,
                padding: 0,
                substrate_id: 0,
                estimated_latency_ns: 0,
            };
            (result, Some(response))
        },
    }
}

/// Dispatch: run the no-op computation synchronously and issue a token for
/// its already `Complete` result.
///
/// `has_request` / `has_response` say whether the request and response
/// pointers are non-null. A null request or response is `InvalidInput` with
/// nothing written; a full table is `DispatchFailed` (a genuine failure, not a
/// disclaim) with the zero token. None of these changes the table.
pub fn dispatch(table: &mut CompletionTable, has_request: bool, has_response: bool) -> (r: (
    ResultCode,
    Option<DispatchResponse>,
))
    requires
        old(table).wf(),
    ensures
        final(table).wf(),
        table_step(old(table)@, final(table)@),
        plugin_step(old(table)@, final(table)@),
        r.0 == ResultCode::Success <==> has_request && has_response && old(table)@.free_slots > 0,
        r.0 == ResultCode::DispatchFailed <==> has_request && has_response && old(
            table,
        )@.free_slots == 0,
        r.1 matches Some(resp) ==> resp.result == r.0 && resp.padding == 0,
        r.0 == ResultCode::Success ==> (r.1 matches Some(resp) && {
            &&& resp.completion_token != 0
            &&& !old(table)@.tokens.dom().contains(resp.completion_token)
            &&& final(table)@.tokens == old(table)@.tokens.insert(
                resp.completion_token,
                CompletionSignal::Complete,
            )
            &&& final(table)@.free_slots + 1 == old(table)@.free_slots
        }),
        r.0 != ResultCode::Success ==> final(table)@ == old(table)@,
        r.0 == ResultCode::DispatchFailed ==> (r.1 matches Some(resp) && resp.completion_token
            == 0),
        !has_request || !has_response ==> r == (ResultCode::InvalidInput, None::<DispatchResponse>)
            && final(table)@ == old(table)@,
        has_request && has_response && old(table)@.free_slots == 0 ==> r == (
            ResultCode::DispatchFailed,
            Some(dispatch_reply(ResultCode::DispatchFailed, 0)),
        ) && final(table)@ == old(table)@,
        has_request && has_response && old(table)@.free_slots > 0 ==> {
            &&& r.0 == ResultCode::Success
            &&& r.1 matches Some(resp) && {
                &&& resp == dispatch_reply(ResultCode::Success, resp.completion_token)
                &&& is_first_free_handle(
                    old(table)@.tokens,
                    old(table)@.next_handle,
                    resp.completion_token,
                )
                &&& final(table)@ == view_after_insert(
                    old(table)@,
                    resp.completion_token,
                    CompletionSignal::Complete,
                )
            }
        },
{
    if !has_request || !has_response {
        return (ResultCode::InvalidInput, None);
    }
    match table.insert(CompletionSignal::Complete) {
        Some(handle) => {
            let response = DispatchResponse {
                result: ResultCode::Success,
                padding: 0,
                completion_token: handle,
            };
            (ResultCode::Success, Some(response))
        },
        None => {
            let response = DispatchResponse {
                result: ResultCode::DispatchFailed,
                padding: 0,
                completion_token: 0,
            };
            (ResultCode::DispatchFailed, Some(response))
        },
    }
}

/// Completion poll: report and consume one of our tokens, or disclaim a
/// foreign one.
///
/// `token` is the polled handle (`None`: null query). For a token we issued
/// the answer is `Success` with its status, and the token is consumed; for any
/// other handle it is `NotFound` and nothing is written, so the core can set
/// `Failed` itself once every plugin has disclaimed.
pub fn completion(table: &mut CompletionTable, token: Option<u64>, has_signal: bool) -> (r: (
    ResultCode,
    Option<CompletionSignal>,
))
    requires
        old(table).wf(),
    ensures
        final(table).wf(),
        table_step(old(table)@, final(table)@),
        plugin_step(old(table)@, final(table)@),
        r.0 == ResultCode::Success <==> has_signal && (token matches Some(h) && old(
            table,
        )@.tokens.dom().contains(h)),
        r.0 == ResultCode::NotFound <==> has_signal && (token matches Some(h) && !old(
            table,
        )@.tokens.dom().contains(h)),
        r.0 == ResultCode::Success ==> (token matches Some(h) && {
            &&& r.1 == Some(old(table)@.tokens[h])
            &&& final(table)@.tokens == old(table)@.tokens.remove(h)
            &&& final(table)@.free_slots == old(table)@.free_slots + 1
            &&& final(table)@.next_handle == old(table)@.next_handle
        }),
        r.0 != ResultCode::Success ==> r.1 is None && final(table)@ == old(table)@,
        token is None || !has_signal ==> r == (ResultCode::InvalidInput, None::<
            CompletionSignal,
        >) && final(table)@ == old(table)@,
        has_signal ==> (token matches Some(h) ==> completion_answer(
            old(table)@,
            h,
            r,
            final(table)@,
        )),
{
    let handle = match token {
        None => return (ResultCode::InvalidInput, None),
        Some(h) => h,
    };
    if !has_signal {
        return (ResultCode::InvalidInput, None);
    }
    match table.take(handle) {
        Some(status) => (ResultCode::Success, Some(status)),
        None => (ResultCode::NotFound, None),
    }
}

/// Teardown: invalidate every outstanding completion token.
pub fn destroy(table: &mut CompletionTable)
    requires
        old(table).wf(),
    ensures
        final(table).wf(),
        final(table)@ == empty_table_view(),
{
    table.clear();
}

/// Round trip: the token a dispatch issues is claimed by the next poll of it,
/// which reports `Complete` and consumes it.
pub proof fn lemma_dispatch_then_poll_completes(v: TableView, h: u64)
    requires
        is_first_free_handle(v.tokens, v.next_handle, h),
    ensures
        completion_answer(
            view_after_insert(v, h, CompletionSignal::Complete),
            h,
            (ResultCode::Success, Some(CompletionSignal::Complete)),
            view_after_take(view_after_insert(v, h, CompletionSignal::Complete), h),
        ),
{
}

/// A token is single-use: once a poll has claimed it, polling it again on the
/// resulting state is disclaimed with `NotFound` and changes nothing. (For
/// later polls with other operations in between, see
/// [`lemma_run_consumed_token_polls_not_found`].)
pub proof fn lemma_poll_is_single_use(
    v: TableView,
    h: u64,
    r: (ResultCode, Option<CompletionSignal>),
    after: TableView,
)
    requires
        completion_answer(v, h, r, after),
        r.0 == ResultCode::Success,
    ensures
        completion_answer(after, h, (ResultCode::NotFound, None), after),
{
}

/// After destroy no handle is recognized: every poll is disclaimed.
pub proof fn lemma_destroy_invalidates_every_token(h: u64)
    ensures
        completion_answer(
            empty_table_view(),
            h,
            (ResultCode::NotFound, None),
            empty_table_view(),
        ),
{
}

/// Polling a token other than `h` neither claims nor consumes `h`.
pub proof fn lemma_poll_leaves_other_tokens(
    v: TableView,
    polled: u64,
    r: (ResultCode, Option<CompletionSignal>),
    after: TableView,
    h: u64,
)
    requires
        completion_answer(v, polled, r, after),
        polled != h,
    ensures
        after.tokens.dom().contains(h) == v.tokens.dom().contains(h),
        v.tokens.dom().contains(h) ==> after.tokens[h] == v.tokens[h],
{
}

/// Within a run of the table since its last reset (see
/// [`is_run_since_reset`]), a token that a poll consumed is disclaimed with
/// `NotFound` by every later poll, whatever dispatches and polls come in
/// between, until the next destroy.
pub proof fn lemma_run_consumed_token_polls_not_found(
    states: Seq<TableView>,
    i: int,
    h: u64,
    j: int,
)
    requires
        is_run_since_reset(states),
        0 <= i,
        i + 1 <= j < states.len(),
        states[i].tokens.dom().contains(h),
        states[i + 1] == view_after_take(states[i], h),
    ensures
        completion_answer(states[j], h, (ResultCode::NotFound, None), states[j]),
{
    lemma_run_consumed_token_stays_gone(states, i, h, j);
}

/// Polls of two different outstanding tokens commute: in either order each
/// poll is claimed with its token's status, and both orders leave the same
/// table.
pub proof fn lemma_polls_commute(v: TableView, h1: u64, h2: u64)
    requires
        h1 != h2,
        v.tokens.dom().contains(h1),
        v.tokens.dom().contains(h2),
    ensures
        completion_answer(
            v,
            h1,
            (ResultCode::Success, Some(v.tokens[h1])),
            view_after_take(v, h1),
        ),
        completion_answer(
            view_after_take(v, h1),
            h2,
            (ResultCode::Success, Some(v.tokens[h2])),
            view_after_take(view_after_take(v, h1), h2),
        ),
        completion_answer(
            v,
            h2,
            (ResultCode::Success, Some(v.tokens[h2])),
            view_after_take(v, h2),
        ),
        completion_answer(
            view_after_take(v, h2),
            h1,
            (ResultCode::Success, Some(v.tokens[h1])),
            view_after_take(view_after_take(v, h2), h1),
        ),
        view_after_take(view_after_take(v, h1), h2) == view_after_take(
            view_after_take(v, h2),
            h1,
        ),
{
    assert(view_after_take(view_after_take(v, h1), h2).tokens =~= view_after_take(
        view_after_take(v, h2),
        h1,
    ).tokens);
}

/// Along a run of this substrate, every outstanding token has status
/// `Complete`: dispatch stores only `Complete`, and polls only remove tokens.
pub proof fn lemma_plugin_run_tokens_complete(states: Seq<TableView>, k: int)
    requires
        is_plugin_run(states),
        0 <= k < states.len(),
    ensures
        all_tokens_complete(states[k]),
    decreases k,
{
    if k > 0 {
        let m = k - 1;
        lemma_plugin_run_tokens_complete(states, m);
        let a = states[m];
        let b = states[m + 1];
        assert(plugin_step(a, b));
        assert(all_tokens_complete(a));
        if b != a {
            if exists|h: u64|
                is_first_free_handle(a.tokens, a.next_handle, h) && b
                    == #[trigger] view_after_insert(a, h, CompletionSignal::Complete) {
                let h = choose|h: u64|
                    is_first_free_handle(a.tokens, a.next_handle, h) && b
                        == #[trigger] view_after_insert(a, h, CompletionSignal::Complete);
                assert forall|x: u64| #[trigger] b.tokens.dom().contains(x) implies b.tokens[x]
                    == CompletionSignal::Complete by {
                    if x != h {
                        assert(a.tokens.dom().contains(x));
                    }
                }
            } else {
                let h = choose|h: u64|
                    a.tokens.dom().contains(h) && b == #[trigger] view_after_take(a, h);
                assert forall|x: u64| #[trigger] b.tokens.dom().contains(x) implies b.tokens[x]
                    == CompletionSignal::Complete by {
                    assert(a.tokens.dom().contains(x));
                }
            }
        }
        assert(states[m + 1] == states[k]);
    }
}

/// Along a run of this substrate, polling any outstanding token is claimed
/// with `Complete` and consumes it.
pub proof fn lemma_plugin_run_polls_report_complete(states: Seq<TableView>, k: int, h: u64)
    requires
        is_plugin_run(states),
        0 <= k < states.len(),
        states[k].tokens.dom().contains(h),
    ensures
        completion_answer(
            states[k],
            h,
            (ResultCode::Success, Some(CompletionSignal::Complete)),
            view_after_take(states[k], h),
        ),
{
    lemma_plugin_run_tokens_complete(states, k);
}

/// Along a run of this substrate, two outstanding tokens may be polled in
/// either order: each poll is claimed with `Complete`, and both orders leave
/// the same table.
pub proof fn lemma_plugin_run_polls_commute(
    states: Seq<TableView>,
    k: int,
    h1: u64,
    h2: u64,
)
    requires
        is_plugin_run(states),
        0 <= k < states.len(),
        h1 != h2,
        states[k].tokens.dom().contains(h1),
        states[k].tokens.dom().contains(h2),
    ensures
        ({
            let v = states[k];
            let complete = (ResultCode::Success, Some(CompletionSignal::Complete));
            &&& completion_answer(v, h1, complete, view_after_take(v, h1))
            &&& completion_answer(
                view_after_take(v, h1),
                h2,
                complete,
                view_after_take(view_after_take(v, h1), h2),
            )
            &&& completion_answer(v, h2, complete, view_after_take(v, h2))
            &&& completion_answer(
                view_after_take(v, h2),
                h1,
                complete,
                view_after_take(view_after_take(v, h2), h1),
            )
            &&& view_after_take(view_after_take(v, h1), h2) == view_after_take(
                view_after_take(v, h2),
                h1,
            )
        }),
{
    lemma_plugin_run_tokens_complete(states, k);
    lemma_polls_commute(states[k], h1, h2);
}

/// A run of this substrate whose allocator never reached `u64::MAX` is a run
/// of its table, so the table's run laws (increasing handles, no reissue,
/// consumed tokens stay gone) apply to it.
pub proof fn lemma_plugin_run_is_table_run(states: Seq<TableView>)
    requires
        is_plugin_run(states),
        forall|k: int| 0 <= k < states.len() ==> #[trigger] states[k].next_handle < u64::MAX,
    ensures
        is_run_since_reset(states),
{
    assert forall|k: int| 0 <= k < states.len() - 1 implies #[trigger] table_step(
        states[k],
        states[k + 1],
    ) by {
        let a = states[k];
        let b = states[k + 1];
        assert(plugin_step(a, b));
        if b != a {
            if exists|h: u64|
                is_first_free_handle(a.tokens, a.next_handle, h) && b
                    == #[trigger] view_after_insert(a, h, CompletionSignal::Complete) {
                let h = choose|h: u64|
                    is_first_free_handle(a.tokens, a.next_handle, h) && b
                        == #[trigger] view_after_insert(a, h, CompletionSignal::Complete);
                assert(is_first_free_handle(a.tokens, a.next_handle, h) && b == view_after_insert(
                    a,
                    h,
                    CompletionSignal::Complete,
                ));
            }
        }
    }
}

/// A poll answer claims exactly the outstanding tokens: an outstanding token
/// is never disclaimed, it is reported with the status stored for it and it is
/// the only token consumed; a handle that is not outstanding is disclaimed with
/// `NotFound`, nothing is written and nothing changes.
pub proof fn lemma_poll_claims_exactly_outstanding_tokens(
    v: TableView,
    h: u64,
    r: (ResultCode, Option<CompletionSignal>),
    after: TableView,
)
    requires
        completion_answer(v, h, r, after),
    ensures
        r.0 == ResultCode::Success <==> v.tokens.dom().contains(h),
        r.0 == ResultCode::NotFound <==> !v.tokens.dom().contains(h),
        v.tokens.dom().contains(h) ==> {
            &&& r.1 == Some(v.tokens[h])
            &&& after.tokens == v.tokens.remove(h)
            &&& after.free_slots == v.free_slots + 1
            &&& after.next_handle == v.next_handle
        },
        !v.tokens.dom().contains(h) ==> r.1 is None && after == v,
{
    if v.tokens.dom().contains(h) {
        assert(after.tokens =~= v.tokens.remove(h));
    }
}

/// A dispatch's written record agrees with the code it returns, has zero
/// padding, and carries exactly the handle it reports.
pub proof fn lemma_dispatch_record_matches_answer(result: ResultCode, handle: u64)
    ensures
        dispatch_reply(result, handle).result == result,
        dispatch_reply(result, handle).padding == 0,
        dispatch_reply(result, handle).completion_token == handle,
{
}

/// A capability's written record agrees with the code it returns and reports
/// zero padding, substrate id 0 and unknown (0) latency.
pub proof fn lemma_capability_record_matches_answer(result: ResultCode)
    ensures
        capability_reply(result).result == result,
        capability_reply(result).padding == 0,
        capability_reply(result).substrate_id == 0,
        capability_reply(result).estimated_latency_ns == 0,
{
}

/// Exactly one IR format is claimed, the nine bytes of `"sokr-noop"`: a null
/// format, and every byte sequence that differs from those bytes in length or
/// in any byte, is disclaimed.
pub proof fn lemma_only_sokr_noop_is_accepted(ir_format: Option<Seq<u8>>)
    ensures
        is_accepted_format(ir_format) <==> ir_format == Some(seq![115u8, 111u8, 107u8, 114u8, 45u8, 110u8, 111u8, 111u8, 112u8]),
        ir_format is None ==> !is_accepted_format(ir_format),
        ir_format matches Some(s) && s.len() != 9 ==> !is_accepted_format(ir_format),
{
    assert(accepted_ir_format() =~= seq![115u8, 111u8, 107u8, 114u8, 45u8, 110u8, 111u8, 111u8, 112u8]);
}

} // verus!
