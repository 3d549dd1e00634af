//! Fixed-capacity table of outstanding completion tokens with a monotonic,
//! wrapping handle allocator that never issues the reserved handle 0.
use vstd::prelude::*;

use crate::abi::CompletionSignal;

verus! {

/// Maximum number of outstanding (dispatched but not yet polled) tokens.
pub const COMPLETION_TABLE_CAPACITY: usize = 256;

/// One table entry; `handle == 0` marks a free slot.
#[derive(Clone, Copy)]
struct Slot {
    handle: u64,
    signal: CompletionSignal,
}

/// Outstanding completion tokens plus the handle allocator.
pub struct CompletionTable {
    slots: [Slot; COMPLETION_TABLE_CAPACITY],
    next_handle: u64,
}

/// Abstract state of a [`CompletionTable`].
pub struct TableView {
    /// Status of every outstanding token, keyed by its (non-zero) handle.
    pub tokens: Map<u64, CompletionSignal>,
    /// Number of free slots.
    pub free_slots: nat,
    /// The handle the allocator tries first on the next insertion.
    pub next_handle: u64,
}

/// Number of allocator steps from `start` to `handle` in the cyclic order
/// `start, start + 1, ..., u64::MAX, 1, 2, ...`, which skips the reserved 0.
pub open spec fn handle_distance(start: u64, handle: u64) -> int {
    if handle >= start {
        handle - start
    } else {
        (u64::MAX - start) + handle
    }
}

/// Successor of `handle` in the allocator's cyclic order (0 is skipped).
pub open spec fn next_handle_after(handle: u64) -> u64 {
    if handle == u64::MAX {
        1
    } else {
        (handle + 1) as u64
    }
}

/// `handle` is the first handle, in cyclic order from `start`, that names no
/// outstanding token in `tokens`.
pub open spec fn is_first_free_handle(
    tokens: Map<u64, CompletionSignal>,
    start: u64,
    handle: u64,
) -> bool {
    &&& handle != 0
    &&& !tokens.dom().contains(handle)
    &&& forall|x: u64|
        x != 0 && #[trigger] handle_distance(start, x) < handle_distance(start, handle)
            ==> tokens.dom().contains(x)
}

/// The abstract state of a freshly created or cleared table.
pub open spec fn empty_table_view() -> TableView {
    TableView {
        tokens: Map::empty(),
        free_slots: COMPLETION_TABLE_CAPACITY as nat,
        next_handle: 1,
    }
}

/// The state after a token with handle `h` and status `signal` is stored.
pub open spec fn view_after_insert(v: TableView, h: u64, signal: CompletionSignal) -> TableView {
    TableView {
        tokens: v.tokens.insert(h, signal),
        free_slots: (v.free_slots - 1) as nat,
        next_handle: next_handle_after(h),
    }
}

/// The state after the outstanding token `handle` is consumed.
pub open spec fn view_after_take(v: TableView, handle: u64) -> TableView {
    TableView {
        tokens: v.tokens.remove(handle),
        free_slots: v.free_slots + 1,
        next_handle: v.next_handle,
    }
}

/// `after` follows from `before` by one table operation: nothing changed, one
/// token was stored under the first free handle, or one outstanding token was
/// consumed.
pub open spec fn table_step(before: TableView, after: TableView) -> bool {
    ||| after == before
    ||| exists|h: u64, signal: CompletionSignal|
        is_first_free_handle(before.tokens, before.next_handle, h) && after == #[trigger] view_after_insert(
            before,
            h,
            signal,
        )
    ||| exists|h: u64|
        before.tokens.dom().contains(h) && after == #[trigger] view_after_take(before, h)
}

/// `states` is a run of one table since its last reset (creation or clear):
/// it starts empty, each state follows from the previous one by
/// [`table_step`], and the allocator has not reached the top of the handle
/// space, i.e. fewer than `u64::MAX - 1` tokens were issued since the reset.
pub open spec fn is_run_since_reset(states: Seq<TableView>) -> bool {
    &&& states.len() > 0
    &&& states[0] == empty_table_view()
    &&& forall|k: int|
        0 <= k < states.len() - 1 ==> #[trigger] table_step(states[k], states[k + 1])
    &&& forall|k: int| 0 <= k < states.len() ==> #[trigger] states[k].next_handle < u64::MAX
}

/// Every outstanding token lies strictly between 0 and the allocator cursor.
pub open spec fn tokens_below_cursor(v: TableView) -> bool {
    &&& v.next_handle >= 1
    &&& forall|x: u64| #[trigger] v.tokens.dom().contains(x) ==> 0 < x < v.next_handle
}

spec fn seq_holds(s: Seq<Slot>, h: u64) -> bool {
    h != 0 && exists|i: int| 0 <= i < s.len() && #[trigger] s[i].handle == h
}

spec fn seq_slot_of(s: Seq<Slot>, h: u64) -> int {
    choose|i: int| 0 <= i < s.len() && #[trigger] s[i].handle == h
}

spec fn seq_tokens(s: Seq<Slot>) -> Map<u64, CompletionSignal> {
    Map::new(|h: u64| seq_holds(s, h), |h: u64| s[seq_slot_of(s, h)].signal)
}

spec fn free_count(s: Seq<Slot>) -> nat
    decreases s.len(),
{
    if s.len() == 0 {
        0
    } else {
        free_count(s.drop_last()) + if s.last().handle == 0 {
            1nat
        } else {
            0nat
        }
    }
}

spec fn handles_distinct(s: Seq<Slot>) -> bool {
    forall|i: int, j: int|
        0 <= i < s.len() && 0 <= j < s.len() && s[i].handle != 0 && #[trigger] s[i].handle
            == #[trigger] s[j].handle ==> i == j
}

/// Number of live slots whose handle the allocator, started at `start`, has
/// not yet stepped over after `k` steps.
spec fn unvisited_count(s: Seq<Slot>, start: u64, k: int) -> nat
    decreases s.len(),
{
    if s.len() == 0 {
        0
    } else {
        unvisited_count(s.drop_last(), start, k) + if s.last().handle != 0 && handle_distance(
            start,
            s.last().handle,
        ) >= k {
            1nat
        } else {
            0nat
        }
    }
}

proof fn lemma_unvisited_bounded(s: Seq<Slot>, start: u64, k: int)
    ensures
        unvisited_count(s, start, k) <= s.len(),
    decreases s.len(),
{
    if s.len() > 0 {
        lemma_unvisited_bounded(s.drop_last(), start, k);
    }
}

proof fn lemma_unvisited_step(s: Seq<Slot>, start: u64, k: int, c: u64)
    requires
        c != 0,
        handle_distance(start, c) == k,
        exists|i: int| 0 <= i < s.len() && #[trigger] s[i].handle == c,
    ensures
        unvisited_count(s, start, k + 1) < unvisited_count(s, start, k),
    decreases s.len(),
{
    let p = s.drop_last();
    lemma_unvisited_mono(p, start, k);
    if s.last().handle != c {
        let i = choose|i: int| 0 <= i < s.len() && #[trigger] s[i].handle == c;
        assert(p[i].handle == c);
        lemma_unvisited_step(p, start, k, c);
    }
}

proof fn lemma_unvisited_mono(s: Seq<Slot>, start: u64, k: int)
    ensures
        unvisited_count(s, start, k + 1) <= unvisited_count(s, start, k),
    decreases s.len(),
{
    if s.len() > 0 {
        lemma_unvisited_mono(s.drop_last(), start, k);
    }
}


proof fn lemma_free_count_update(s: Seq<Slot>, idx: int, x: Slot)
    requires
        0 <= idx < s.len(),
    ensures
        free_count(s.update(idx, x)) + (if s[idx].handle == 0 {
            1int
        } else {
            0int
        }) == free_count(s) + (if x.handle == 0 {
            1int
        } else {
            0int
        }),
    decreases s.len(),
{
    let s2 = s.update(idx, x);
    if idx == s.len() - 1 {
        assert(s2.drop_last() =~= s.drop_last());
    } else {
        assert(s2.drop_last() =~= s.drop_last().update(idx, x));
        lemma_free_count_update(s.drop_last(), idx, x);
    }
}

proof fn lemma_free_count_zero(s: Seq<Slot>)
    ensures
        free_count(s) == 0 <==> forall|i: int| 0 <= i < s.len() ==> #[trigger] s[i].handle != 0,
    decreases s.len(),
{
    if s.len() > 0 {
        let p = s.drop_last();
        lemma_free_count_zero(p);
        if free_count(s) == 0 {
            assert forall|i: int| 0 <= i < s.len() implies #[trigger] s[i].handle != 0 by {
                if i < s.len() - 1 {
                    assert(p[i] == s[i]);
                }
            }
        }
        if forall|i: int| 0 <= i < s.len() ==> #[trigger] s[i].handle != 0 {
            assert forall|i: int| 0 <= i < p.len() implies #[trigger] p[i].handle != 0 by {
                assert(p[i] == s[i]);
            }
            assert(s[s.len() - 1].handle != 0);
        }
    }
}

proof fn lemma_free_count_all_free(s: Seq<Slot>)
    requires
        forall|i: int| 0 <= i < s.len() ==> #[trigger] s[i].handle == 0,
    ensures
        free_count(s) == s.len(),
    decreases s.len(),
{
    if s.len() > 0 {
        let p = s.drop_last();
        assert forall|i: int| 0 <= i < p.len() implies #[trigger] p[i].handle == 0 by {
            assert(p[i] == s[i]);
        }
        lemma_free_count_all_free(p);
        assert(s[s.len() - 1].handle == 0);
    }
}

/// Filling a free slot with a fresh handle adds exactly that token.
proof fn lemma_fill_slot(s: Seq<Slot>, idx: int, x: Slot)
    requires
        handles_distinct(s),
        0 <= idx < s.len(),
        s[idx].handle == 0,
        x.handle != 0,
        !seq_holds(s, x.handle),
    ensures
        handles_distinct(s.update(idx, x)),
        seq_tokens(s.update(idx, x)) =~= seq_tokens(s).insert(x.handle, x.signal),
        free_count(s.update(idx, x)) + 1 == free_count(s),
{
    let s2 = s.update(idx, x);
    lemma_free_count_update(s, idx, x);
    assert forall|i: int, j: int|
        0 <= i < s2.len() && 0 <= j < s2.len() && s2[i].handle != 0 && #[trigger] s2[i].handle
            == #[trigger] s2[j].handle implies i == j by {
        if i != idx && j != idx {
            assert(s[i].handle == s[j].handle);
        } else if i == idx && j != idx {
            assert(s[j].handle == x.handle);
        } else if i != idx && j == idx {
            assert(s[i].handle == x.handle);
        }
    }
    assert forall|h: u64| seq_holds(s2, h) <==> (seq_holds(s, h) || h == x.handle) by {
        if seq_holds(s, h) {
            let i = choose|i: int| 0 <= i < s.len() && #[trigger] s[i].handle == h;
            assert(s2[i].handle == h);
        }
        if h == x.handle {
            assert(s2[idx].handle == h);
        }
        if seq_holds(s2, h) {
            let i = choose|i: int| 0 <= i < s2.len() && #[trigger] s2[i].handle == h;
            if i != idx {
                assert(s[i].handle == h);
            }
        }
    }
    assert forall|h: u64| seq_holds(s2, h) implies seq_tokens(s2)[h] == seq_tokens(s).insert(
        x.handle,
        x.signal,
    )[h] by {
        let i2 = seq_slot_of(s2, h);
        assert(s2[i2].handle == h);
        if h == x.handle {
            assert(s2[idx].handle == h);
        } else {
            let i1 = seq_slot_of(s, h);
            assert(s[i1].handle == h);
            assert(s2[i1].handle == h);
        }
    }
}

/// Clearing a live slot removes exactly its token.
proof fn lemma_clear_slot(s: Seq<Slot>, idx: int)
    requires
        handles_distinct(s),
        0 <= idx < s.len(),
        s[idx].handle != 0,
    ensures
        handles_distinct(s.update(idx, Slot { handle: 0, signal: CompletionSignal::Pending })),
        seq_tokens(s.update(idx, Slot { handle: 0, signal: CompletionSignal::Pending }))
            =~= seq_tokens(s).remove(s[idx].handle),
        free_count(s.update(idx, Slot { handle: 0, signal: CompletionSignal::Pending })) == free_count(s) + 1,
{
    let x = Slot { handle: 0, signal: CompletionSignal::Pending };
    let s2 = s.update(idx, x);
    let gone = s[idx].handle;
    lemma_free_count_update(s, idx, x);
    assert forall|i: int, j: int|
        0 <= i < s2.len() && 0 <= j < s2.len() && s2[i].handle != 0 && #[trigger] s2[i].handle
            == #[trigger] s2[j].handle implies i == j by {
        assert(s[i].handle == s[j].handle);
    }
    assert forall|h: u64| seq_holds(s2, h) <==> (seq_holds(s, h) && h != gone) by {
        if seq_holds(s, h) && h != gone {
            let i = choose|i: int| 0 <= i < s.len() && #[trigger] s[i].handle == h;
            assert(s2[i].handle == h);
        }
        if seq_holds(s2, h) {
            let i = choose|i: int| 0 <= i < s2.len() && #[trigger] s2[i].handle == h;
            assert(s[i].handle == h);
        }
    }
    assert forall|h: u64| seq_holds(s2, h) implies seq_tokens(s2)[h] == seq_tokens(s)[h] by {
        let i2 = seq_slot_of(s2, h);
        assert(s2[i2].handle == h);
        let i1 = seq_slot_of(s, h);
        assert(s[i1].handle == h);
    }
}

impl CompletionTable {
    /// Well-formedness: exactly `COMPLETION_TABLE_CAPACITY` slots, a non-zero
    /// allocator position, and no handle stored in two slots.
    pub closed spec fn wf(&self) -> bool {
        &&& self.slots@.len() == COMPLETION_TABLE_CAPACITY
        &&& self.next_handle != 0
        &&& handles_distinct(self.slots@)
    }

    /// Index of the first slot whose handle is `handle`.
    fn position(&self, handle: u64) -> (r: Option<usize>)
        ensures
            match r {
                Some(i) => {
                    &&& i < self.slots@.len()
                    &&& self.slots@[i as int].handle == handle
                    &&& forall|j: int| 0 <= j < i ==> self.slots@[j].handle != handle
                },
                None => forall|j: int| 0 <= j < self.slots@.len() ==> self.slots@[j].handle != handle,
            },
    {
        let len = COMPLETION_TABLE_CAPACITY;
        let mut i: usize = 0;
        while i < len
            invariant
                len == self.slots@.len(),
                i <= len,
                forall|j: int| 0 <= j < i ==> self.slots@[j].handle != handle,
            decreases len - i,
        {
            if self.slots[i].handle == handle {
                return Some(i);
            }
            i = i + 1;
        }
        None
    }

    /// Allocate the next non-zero handle that is not already live.
    fn allocate_handle(&mut self) -> (h: u64)
        requires
            old(self).wf(),
        ensures
            final(self).wf(),
            final(self).slots@ == old(self).slots@,
            h != 0,
            !seq_holds(old(self).slots@, h),
            forall|x: u64|
                x != 0 && #[trigger] handle_distance(old(self).next_handle, x) < handle_distance(
                    old(self).next_handle,
                    h,
                ) ==> seq_holds(old(self).slots@, x),
            final(self).next_handle == next_handle_after(h),
    {
        let ghost start = self.next_handle;
        let ghost mut k: int = 0;
        proof {
            lemma_unvisited_bounded(self.slots@, start, 0);
        }
        let mut next = self.next_handle;
        loop
            invariant
                self.wf(),
                self.slots@ == old(self).slots@,
                self.next_handle == start,
                old(self).next_handle == start,
                start != 0,
                next != 0,
                0 <= k <= 256,
                handle_distance(start, next) == k,
                k + unvisited_count(self.slots@, start, k) <= 256,
                forall|x: u64|
                    x != 0 && #[trigger] handle_distance(start, x) < k ==> seq_holds(self.slots@, x),
            decreases unvisited_count(self.slots@, start, k),
        {
            let candidate = next;
            next = if next == u64::MAX {
                1
            } else {
                next + 1
            };
            let found = self.position(candidate);
            if candidate != 0 && found.is_none() {
                self.next_handle = next;
                return candidate;
            }
            proof {
                lemma_unvisited_step(self.slots@, start, k, candidate);
                k = k + 1;
            }
        }
    }
}

impl View for CompletionTable {
    type V = TableView;

    closed spec fn view(&self) -> TableView {
        TableView {
            tokens: seq_tokens(self.slots@),
            free_slots: free_count(self.slots@),
            next_handle: self.next_handle,
        }
    }
}

impl CompletionTable {
    /// An empty table whose allocator starts at handle 1 (0 is reserved).
    pub fn new() -> (t: Self)
        ensures
            t.wf(),
            t@ == empty_table_view(),
            t@.tokens == Map::<u64, CompletionSignal>::empty(),
            t@.free_slots == COMPLETION_TABLE_CAPACITY,
            t@.next_handle == 1,
    {
        let slots = [Slot { handle: 0, signal: CompletionSignal::Pending };
            COMPLETION_TABLE_CAPACITY];
        let t = CompletionTable { slots, next_handle: 1 };
        proof {
            t.lemma_all_free_is_empty();
        }
        t
    }

    proof fn lemma_all_free_is_empty(&self)
        requires
            self.slots@.len() == COMPLETION_TABLE_CAPACITY,
            forall|j: int| 0 <= j < self.slots@.len() ==> #[trigger] self.slots@[j].handle == 0,
        ensures
            handles_distinct(self.slots@),
            seq_tokens(self.slots@) =~= Map::empty(),
            free_count(self.slots@) == COMPLETION_TABLE_CAPACITY,
    {
        lemma_free_count_all_free(self.slots@);
        assert forall|h: u64| !seq_holds(self.slots@, h) by {
            if seq_holds(self.slots@, h) {
                let i = choose|i: int| 0 <= i < self.slots@.len() && #[trigger] self.slots@[i].handle == h;
            }
        }
    }

    /// Store a new entry with status `signal`, returning its handle, or `None`
    /// when every slot is taken (then nothing changes, no handle is used up).
    pub fn insert(&mut self, signal: CompletionSignal) -> (r: Option<u64>)
        requires
            old(self).wf(),
        ensures
            final(self).wf(),
            r is None <==> old(self)@.free_slots == 0,
            table_step(old(self)@, final(self)@),
            r is None ==> final(self)@ == old(self)@,
            r matches Some(h) ==> {
                &&& h != 0
                &&& !old(self)@.tokens.dom().contains(h)
                &&& final(self)@.tokens == old(self)@.tokens.insert(h, signal)
                &&& final(self)@.free_slots + 1 == old(self)@.free_slots
                &&& final(self)@.next_handle != 0
                &&& is_first_free_handle(old(self)@.tokens, old(self)@.next_handle, h)
                &&& final(self)@ == view_after_insert(old(self)@, h, signal)
            },
    {
        proof {
            lemma_free_count_zero(self.slots@);
        }
        let index = match self.position(0) {
            Some(i) => i,
            None => return None,
        };
        let ghost old_view = self@;
        let handle = self.allocate_handle();
        let ghost before = self.slots@;
        proof {
            lemma_fill_slot(before, index as int, Slot { handle, signal });
        }
        self.slots[index] = Slot { handle, signal };
        proof {
            assert(self@ == view_after_insert(old_view, handle, signal));
        }
        Some(handle)
    }

    /// Consume the entry for `handle`, returning its status if present. A
    /// consumed (or never issued, or 0) handle yields `None` and changes nothing.
    pub fn take(&mut self, handle: u64) -> (r: Option<CompletionSignal>)
        requires
            old(self).wf(),
        ensures
            final(self).wf(),
            r == (if old(self)@.tokens.dom().contains(handle) {
                Some(old(self)@.tokens[handle])
            } else {
                None::<CompletionSignal>
            }),
            handle == 0 ==> r is None,
            r is None ==> final(self)@ == old(self)@,
            r is Some ==> final(self)@ == view_after_take(old(self)@, handle),
            r is Some ==> final(self)@.tokens == old(self)@.tokens.remove(handle)
                && final(self)@.free_slots == old(self)@.free_slots + 1
                && final(self)@.next_handle == old(self)@.next_handle,
            table_step(old(self)@, final(self)@),
    {
        if handle == 0 {
            return None;
        }
        let index = match self.position(handle) {
            Some(i) => i,
            None => return None,
        };
        let signal = self.slots[index].signal;
        let ghost before = self.slots@;
        proof {
            lemma_clear_slot(before, index as int);
            assert(seq_holds(before, handle));
            assert(before[seq_slot_of(before, handle)].handle == handle);
        }
        let ghost old_view = self@;
        self.slots[index] = Slot { handle: 0, signal: CompletionSignal::Pending };
        proof {
            assert(old_view.tokens.dom().contains(handle));
            assert(self@ == view_after_take(old_view, handle));
        }
        Some(signal)
    }

    /// Invalidate every outstanding token and reset the allocator to 1.
    pub fn clear(&mut self)
        requires
            old(self).wf(),
        ensures
            final(self).wf(),
            final(self)@ == empty_table_view(),
            final(self)@.tokens == Map::<u64, CompletionSignal>::empty(),
            final(self)@.free_slots == COMPLETION_TABLE_CAPACITY,
            final(self)@.next_handle == 1,
    {
        let len = COMPLETION_TABLE_CAPACITY;
        let mut i: usize = 0;
        while i < len
            invariant
                len == self.slots@.len(),
                len == COMPLETION_TABLE_CAPACITY,
                i <= len,
                forall|j: int| 0 <= j < i ==> #[trigger] self.slots@[j].handle == 0,
            decreases len - i,
        {
            self.slots[i] = Slot { handle: 0, signal: CompletionSignal::Pending };
            i = i + 1;
        }
        self.next_handle = 1;
        proof {
            self.lemma_all_free_is_empty();
        }
    }
}

/// A stored token is outstanding with the status it was stored with.
pub proof fn lemma_inserted_token_is_outstanding(v: TableView, h: u64, signal: CompletionSignal)
    ensures
        view_after_insert(v, h, signal).tokens.dom().contains(h),
        view_after_insert(v, h, signal).tokens[h] == signal,
{
}

/// Storing a token leaves every other token as it was.
pub proof fn lemma_insert_keeps_other_tokens(
    v: TableView,
    h: u64,
    signal: CompletionSignal,
    other: u64,
)
    requires
        other != h,
    ensures
        view_after_insert(v, h, signal).tokens.dom().contains(other) == v.tokens.dom().contains(
            other,
        ),
        v.tokens.dom().contains(other) ==> view_after_insert(v, h, signal).tokens[other]
            == v.tokens[other],
{
}

/// A consumed token is no longer outstanding.
pub proof fn lemma_taken_token_is_gone(v: TableView, h: u64)
    ensures
        !view_after_take(v, h).tokens.dom().contains(h),
{
}

/// Consuming a token leaves every other token as it was.
pub proof fn lemma_take_keeps_other_tokens(v: TableView, h: u64, other: u64)
    requires
        other != h,
    ensures
        view_after_take(v, h).tokens.dom().contains(other) == v.tokens.dom().contains(other),
        v.tokens.dom().contains(other) ==> view_after_take(v, h).tokens[other]
            == v.tokens[other],
{
}

/// A new or cleared table holds no token at all.
pub proof fn lemma_empty_table_holds_no_token(h: u64)
    ensures
        !empty_table_view().tokens.dom().contains(h),
{
}

/// The allocator's choice is determined: from a given position and set of
/// outstanding tokens there is exactly one first free handle.
pub proof fn lemma_first_free_handle_unique(
    tokens: Map<u64, CompletionSignal>,
    start: u64,
    h1: u64,
    h2: u64,
)
    requires
        is_first_free_handle(tokens, start, h1),
        is_first_free_handle(tokens, start, h2),
    ensures
        h1 == h2,
{
    if handle_distance(start, h1) < handle_distance(start, h2) {
        assert(tokens.dom().contains(h1));
    } else if handle_distance(start, h2) < handle_distance(start, h1) {
        assert(tokens.dom().contains(h2));
    }
}

/// An issued handle is never 0 and never names a token still outstanding, so
/// two insertions in a row never hand out the same handle.
pub proof fn lemma_successive_handles_distinct(
    v: TableView,
    h1: u64,
    signal: CompletionSignal,
    h2: u64,
)
    requires
        is_first_free_handle(v.tokens, v.next_handle, h1),
        is_first_free_handle(
            view_after_insert(v, h1, signal).tokens,
            view_after_insert(v, h1, signal).next_handle,
            h2,
        ),
    ensures
        h1 != 0,
        h2 != 0,
        h1 != h2,
        !v.tokens.dom().contains(h1),
{
}

proof fn lemma_tokens_count(s: Seq<Slot>)
    requires
        handles_distinct(s),
    ensures
        seq_tokens(s).dom().finite(),
        seq_tokens(s).dom().len() + free_count(s) == s.len(),
    decreases s.len(),
{
    if s.len() == 0 {
        assert(seq_tokens(s).dom() =~= Set::<u64>::empty());
    } else {
        let p = s.drop_last();
        let last = s.last();
        assert forall|i: int, j: int|
            0 <= i < p.len() && 0 <= j < p.len() && p[i].handle != 0 && #[trigger] p[i].handle
                == #[trigger] p[j].handle implies i == j by {
            assert(s[i].handle == s[j].handle);
        }
        lemma_tokens_count(p);
        assert forall|h: u64| seq_holds(p, h) implies seq_holds(s, h) by {
            let i = choose|i: int| 0 <= i < p.len() && #[trigger] p[i].handle == h;
            assert(s[i].handle == h);
        }
        assert forall|h: u64| seq_holds(s, h) && h != last.handle implies seq_holds(p, h) by {
            let i = choose|i: int| 0 <= i < s.len() && #[trigger] s[i].handle == h;
            assert(p[i].handle == h);
        }
        if last.handle == 0 {
            assert(seq_tokens(s).dom() =~= seq_tokens(p).dom());
        } else {
            assert(s[s.len() - 1].handle == last.handle);
            assert(!seq_holds(p, last.handle)) by {
                if seq_holds(p, last.handle) {
                    let i = choose|i: int| 0 <= i < p.len() && #[trigger] p[i].handle == last.handle;
                    assert(s[i].handle == s[s.len() - 1].handle);
                }
            }
            assert(seq_tokens(s).dom() =~= seq_tokens(p).dom().insert(last.handle));
        }
    }
}

/// The table never holds more outstanding tokens than its capacity: every slot
/// is either free or holds exactly one outstanding token.
pub proof fn lemma_capacity_bounds_outstanding_tokens(t: &CompletionTable)
    requires
        t.wf(),
    ensures
        t@.tokens.dom().finite(),
        t@.tokens.dom().len() + t@.free_slots == COMPLETION_TABLE_CAPACITY,
{
    lemma_tokens_count(t.slots@);
}

/// No well-formed table ever has an outstanding token with the reserved
/// handle 0.
pub proof fn lemma_no_token_has_handle_zero(t: &CompletionTable)
    requires
        t.wf(),
    ensures
        !t@.tokens.dom().contains(0),
{
}

/// One step of a run keeps every token below the cursor and never moves the
/// cursor back; a store issues exactly the cursor's handle and advances the
/// cursor by one.
proof fn lemma_step_in_run(a: TableView, b: TableView)
    requires
        table_step(a, b),
        tokens_below_cursor(a),
        a.next_handle < u64::MAX,
    ensures
        tokens_below_cursor(b),
        a.next_handle <= b.next_handle,
        forall|h: u64, signal: CompletionSignal|
            is_first_free_handle(a.tokens, a.next_handle, h) && b == #[trigger] view_after_insert(
                a,
                h,
                signal,
            ) ==> h == a.next_handle && b.next_handle == a.next_handle + 1,
{
    assert forall|h: u64| #[trigger] is_first_free_handle(a.tokens, a.next_handle, h) implies h
        == a.next_handle by {
        if h != a.next_handle {
            assert(handle_distance(a.next_handle, a.next_handle) == 0);
            assert(a.tokens.dom().contains(a.next_handle));
        }
    }
    if b != a {
        if exists|h: u64, signal: CompletionSignal|
            is_first_free_handle(a.tokens, a.next_handle, h) && b == #[trigger] view_after_insert(
                a,
                h,
                signal,
            ) {
            let (h, signal) = choose|h: u64, signal: CompletionSignal|
                is_first_free_handle(a.tokens, a.next_handle, h) && b == #[trigger] view_after_insert(
                    a,
                    h,
                    signal,
                );
            assert(h == a.next_handle);
            assert forall|x: u64| #[trigger] b.tokens.dom().contains(x) implies 0 < x
                < b.next_handle by {
                if x != h {
                    assert(a.tokens.dom().contains(x));
                }
            }
        } else {
            let h = choose|h: u64|
                a.tokens.dom().contains(h) && b == #[trigger] view_after_take(a, h);
            assert forall|x: u64| #[trigger] b.tokens.dom().contains(x) implies 0 < x
                < b.next_handle by {
                assert(a.tokens.dom().contains(x));
            }
        }
    }
}

/// Along a run, every state keeps its tokens below the cursor and the cursor
/// never moves back.
proof fn lemma_run_invariant(states: Seq<TableView>)
    requires
        is_run_since_reset(states),
    ensures
        forall|k: int| 0 <= k < states.len() ==> #[trigger] tokens_below_cursor(states[k]),
        forall|i: int, j: int|
            0 <= i <= j < states.len() ==> #[trigger] states[i].next_handle
                <= #[trigger] states[j].next_handle,
    decreases states.len(),
{
    if states.len() > 1 {
        let p = states.drop_last();
        assert forall|k: int| 0 <= k < p.len() - 1 implies #[trigger] table_step(p[k], p[k + 1]) by {
            assert(table_step(states[k], states[k + 1]));
        }
        assert forall|k: int| 0 <= k < p.len() implies #[trigger] p[k].next_handle < u64::MAX by {
            assert(states[k].next_handle < u64::MAX);
        }
        lemma_run_invariant(p);
        let n = states.len() - 1;
        let m = n - 1;
        assert(table_step(states[m], states[m + 1]));
        assert(states[m + 1] == states[n]);
        assert(tokens_below_cursor(p[n - 1]));
        assert(states[n - 1].next_handle < u64::MAX);
        lemma_step_in_run(states[n - 1], states[n]);
        assert forall|k: int| 0 <= k < states.len() implies #[trigger] tokens_below_cursor(
            states[k],
        ) by {
            if k < n {
                assert(tokens_below_cursor(p[k]));
            }
        }
        assert forall|i: int, j: int|
            0 <= i <= j < states.len() implies #[trigger] states[i].next_handle
            <= #[trigger] states[j].next_handle by {
            if j < n {
                assert(p[i].next_handle <= p[j].next_handle);
            } else if i < n {
                assert(p[i].next_handle <= p[n - 1].next_handle);
            }
        }
    } else {
        assert(tokens_below_cursor(states[0]));
    }
}

/// Within a run since the last reset, stores issue strictly increasing,
/// non-zero handles: a handle is never issued twice, whether or not its token
/// was consumed in between.
pub proof fn lemma_run_issues_increasing_handles(
    states: Seq<TableView>,
    i: int,
    hi: u64,
    si: CompletionSignal,
    j: int,
    hj: u64,
    sj: CompletionSignal,
)
    requires
        is_run_since_reset(states),
        0 <= i < j,
        j + 1 < states.len(),
        is_first_free_handle(states[i].tokens, states[i].next_handle, hi),
        states[i + 1] == view_after_insert(states[i], hi, si),
        is_first_free_handle(states[j].tokens, states[j].next_handle, hj),
        states[j + 1] == view_after_insert(states[j], hj, sj),
    ensures
        0 < hi < hj,
{
    lemma_run_invariant(states);
    assert(tokens_below_cursor(states[i]));
    assert(tokens_below_cursor(states[j]));
    assert(states[i].next_handle < u64::MAX);
    assert(states[j].next_handle < u64::MAX);
    assert(table_step(states[i], states[i + 1]));
    assert(table_step(states[j], states[j + 1]));
    lemma_step_in_run(states[i], states[i + 1]);
    lemma_step_in_run(states[j], states[j + 1]);
    assert(states[i + 1].next_handle <= states[j].next_handle);
}

/// Within a run, a token outstanding at some state is never issued again by
/// any later store, before or after it is consumed.
pub proof fn lemma_run_never_reissues_a_token(
    states: Seq<TableView>,
    i: int,
    h: u64,
    k: int,
    hk: u64,
    sk: CompletionSignal,
)
    requires
        is_run_since_reset(states),
        0 <= i <= k,
        k + 1 < states.len(),
        states[i].tokens.dom().contains(h),
        is_first_free_handle(states[k].tokens, states[k].next_handle, hk),
        states[k + 1] == view_after_insert(states[k], hk, sk),
    ensures
        hk != h,
{
    lemma_run_invariant(states);
    assert(tokens_below_cursor(states[i]));
    assert(tokens_below_cursor(states[k]));
    assert(states[k].next_handle < u64::MAX);
    assert(table_step(states[k], states[k + 1]));
    lemma_step_in_run(states[k], states[k + 1]);
    assert(states[i].next_handle <= states[k].next_handle);
}

/// Within a run, once a token is consumed it stays unrecognized in every
/// later state, whatever stores and polls come in between.
pub proof fn lemma_run_consumed_token_stays_gone(states: Seq<TableView>, i: int, h: u64, j: int)
    requires
        is_run_since_reset(states),
        0 <= i,
        i + 1 <= j < states.len(),
        states[i].tokens.dom().contains(h),
        states[i + 1] == view_after_take(states[i], h),
    ensures
        !states[j].tokens.dom().contains(h),
    decreases j - i,
{
    lemma_run_invariant(states);
    if j > i + 1 {
        lemma_run_consumed_token_stays_gone(states, i, h, j - 1);
        let m = j - 1;
        let a = states[m];
        let b = states[m + 1];
        assert(table_step(a, b));
        assert(tokens_below_cursor(a));
        assert(tokens_below_cursor(states[i]));
        assert(a.next_handle < u64::MAX);
        assert(states[i].next_handle <= a.next_handle);
        lemma_step_in_run(a, b);
        if b != a {
            if exists|x: u64, signal: CompletionSignal|
                is_first_free_handle(a.tokens, a.next_handle, x) && b == #[trigger] view_after_insert(
                    a,
                    x,
                    signal,
                ) {
                let (x, signal) = choose|x: u64, signal: CompletionSignal|
                    is_first_free_handle(a.tokens, a.next_handle, x) && b
                        == #[trigger] view_after_insert(a, x, signal);
                assert(x == a.next_handle);
            } else {
                let x = choose|x: u64|
                    a.tokens.dom().contains(x) && b == #[trigger] view_after_take(a, x);
            }
        }
    }
}

/// A reset table holds no token, has every slot free, and restarts the
/// allocator at handle 1.
pub proof fn lemma_reset_table_is_empty()
    ensures
        empty_table_view().tokens == Map::<u64, CompletionSignal>::empty(),
        empty_table_view().free_slots == COMPLETION_TABLE_CAPACITY,
        empty_table_view().next_handle == 1,
{
    assert(empty_table_view().tokens =~= Map::<u64, CompletionSignal>::empty());
}

/// The allocator's successor is one step further in its cyclic order: never
/// the reserved 0, the next integer below `u64::MAX`, and 1 after `u64::MAX`.
pub proof fn lemma_next_handle_after_steps_by_one(h: u64)
    ensures
        next_handle_after(h) != 0,
        h < u64::MAX ==> next_handle_after(h) == h + 1,
        h == u64::MAX ==> next_handle_after(h) == 1,
{
}

/// Storing a token uses up one free slot and adds exactly that token; it moves
/// the allocator to a non-zero handle.
pub proof fn lemma_store_uses_one_slot(v: TableView, h: u64, signal: CompletionSignal)
    requires
        v.free_slots > 0,
    ensures
        view_after_insert(v, h, signal).tokens == v.tokens.insert(h, signal),
        view_after_insert(v, h, signal).free_slots + 1 == v.free_slots,
        view_after_insert(v, h, signal).next_handle != 0,
{
}

/// Consuming a token frees one slot, removes exactly that token, and leaves
/// the allocator where it was.
pub proof fn lemma_consume_frees_one_slot(v: TableView, h: u64)
    ensures
        view_after_take(v, h).tokens == v.tokens.remove(h),
        view_after_take(v, h).free_slots == v.free_slots + 1,
        view_after_take(v, h).next_handle == v.next_handle,
{
}

} // verus!
