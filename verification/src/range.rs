//! The changes of one signal within a range of time.
//!
//! The changes are recorded against a table of times: each holds the index of its time in the
//! table, and its value as text.

use vstd::prelude::*;

verus! {

/// A recorded change of a signal: the index of its time in the time table, and its value.
#[derive(Debug, Clone)]
pub struct RecordedChange {
    pub time_index: u32,
    pub value: String,
}

/// A [`RecordedChange`] as plain values.
pub struct RecordedChangeView {
    pub time_index: nat,
    pub value: Seq<char>,
}

impl View for RecordedChange {
    type V = RecordedChangeView;

    open spec fn view(&self) -> RecordedChangeView {
        RecordedChangeView { time_index: self.time_index as nat, value: self.value@ }
    }
}

/// A change of a signal: its time and its value.
#[derive(Debug, Clone)]
pub struct SignalChange {
    pub time: u64,
    pub value: String,
}

/// A [`SignalChange`] as plain values.
pub struct SignalChangeView {
    pub time: u64,
    pub value: Seq<char>,
}

impl View for SignalChange {
    type V = SignalChangeView;

    open spec fn view(&self) -> SignalChangeView {
        SignalChangeView { time: self.time, value: self.value@ }
    }
}

/// The views of a sequence of recorded changes.
pub open spec fn recorded_view(changes: Seq<RecordedChange>) -> Seq<RecordedChangeView> {
    Seq::new(changes.len(), |i: int| changes[i]@)
}

/// The views of a sequence of changes.
pub open spec fn selected_view(changes: Seq<SignalChange>) -> Seq<SignalChangeView> {
    Seq::new(changes.len(), |i: int| changes[i]@)
}

/// Whether every change of `changes` has its time in a table of `count` times.
pub open spec fn times_known(changes: Seq<RecordedChangeView>, count: nat) -> bool {
    forall|i: int| 0 <= i < changes.len() ==> (#[trigger] changes[i]).time_index < count
}

/// The time of a recorded change.
pub open spec fn time_of(times: Seq<u64>, change: RecordedChangeView) -> u64 {
    times[change.time_index as int]
}

/// Whether a change ends the search: it is made after `end`, and not before `start`.
pub open spec fn is_past(times: Seq<u64>, change: RecordedChangeView, start: u64, end: u64) -> bool {
    time_of(times, change) >= start && time_of(times, change) > end
}

/// The index of the first change of `changes` that ends the search, or `changes.len()` where
/// none does.
pub open spec fn spec_stop(
    times: Seq<u64>,
    changes: Seq<RecordedChangeView>,
    start: u64,
    end: u64,
) -> int
    decreases changes.len(),
{
    if changes.len() == 0 || is_past(times, changes[0], start, end) {
        0
    } else {
        1 + spec_stop(times, changes.skip(1), start, end)
    }
}

/// Those of `changes` that are not made before `start`, with their times, in their order.
pub open spec fn spec_from(times: Seq<u64>, changes: Seq<RecordedChangeView>, start: u64) -> Seq<
    SignalChangeView,
>
    decreases changes.len(),
{
    if changes.len() == 0 {
        Seq::empty()
    } else {
        let before = spec_from(times, changes.drop_last(), start);
        let last = changes.last();
        if time_of(times, last) >= start {
            before.push(SignalChangeView { time: time_of(times, last), value: last.value })
        } else {
            before
        }
    }
}

/// The changes from `start` to `end`: those not made before `start`, among the changes that
/// come before the first one made after `end`.
pub open spec fn spec_changes_in_range(
    times: Seq<u64>,
    changes: Seq<RecordedChangeView>,
    start: u64,
    end: u64,
) -> Seq<SignalChangeView> {
    spec_from(times, changes.take(spec_stop(times, changes, start, end)), start)
}

/// An index before which no change ends the search, and at which one does or the changes
/// end, is the index at which the search stops.
pub proof fn lemma_stop_is(
    times: Seq<u64>,
    changes: Seq<RecordedChangeView>,
    start: u64,
    end: u64,
    i: int,
)
    requires
        0 <= i <= changes.len(),
        forall|j: int| 0 <= j < i ==> !is_past(times, #[trigger] changes[j], start, end),
        i < changes.len() ==> is_past(times, changes[i], start, end),
    ensures
        spec_stop(times, changes, start, end) == i,
    decreases i,
{
    if i > 0 {
        let rest = changes.skip(1);
        lemma_stop_is(times, rest, start, end, i - 1);
    }
}

/// Every change selected lies in the range.
pub proof fn lemma_selected_in_range(
    times: Seq<u64>,
    changes: Seq<RecordedChangeView>,
    start: u64,
    end: u64,
    n: int,
)
    requires
        0 <= n <= changes.len(),
        forall|j: int| 0 <= j < n ==> !is_past(times, #[trigger] changes[j], start, end),
    ensures
        forall|k: int|
            0 <= k < spec_from(times, changes.take(n), start).len() ==> start <= (
            #[trigger] spec_from(times, changes.take(n), start)[k]).time <= end,
    decreases n,
{
    let selected = spec_from(times, changes.take(n), start);
    if n > 0 {
        lemma_selected_in_range(times, changes, start, end, n - 1);
        assert(changes.take(n).drop_last() =~= changes.take(n - 1));
        let before = spec_from(times, changes.take(n - 1), start);
        assert forall|k: int| 0 <= k < selected.len() implies start <= (#[trigger] selected[k]).time
            <= end by {
            if k < before.len() {
                assert(selected[k] == before[k]);
            }
        }
    }
}

/// Whether the times of `changes` never go back.
pub open spec fn in_time_order(times: Seq<u64>, changes: Seq<RecordedChangeView>) -> bool {
    forall|i: int, j: int|
        0 <= i <= j < changes.len() ==> time_of(times, #[trigger] changes[i]) <= time_of(
            times,
            #[trigger] changes[j],
        )
}

/// Those of `changes` that are made from `start` to `end`, with their times, in their order.
pub open spec fn spec_within(
    times: Seq<u64>,
    changes: Seq<RecordedChangeView>,
    start: u64,
    end: u64,
) -> Seq<SignalChangeView>
    decreases changes.len(),
{
    if changes.len() == 0 {
        Seq::empty()
    } else {
        let before = spec_within(times, changes.drop_last(), start, end);
        let last = changes.last();
        if start <= time_of(times, last) <= end {
            before.push(SignalChangeView { time: time_of(times, last), value: last.value })
        } else {
            before
        }
    }
}

/// Among changes none of which ends the search, those not made before `start` are those made
/// from `start` to `end`.
pub proof fn lemma_from_is_within(
    times: Seq<u64>,
    changes: Seq<RecordedChangeView>,
    start: u64,
    end: u64,
)
    requires
        forall|j: int| 0 <= j < changes.len() ==> !is_past(times, #[trigger] changes[j], start, end),
    ensures
        spec_from(times, changes, start) == spec_within(times, changes, start, end),
    decreases changes.len(),
{
    if changes.len() > 0 {
        let shorter = changes.drop_last();
        lemma_from_is_within(times, shorter, start, end);
    }
}

/// Changes that all end the search add nothing to the changes made from `start` to `end`.
pub proof fn lemma_within_ignores_past(
    times: Seq<u64>,
    changes: Seq<RecordedChangeView>,
    start: u64,
    end: u64,
    n: int,
)
    requires
        0 <= n <= changes.len(),
        forall|j: int| n <= j < changes.len() ==> is_past(times, #[trigger] changes[j], start, end),
    ensures
        spec_within(times, changes, start, end) == spec_within(times, changes.take(n), start, end),
    decreases changes.len() - n,
{
    if n < changes.len() {
        let shorter = changes.drop_last();
        lemma_within_ignores_past(times, shorter, start, end, n);
        assert(shorter.take(n) =~= changes.take(n));
    } else {
        assert(changes.take(n) =~= changes);
    }
}

/// For changes in the order of their times, the changes selected are all the changes made
/// from `start` to `end`.
pub proof fn lemma_range_of_ordered(
    times: Seq<u64>,
    changes: Seq<RecordedChangeView>,
    start: u64,
    end: u64,
)
    requires
        in_time_order(times, changes),
    ensures
        spec_changes_in_range(times, changes, start, end) == spec_within(
            times,
            changes,
            start,
            end,
        ),
{
    lemma_stop(times, changes, start, end);
    let stop = spec_stop(times, changes, start, end);
    let head = changes.take(stop);
    lemma_from_is_within(times, head, start, end);
    lemma_within_ignores_past(times, changes, start, end, stop);
}

/// The search stops in range, at a change that ends it if at any, and after changes that do
/// not.
pub proof fn lemma_stop(times: Seq<u64>, changes: Seq<RecordedChangeView>, start: u64, end: u64)
    ensures
        0 <= spec_stop(times, changes, start, end) <= changes.len(),
        forall|j: int|
            0 <= j < spec_stop(times, changes, start, end) ==> !is_past(
                times,
                #[trigger] changes[j],
                start,
                end,
            ),
        spec_stop(times, changes, start, end) < changes.len() ==> is_past(
            times,
            changes[spec_stop(times, changes, start, end)],
            start,
            end,
        ),
    decreases changes.len(),
{
    if !(changes.len() == 0 || is_past(times, changes[0], start, end)) {
        let rest = changes.skip(1);
        lemma_stop(times, rest, start, end);
        assert forall|j: int| 0 <= j < spec_stop(times, changes, start, end) implies !is_past(
            times,
            #[trigger] changes[j],
            start,
            end,
        ) by {
            if j > 0 {
                assert(changes[j] == rest[j - 1]);
            }
        }
    }
}

/// Selects the changes from `start` to `end`.
///
/// The changes are taken in their order up to the first one that is made after `end`; of
/// those, the ones made at `start` or later are returned with their times. The time of every
/// change must be in the time table.
pub fn changes_in_range(
    times: &[u64],
    changes: &[RecordedChange],
    start: u64,
    end: u64,
) -> (selected: Vec<SignalChange>)
    requires
        times_known(recorded_view(changes@), times@.len()),
    ensures
        selected_view(selected@) == spec_changes_in_range(
            times@,
            recorded_view(changes@),
            start,
            end,
        ),
        forall|k: int| 0 <= k < selected@.len() ==> start <= (#[trigger] selected@[k]).time <= end,
{
    let ghost all = recorded_view(changes@);
    let mut selected: Vec<SignalChange> = Vec::new();
    let mut i: usize = 0;
    while i < changes.len()
        invariant
            i <= changes@.len(),
            all == recorded_view(changes@),
            times_known(all, times@.len()),
            forall|j: int| 0 <= j < i ==> !is_past(times@, #[trigger] all[j], start, end),
            selected_view(selected@) == spec_from(times@, all.take(i as int), start),
        ensures
            i < changes@.len() ==> is_past(times@, all[i as int], start, end),
        decreases changes@.len() - i,
    {
        let change = &changes[i];
        proof {
            assert(all[i as int] == change@);
            assert(all.take(i + 1).drop_last() =~= all.take(i as int));
        }
        let time = times[change.time_index as usize];
        if time >= start {
            if time > end {
                break ;
            }
            let picked = SignalChange { time, value: change.value.clone() };
            selected.push(picked);
        }
        i += 1;
    }
    proof {
        lemma_stop_is(times@, all, start, end, i as int);
        lemma_selected_in_range(times@, all, start, end, i as int);
        assert forall|k: int| 0 <= k < selected@.len() implies start <= (
        #[trigger] selected@[k]).time <= end by {
            assert(selected_view(selected@)[k] == selected@[k]@);
        }
    }
    selected
}

} // verus!
