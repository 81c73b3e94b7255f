//! The timeline of a change list: its distinct times in ascending order.

use crate::waveform::ChangeView;
use vstd::prelude::*;

verus! {

/// Whether each element of `times` is less than the next.
pub open spec fn strictly_ascending(times: Seq<u64>) -> bool {
    forall|i: int, j: int| 0 <= i < j < times.len() ==> times[i] < times[j]
}

/// The number of elements of `times` that are less than `t`.
pub open spec fn spec_rank(times: Seq<u64>, t: u64) -> int
    decreases times.len(),
{
    if times.len() == 0 {
        0
    } else {
        spec_rank(times.drop_last(), t) + if times.last() < t {
            1int
        } else {
            0int
        }
    }
}

/// `times` with `t` put in, after the elements that are less than it, unless it is there
/// already.
pub open spec fn spec_insert_time(times: Seq<u64>, t: u64) -> Seq<u64> {
    if times.contains(t) {
        times
    } else {
        times.insert(spec_rank(times, t), t)
    }
}

/// The distinct times of `changes` in ascending order.
pub open spec fn spec_timeline(changes: Seq<ChangeView>) -> Seq<u64>
    decreases changes.len(),
{
    if changes.len() == 0 {
        Seq::empty()
    } else {
        spec_insert_time(spec_timeline(changes.drop_last()), changes.last().time)
    }
}

/// Whether some change of `changes` is made at `t`.
pub open spec fn has_time(changes: Seq<ChangeView>, t: u64) -> bool {
    exists|i: int| 0 <= i < changes.len() && (#[trigger] changes[i]).time == t
}

/// An index that parts `times` into the elements less than `t` and the others is the rank
/// of `t`.
pub proof fn lemma_rank_is(times: Seq<u64>, t: u64, p: int)
    requires
        0 <= p <= times.len(),
        forall|j: int| 0 <= j < p ==> times[j] < t,
        forall|j: int| p <= j < times.len() ==> times[j] >= t,
    ensures
        spec_rank(times, t) == p,
    decreases times.len(),
{
    if times.len() > 0 {
        let shorter = times.drop_last();
        if p == times.len() {
            lemma_rank_is(shorter, t, p - 1);
        } else {
            lemma_rank_is(shorter, t, p);
        }
    }
}

/// In an ascending sequence the rank of `t` parts the elements less than `t` from the others.
pub proof fn lemma_rank_parts(times: Seq<u64>, t: u64)
    requires
        strictly_ascending(times),
    ensures
        0 <= spec_rank(times, t) <= times.len(),
        forall|j: int| 0 <= j < spec_rank(times, t) ==> times[j] < t,
        forall|j: int| spec_rank(times, t) <= j < times.len() ==> times[j] >= t,
    decreases times.len(),
{
    if times.len() > 0 {
        let shorter = times.drop_last();
        lemma_rank_parts(shorter, t);
        let r = spec_rank(times, t);
        assert forall|j: int| 0 <= j < r implies times[j] < t by {
            if j < shorter.len() {
                assert(times[j] == shorter[j]);
            }
        }
        assert forall|j: int| r <= j < times.len() implies times[j] >= t by {
            if j < shorter.len() {
                assert(times[j] == shorter[j]);
            }
        }
    }
}

/// Putting a time into an ascending sequence keeps it ascending, and adds that time and no
/// other.
pub proof fn lemma_insert_time(times: Seq<u64>, t: u64)
    requires
        strictly_ascending(times),
    ensures
        strictly_ascending(spec_insert_time(times, t)),
        forall|x: u64| spec_insert_time(times, t).contains(x) <==> (times.contains(x) || x == t),
{
    let after = spec_insert_time(times, t);
    if !times.contains(t) {
        lemma_rank_parts(times, t);
        let p = spec_rank(times, t);
        assert forall|x: u64| after.contains(x) <==> (times.contains(x) || x == t) by {
            if times.contains(x) {
                let k = choose|k: int| 0 <= k < times.len() && times[k] == x;
                if k < p {
                    assert(after[k] == x);
                } else {
                    assert(after[k + 1] == x);
                }
            }
            if x == t {
                assert(after[p] == x);
            }
        }
    }
}

/// The timeline is ascending, and holds the times at which a change is made and no others.
pub proof fn lemma_timeline(changes: Seq<ChangeView>)
    ensures
        strictly_ascending(spec_timeline(changes)),
        forall|t: u64| spec_timeline(changes).contains(t) <==> has_time(changes, t),
    decreases changes.len(),
{
    if changes.len() > 0 {
        let before = changes.drop_last();
        let last = changes.last().time;
        lemma_timeline(before);
        lemma_insert_time(spec_timeline(before), last);
        assert forall|t: u64| spec_timeline(changes).contains(t) <==> has_time(changes, t) by {
            if has_time(changes, t) {
                let i = choose|i: int| 0 <= i < changes.len() && (#[trigger] changes[i]).time == t;
                if i < before.len() {
                    assert(before[i].time == t);
                }
            }
            if has_time(before, t) {
                let i = choose|i: int| 0 <= i < before.len() && (#[trigger] before[i]).time == t;
                assert(changes[i].time == t);
            }
        }
    } else {
        assert forall|t: u64| spec_timeline(changes).contains(t) <==> has_time(changes, t) by {}
    }
}

/// Finds the place of `t` in `times` by halving. For an ascending sequence this is the number
/// of its elements that are less than `t`, which is where `t` stands if it is among them.
pub fn find_slot(times: &Vec<u64>, t: u64) -> (p: usize)
    ensures
        p <= times@.len(),
        strictly_ascending(times@) ==> p == spec_rank(times@, t),
        strictly_ascending(times@) ==> (times@.contains(t) <==> (p < times@.len() && times@[p as int]
            == t)),
{
    let mut lo: usize = 0;
    let mut hi: usize = times.len();
    while lo < hi
        invariant
            lo <= hi <= times@.len(),
            strictly_ascending(times@) ==> forall|j: int| 0 <= j < lo ==> times@[j] < t,
            strictly_ascending(times@) ==> forall|j: int| hi <= j < times@.len() ==> times@[j] >= t,
        decreases hi - lo,
    {
        let mid = lo + (hi - lo) / 2;
        if times[mid] < t {
            lo = mid + 1;
        } else {
            hi = mid;
        }
    }
    proof {
        if strictly_ascending(times@) {
            lemma_rank_is(times@, t, lo as int);
        }
    }
    lo
}

} // verus!
