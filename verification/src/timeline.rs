//! Rate limit samples, and the timeline of those that count.
//!
//! A sample says which share of the weekly quota was used at some time, and when
//! the quota resets. A sample counts if it is recent and sensible; where samples
//! of the same time contradict each other, none of them is taken.

use crate::double::{
    half, lemma_patterns_of_whole_numbers, whole, Double, HUNDRED_BITS, ZERO_BITS,
};
use crate::order::{goes_before, is_stable_order, law_stable_order_takes_every_position_once, stable_order};
use vstd::arithmetic::power2::pow2;
use vstd::prelude::*;

verus! {

/// Ninety days.
pub const RECENT_WINDOW_MILLIS: i64 = 7_776_000_000;

/// The start of the window that ends at `now_millis`, as far as time goes back.
pub open spec fn window_start(now_millis: i64) -> int {
    if now_millis - RECENT_WINDOW_MILLIS < i64::MIN {
        i64::MIN as int
    } else {
        now_millis - RECENT_WINDOW_MILLIS
    }
}

/// The first millisecond of the window of samples that still count at `now_millis`.
pub fn recent_window_start_millis(now_millis: i64) -> (r: i64)
    ensures
        r == window_start(now_millis),
{
    if now_millis < i64::MIN + RECENT_WINDOW_MILLIS {
        i64::MIN
    } else {
        now_millis - RECENT_WINDOW_MILLIS
    }
}

/// A share of the weekly quota in percent, together with the floating point sum
/// of that share and one half.
#[derive(Clone, Copy, Debug, PartialEq)]
pub struct UsedPercent {
    pub percent: Double,
    pub plus_half: Double,
}

impl UsedPercent {
    /// The share lies from nothing to everything.
    pub open spec fn in_range(self) -> bool {
        !self.percent.is_nan() && whole(0) <= self.percent.value() <= whole(100)
    }

    /// The sum is that of the share and one half, rounded as floating point sums are.
    pub open spec fn is_summed(self) -> bool {
        !self.percent.is_nan() ==> self.plus_half.is_nearest(self.percent.value() + half())
    }

    /// The share is smaller than the other by more than one half.
    pub open spec fn dropped_from(self, other: UsedPercent) -> bool {
        self.plus_half.spec_less_than(other.percent)
    }
}

/// One rate limit sample.
#[derive(Clone, Debug, PartialEq)]
pub struct CodexWeeklyRateLimitObservation {
    /// When the sample was taken, as it was recorded.
    pub timestamp: String,
    /// The recorded time in milliseconds, where it can be read as a time.
    pub timestamp_millis: Option<i64>,
    pub used_percent: UsedPercent,
    /// When the quota resets, in seconds.
    pub resets_at: i64,
}

impl CodexWeeklyRateLimitObservation {
    pub open spec fn millis(&self) -> int {
        self.timestamp_millis->0 as int
    }

    /// The sample counts: its time is known and in the window, its share sensible.
    pub open spec fn is_recent(&self, now_millis: i64) -> bool {
        &&& self.timestamp_millis is Some
        &&& window_start(now_millis) <= self.millis() <= now_millis
        &&& self.used_percent.in_range()
    }

    /// The two samples say the same.
    pub open spec fn agrees_with(&self, other: &CodexWeeklyRateLimitObservation) -> bool {
        &&& self.used_percent.percent.spec_equals(other.used_percent.percent)
        &&& self.resets_at == other.resets_at
    }

    /// The two samples say the same of the same time.
    pub open spec fn is_same_sample(&self, other: &CodexWeeklyRateLimitObservation) -> bool {
        self.millis() == other.millis() && self.agrees_with(other)
    }

    fn recent(&self, now_millis: i64) -> (r: bool)
        ensures
            r == self.is_recent(now_millis),
    {
        let since_millis = recent_window_start_millis(now_millis);
        proof {
            lemma_patterns_of_whole_numbers();
        }
        match self.timestamp_millis {
            None => false,
            Some(timestamp) => {
                timestamp >= since_millis && timestamp <= now_millis
                    && (Double { bits: ZERO_BITS }).at_most(&self.used_percent.percent)
                    && self.used_percent.percent.at_most(&(Double { bits: HUNDRED_BITS }))
            },
        }
    }

    fn agrees(&self, other: &CodexWeeklyRateLimitObservation) -> (r: bool)
        ensures
            r == self.agrees_with(other),
    {
        self.used_percent.percent.equals(&other.used_percent.percent) && self.resets_at
            == other.resets_at
    }
}

/// Whether the sample at `i` is part of the timeline: it counts, no sample that
/// counts contradicts it at its time, and it is the first at its time.
pub open spec fn stands(
    observations: Seq<CodexWeeklyRateLimitObservation>,
    now_millis: i64,
    i: int,
) -> bool {
    &&& 0 <= i < observations.len()
    &&& observations[i].is_recent(now_millis)
    &&& forall|j: int|
        0 <= j < observations.len() && (#[trigger] observations[j]).is_recent(now_millis)
            && observations[j].millis() == observations[i].millis() ==> i <= j
            && observations[i].agrees_with(&observations[j])
}

/// The positions of all samples that stand, by ascending time.
pub open spec fn is_timeline(
    observations: Seq<CodexWeeklyRateLimitObservation>,
    now_millis: i64,
    timeline: Seq<usize>,
) -> bool {
    &&& forall|k: int|
        0 <= k < timeline.len() ==> stands(observations, now_millis, #[trigger] timeline[k] as int)
    &&& forall|k: int, m: int|
        0 <= k < m < timeline.len() ==> observations[#[trigger] timeline[k] as int].millis()
            < observations[#[trigger] timeline[m] as int].millis()
    &&& forall|i: usize|
        #[trigger] stands(observations, now_millis, i as int) ==> timeline.contains(i)
}

/// The timeline of the given samples.
pub open spec fn timeline_of(
    observations: Seq<CodexWeeklyRateLimitObservation>,
    now_millis: i64,
) -> Seq<usize> {
    choose|timeline: Seq<usize>| is_timeline(observations, now_millis, timeline)
}

/// Given samples have only one timeline.
pub proof fn law_timeline_is_unique(
    observations: Seq<CodexWeeklyRateLimitObservation>,
    now_millis: i64,
    left: Seq<usize>,
    right: Seq<usize>,
)
    requires
        is_timeline(observations, now_millis, left),
        is_timeline(observations, now_millis, right),
    ensures
        left == right,
{
    lemma_timelines_agree(observations, now_millis, left, right, left.len());
    lemma_timelines_agree(observations, now_millis, right, left, right.len());
    assert(left.take(left.len() as int) =~= left);
    assert(right.take(right.len() as int) =~= right);
}

proof fn lemma_timelines_agree(
    observations: Seq<CodexWeeklyRateLimitObservation>,
    now_millis: i64,
    left: Seq<usize>,
    right: Seq<usize>,
    n: nat,
)
    requires
        is_timeline(observations, now_millis, left),
        is_timeline(observations, now_millis, right),
        n <= left.len(),
    ensures
        n <= right.len(),
        left.take(n as int) == right.take(n as int),
    decreases n,
{
    if n > 0 {
        let m = n - 1;
        lemma_timelines_agree(observations, now_millis, left, right, m as nat);
        assert(stands(observations, now_millis, left[m] as int));
        let j = choose|j: int| 0 <= j < right.len() && right[j] == left[m];
        if j < m {
            assert(left.take(m)[j] == right.take(m)[j]);
            assert(observations[left[j] as int].millis() < observations[left[m] as int].millis());
        }
        assert(stands(observations, now_millis, right[m] as int));
        let i = choose|i: int| 0 <= i < left.len() && left[i] == right[m];
        if i < m {
            assert(left.take(m)[i] == right.take(m)[i]);
            assert(observations[right[i] as int].millis() < observations[right[m] as int].millis());
        }
        if i > m && j > m {
            assert(observations[left[m] as int].millis() < observations[left[i] as int].millis());
            assert(observations[right[m] as int].millis() < observations[right[j] as int].millis());
        }
        assert(left[m] == right[m]);
        assert(left.take(n as int) =~= left.take(m).push(left[m]));
        assert(right.take(n as int) =~= right.take(m).push(right[m]));
    }
}

/// Where two recent samples of the same time contradict each other, the timeline
/// has no sample of that time.
pub proof fn law_conflicting_samples_are_left_out(
    observations: Seq<CodexWeeklyRateLimitObservation>,
    now_millis: i64,
    timeline: Seq<usize>,
    i: int,
    j: int,
    k: int,
)
    requires
        is_timeline(observations, now_millis, timeline),
        0 <= i < observations.len(),
        0 <= j < observations.len(),
        observations[i].is_recent(now_millis),
        observations[j].is_recent(now_millis),
        observations[i].millis() == observations[j].millis(),
        !observations[i].agrees_with(&observations[j]),
        0 <= k < timeline.len(),
    ensures
        observations[timeline[k] as int].millis() != observations[i].millis(),
{
    assert(stands(observations, now_millis, timeline[k] as int));
}

/// A recent sample that no recent sample of its time contradicts is represented
/// in the timeline, by itself or by one that agrees with it.
pub proof fn law_uncontested_samples_are_represented(
    observations: Seq<CodexWeeklyRateLimitObservation>,
    now_millis: i64,
    timeline: Seq<usize>,
    i: int,
)
    requires
        observations.len() <= usize::MAX,
        is_timeline(observations, now_millis, timeline),
        0 <= i < observations.len(),
        observations[i].is_recent(now_millis),
        forall|j: int|
            0 <= j < observations.len() && (#[trigger] observations[j]).is_recent(now_millis)
                && observations[j].millis() == observations[i].millis()
                ==> observations[i].agrees_with(&observations[j]),
    ensures
        exists|k: int|
            0 <= k < timeline.len() && observations[#[trigger] timeline[k] as int].millis()
                == observations[i].millis() && observations[timeline[k] as int].agrees_with(
                &observations[i],
            ),
{
    let first = lemma_first_of_its_time(observations, now_millis, i);
    assert(stands(observations, now_millis, first as usize as int));
    assert(timeline.contains(first as usize));
    let k = choose|k: int| 0 <= k < timeline.len() && timeline[k] == first as usize;
    assert(observations[timeline[k] as int].agrees_with(&observations[i]));
}

proof fn lemma_first_of_its_time(
    observations: Seq<CodexWeeklyRateLimitObservation>,
    now_millis: i64,
    i: int,
) -> (first: int)
    requires
        0 <= i < observations.len(),
        observations[i].is_recent(now_millis),
    ensures
        0 <= first <= i,
        observations[first].is_recent(now_millis),
        observations[first].millis() == observations[i].millis(),
        forall|j: int|
            0 <= j < first && (#[trigger] observations[j]).is_recent(now_millis)
                ==> observations[j].millis() != observations[i].millis(),
    decreases i,
{
    if exists|j: int|
        0 <= j < i && (#[trigger] observations[j]).is_recent(now_millis)
            && observations[j].millis() == observations[i].millis() {
        let j = choose|j: int|
            0 <= j < i && (#[trigger] observations[j]).is_recent(now_millis)
                && observations[j].millis() == observations[i].millis();
        lemma_first_of_its_time(observations, now_millis, j)
    } else {
        i
    }
}

/// The sample at `i` counts, and no sample that counts contradicts it at its time.
pub open spec fn is_uncontested(
    observations: Seq<CodexWeeklyRateLimitObservation>,
    now_millis: i64,
    i: int,
) -> bool {
    &&& 0 <= i < observations.len()
    &&& observations[i].is_recent(now_millis)
    &&& forall|j: int|
        0 <= j < observations.len() && (#[trigger] observations[j]).is_recent(now_millis)
            && observations[j].millis() == observations[i].millis()
            ==> observations[i].agrees_with(&observations[j])
}

/// Every uncontested sample on the left is on the right too.
pub open spec fn are_found_in(
    left: Seq<CodexWeeklyRateLimitObservation>,
    right: Seq<CodexWeeklyRateLimitObservation>,
    now_millis: i64,
) -> bool {
    forall|i: int| #[trigger]
        is_uncontested(left, now_millis, i) ==> exists|j: int| #[trigger]
            is_uncontested(right, now_millis, j) && left[i].is_same_sample(&right[j])
}

/// The uncontested samples are the same on both sides, however often and in whatever
/// order they are given.
pub open spec fn have_same_samples(
    left: Seq<CodexWeeklyRateLimitObservation>,
    right: Seq<CodexWeeklyRateLimitObservation>,
    now_millis: i64,
) -> bool {
    are_found_in(left, right, now_millis) && are_found_in(right, left, now_millis)
}

/// Where the sample at position `k` of one timeline is found in the timeline of the
/// other samples.
proof fn lemma_found_in_other_timeline(
    left: Seq<CodexWeeklyRateLimitObservation>,
    right: Seq<CodexWeeklyRateLimitObservation>,
    now_millis: i64,
    left_timeline: Seq<usize>,
    right_timeline: Seq<usize>,
    k: int,
) -> (m: int)
    requires
        right.len() <= usize::MAX,
        are_found_in(left, right, now_millis),
        is_timeline(left, now_millis, left_timeline),
        is_timeline(right, now_millis, right_timeline),
        0 <= k < left_timeline.len(),
    ensures
        0 <= m < right_timeline.len(),
        right[right_timeline[m] as int].is_same_sample(&left[left_timeline[k] as int]),
{
    let i = left_timeline[k] as int;
    assert(stands(left, now_millis, i));
    assert(is_uncontested(left, now_millis, i));
    let j = choose|j: int| #[trigger]
        is_uncontested(right, now_millis, j) && left[i].is_same_sample(&right[j]);
    law_uncontested_samples_are_represented(right, now_millis, right_timeline, j);
    choose|m: int|
        0 <= m < right_timeline.len() && right[#[trigger] right_timeline[m] as int].millis()
            == right[j].millis() && right[right_timeline[m] as int].agrees_with(&right[j])
}

/// The timeline depends on the uncontested samples alone: where these are the same, the
/// timelines are of the same times, with samples that agree. The order of the samples,
/// repetitions, and samples that do not count or contradict each other do not matter.
pub proof fn law_timeline_depends_on_uncontested_samples(
    left: Seq<CodexWeeklyRateLimitObservation>,
    right: Seq<CodexWeeklyRateLimitObservation>,
    now_millis: i64,
    left_timeline: Seq<usize>,
    right_timeline: Seq<usize>,
)
    requires
        left.len() <= usize::MAX,
        right.len() <= usize::MAX,
        have_same_samples(left, right, now_millis),
        is_timeline(left, now_millis, left_timeline),
        is_timeline(right, now_millis, right_timeline),
    ensures
        left_timeline.len() == right_timeline.len(),
        forall|k: int|
            0 <= k < left_timeline.len() ==> right[right_timeline[k] as int].is_same_sample(
                &left[#[trigger] left_timeline[k] as int],
            ),
{
    lemma_same_times(left, right, now_millis, left_timeline, right_timeline, left_timeline.len());
    lemma_same_times(right, left, now_millis, right_timeline, left_timeline, right_timeline.len());
    assert forall|k: int| 0 <= k < left_timeline.len() implies right[
        right_timeline[k] as int
    ].is_same_sample(&left[#[trigger] left_timeline[k] as int]) by {
        let m = lemma_found_in_other_timeline(
            left,
            right,
            now_millis,
            left_timeline,
            right_timeline,
            k,
        );
        assert(right[right_timeline[k] as int].millis() == left[left_timeline[k] as int].millis());
        if m < k {
            assert(right[right_timeline[m] as int].millis()
                < right[right_timeline[k] as int].millis());
        }
        if k < m {
            assert(right[right_timeline[k] as int].millis()
                < right[right_timeline[m] as int].millis());
        }
    }
}

proof fn lemma_same_times(
    left: Seq<CodexWeeklyRateLimitObservation>,
    right: Seq<CodexWeeklyRateLimitObservation>,
    now_millis: i64,
    left_timeline: Seq<usize>,
    right_timeline: Seq<usize>,
    n: nat,
)
    requires
        left.len() <= usize::MAX,
        right.len() <= usize::MAX,
        have_same_samples(left, right, now_millis),
        is_timeline(left, now_millis, left_timeline),
        is_timeline(right, now_millis, right_timeline),
        n <= left_timeline.len(),
    ensures
        n <= right_timeline.len(),
        forall|k: int|
            0 <= k < n ==> left[#[trigger] left_timeline[k] as int].millis()
                == right[right_timeline[k] as int].millis(),
    decreases n,
{
    if n > 0 {
        let last = n - 1;
        lemma_same_times(left, right, now_millis, left_timeline, right_timeline, last as nat);
        let m = lemma_found_in_other_timeline(
            left,
            right,
            now_millis,
            left_timeline,
            right_timeline,
            last,
        );
        if m < last {
            assert(left[left_timeline[m] as int].millis() == right[right_timeline[m] as int].millis());
            assert(left[left_timeline[m] as int].millis()
                < left[left_timeline[last] as int].millis());
        }
        let o = lemma_found_in_other_timeline(
            right,
            left,
            now_millis,
            right_timeline,
            left_timeline,
            last,
        );
        if o < last {
            assert(left[left_timeline[o] as int].millis() == right[right_timeline[o] as int].millis());
            assert(right[right_timeline[o] as int].millis()
                < right[right_timeline[last] as int].millis());
        }
        if m > last {
            assert(right[right_timeline[last] as int].millis()
                < right[right_timeline[m] as int].millis());
        }
        if o > last {
            assert(left[left_timeline[last] as int].millis()
                < left[left_timeline[o] as int].millis());
        }
    }
}

proof fn lemma_reordered_are_found(
    left: Seq<CodexWeeklyRateLimitObservation>,
    right: Seq<CodexWeeklyRateLimitObservation>,
    now_millis: i64,
)
    requires
        left.to_multiset() == right.to_multiset(),
    ensures
        are_found_in(left, right, now_millis),
{
    broadcast use vstd::seq_lib::to_multiset_contains;

    assert forall|i: int| #[trigger] is_uncontested(left, now_millis, i) implies exists|j: int|
        #[trigger] is_uncontested(right, now_millis, j) && left[i].is_same_sample(&right[j]) by {
        assert(left.contains(left[i]));
        assert(left.to_multiset().contains(left[i]));
        assert(right.contains(left[i]));
        let j = choose|j: int| 0 <= j < right.len() && right[j] == left[i];
        assert forall|n: int|
            0 <= n < right.len() && (#[trigger] right[n]).is_recent(now_millis)
                && right[n].millis() == right[j].millis() implies right[j].agrees_with(
            &right[n],
        ) by {
            assert(right.contains(right[n]));
            assert(right.to_multiset().contains(right[n]));
            assert(left.contains(right[n]));
            let o = choose|o: int| 0 <= o < left.len() && left[o] == right[n];
            assert(left[o].is_recent(now_millis));
        }
        assert(is_uncontested(right, now_millis, j));
    }
}

/// The order in which the samples are given does not matter.
pub proof fn law_order_of_samples_does_not_matter(
    left: Seq<CodexWeeklyRateLimitObservation>,
    right: Seq<CodexWeeklyRateLimitObservation>,
    now_millis: i64,
)
    requires
        left.to_multiset() == right.to_multiset(),
    ensures
        have_same_samples(left, right, now_millis),
{
    lemma_reordered_are_found(left, right, now_millis);
    lemma_reordered_are_found(right, left, now_millis);
}

/// Having the same samples carries over from one to the next.
pub proof fn law_same_samples_carry_over(
    first: Seq<CodexWeeklyRateLimitObservation>,
    second: Seq<CodexWeeklyRateLimitObservation>,
    third: Seq<CodexWeeklyRateLimitObservation>,
    now_millis: i64,
)
    requires
        have_same_samples(first, second, now_millis),
        have_same_samples(second, third, now_millis),
    ensures
        have_same_samples(first, third, now_millis),
{
    lemma_found_carries_over(first, second, third, now_millis);
    lemma_found_carries_over(third, second, first, now_millis);
}

proof fn lemma_found_carries_over(
    first: Seq<CodexWeeklyRateLimitObservation>,
    second: Seq<CodexWeeklyRateLimitObservation>,
    third: Seq<CodexWeeklyRateLimitObservation>,
    now_millis: i64,
)
    requires
        are_found_in(first, second, now_millis),
        are_found_in(second, third, now_millis),
    ensures
        are_found_in(first, third, now_millis),
{
    assert forall|i: int| #[trigger] is_uncontested(first, now_millis, i) implies exists|k: int|
        #[trigger] is_uncontested(third, now_millis, k) && first[i].is_same_sample(&third[k]) by {
        let j = choose|j: int| #[trigger]
            is_uncontested(second, now_millis, j) && first[i].is_same_sample(&second[j]);
        let k = choose|k: int| #[trigger]
            is_uncontested(third, now_millis, k) && second[j].is_same_sample(&third[k]);
        assert(is_uncontested(third, now_millis, k) && first[i].is_same_sample(&third[k]));
    }
}

/// Two samples that count contradict each other at the time of the given one.
pub open spec fn is_conflict_at(
    observations: Seq<CodexWeeklyRateLimitObservation>,
    now_millis: i64,
    sample: CodexWeeklyRateLimitObservation,
) -> bool {
    exists|i: int, j: int|
        0 <= i < observations.len() && 0 <= j < observations.len()
            && (#[trigger] observations[i]).is_recent(now_millis) && (
        #[trigger] observations[j]).is_recent(now_millis) && observations[i].millis()
            == sample.millis() && observations[j].millis() == sample.millis()
            && !observations[i].agrees_with(&observations[j])
}

/// The sample is given already.
pub open spec fn is_repeated(
    observations: Seq<CodexWeeklyRateLimitObservation>,
    now_millis: i64,
    sample: CodexWeeklyRateLimitObservation,
) -> bool {
    exists|i: int|
        0 <= i < observations.len() && (#[trigger] observations[i]).is_recent(now_millis)
            && observations[i].is_same_sample(&sample)
}

/// One more sample has no effect if it does not count, repeats another, or is of a time
/// at which samples contradict each other already.
pub proof fn law_ignored_samples_have_no_effect(
    observations: Seq<CodexWeeklyRateLimitObservation>,
    now_millis: i64,
    sample: CodexWeeklyRateLimitObservation,
)
    requires
        !sample.is_recent(now_millis) || is_repeated(observations, now_millis, sample)
            || is_conflict_at(observations, now_millis, sample),
    ensures
        have_same_samples(observations, observations.push(sample), now_millis),
{
    let more = observations.push(sample);
    let last = observations.len() as int;
    assert(more[last] == sample);
    assert forall|i: int| #[trigger] is_uncontested(observations, now_millis, i) implies exists|
        j: int,
    | #[trigger]
        is_uncontested(more, now_millis, j) && observations[i].is_same_sample(&more[j]) by {
        assert(more[i] == observations[i]);
        assert forall|n: int|
            0 <= n < more.len() && (#[trigger] more[n]).is_recent(now_millis) && more[n].millis()
                == more[i].millis() implies more[i].agrees_with(&more[n]) by {
            if n < last {
                assert(more[n] == observations[n]);
            }
        }
        assert(is_uncontested(more, now_millis, i));
    }
    assert forall|j: int| #[trigger] is_uncontested(more, now_millis, j) implies exists|i: int|
        #[trigger] is_uncontested(observations, now_millis, i) && more[j].is_same_sample(
            &observations[i],
        ) by {
        assert forall|n: int|
            0 <= n < last && (#[trigger] observations[n]).is_recent(now_millis)
                && observations[n].millis() == more[j].millis() implies more[j].agrees_with(
            &observations[n],
        ) by {
            assert(more[n] == observations[n]);
        }
        if j < last {
            assert(more[j] == observations[j]);
            assert(is_uncontested(observations, now_millis, j));
        } else if is_conflict_at(observations, now_millis, sample) {
            let (i, k) = choose|i: int, k: int|
                0 <= i < last && 0 <= k < last && (#[trigger] observations[i]).is_recent(now_millis)
                    && (#[trigger] observations[k]).is_recent(now_millis)
                    && observations[i].millis() == sample.millis() && observations[k].millis()
                    == sample.millis() && !observations[i].agrees_with(&observations[k]);
            assert(sample.agrees_with(&observations[i]) && sample.agrees_with(&observations[k]));
            assert(false);
        } else {
            let i = choose|i: int|
                0 <= i < last && (#[trigger] observations[i]).is_recent(now_millis)
                    && observations[i].is_same_sample(&sample);
            assert(is_uncontested(observations, now_millis, i));
        }
    }
}

/// Where a sample of the given time belongs in a timeline that has none of that time.
proof fn lemma_place_in_timeline(
    observations: Seq<CodexWeeklyRateLimitObservation>,
    timeline: Seq<usize>,
    millis: int,
) -> (at: int)
    requires
        forall|k: int, m: int|
            0 <= k < m < timeline.len() ==> observations[#[trigger] timeline[k] as int].millis()
                < observations[#[trigger] timeline[m] as int].millis(),
        forall|k: int|
            0 <= k < timeline.len() ==> observations[#[trigger] timeline[k] as int].millis()
                != millis,
    ensures
        0 <= at <= timeline.len(),
        forall|k: int|
            0 <= k < at ==> observations[#[trigger] timeline[k] as int].millis() < millis,
        forall|k: int|
            at <= k < timeline.len() ==> observations[#[trigger] timeline[k] as int].millis()
                > millis,
    decreases timeline.len(),
{
    if timeline.len() == 0 {
        0
    } else if observations[timeline.last() as int].millis() < millis {
        let last = timeline.len() - 1;
        assert(timeline[last] == timeline.last());
        timeline.len() as int
    } else {
        let rest = timeline.drop_last();
        let last = timeline.len() - 1;
        assert(timeline[last] == timeline.last());
        assert(forall|k: int| 0 <= k < rest.len() ==> #[trigger] timeline[k] == rest[k]);
        lemma_place_in_timeline(observations, rest, millis)
    }
}

/// The timeline of the samples before position `n` that stand.
proof fn lemma_timeline_up_to(
    observations: Seq<CodexWeeklyRateLimitObservation>,
    now_millis: i64,
    n: int,
) -> (timeline: Seq<usize>)
    requires
        0 <= n <= observations.len() <= usize::MAX,
    ensures
        forall|k: int|
            0 <= k < timeline.len() ==> stands(
                observations,
                now_millis,
                #[trigger] timeline[k] as int,
            ) && timeline[k] < n,
        forall|k: int, m: int|
            0 <= k < m < timeline.len() ==> observations[#[trigger] timeline[k] as int].millis()
                < observations[#[trigger] timeline[m] as int].millis(),
        forall|i: usize|
            i < n && #[trigger] stands(observations, now_millis, i as int) ==> timeline.contains(i),
    decreases n,
{
    if n == 0 {
        Seq::empty()
    } else {
        let i = (n - 1) as usize;
        let rest = lemma_timeline_up_to(observations, now_millis, n - 1);
        if stands(observations, now_millis, i as int) {
            let millis = observations[i as int].millis();
            assert forall|k: int| 0 <= k < rest.len() implies observations[
                #[trigger] rest[k] as int
            ].millis() != millis by {
                assert(stands(observations, now_millis, rest[k] as int));
                assert(observations[rest[k] as int].is_recent(now_millis));
            }
            let at = lemma_place_in_timeline(observations, rest, millis);
            let timeline = rest.insert(at, i);
            assert forall|k: int| 0 <= k < timeline.len() implies stands(
                observations,
                now_millis,
                #[trigger] timeline[k] as int,
            ) && timeline[k] < n by {
                if k < at {
                    assert(timeline[k] == rest[k]);
                } else if k > at {
                    assert(timeline[k] == rest[k - 1]);
                }
            }
            assert forall|k: int, m: int| 0 <= k < m < timeline.len() implies observations[
                #[trigger] timeline[k] as int
            ].millis() < observations[#[trigger] timeline[m] as int].millis() by {
                let p = if k < at { k } else { k - 1 };
                let q = if m < at { m } else { m - 1 };
                if k != at {
                    assert(timeline[k] == rest[p]);
                }
                if m != at {
                    assert(timeline[m] == rest[q]);
                }
            }
            assert forall|j: usize|
                j < n && #[trigger] stands(
                    observations,
                    now_millis,
                    j as int,
                ) implies timeline.contains(j) by {
                if j < n - 1 {
                    let k = choose|k: int| 0 <= k < rest.len() && rest[k] == j;
                    if k < at {
                        assert(timeline[k] == j);
                    } else {
                        assert(timeline[k + 1] == j);
                    }
                } else {
                    assert(timeline[at] == j);
                }
            }
            timeline
        } else {
            rest
        }
    }
}

/// All samples have a timeline.
pub proof fn law_samples_have_a_timeline(
    observations: Seq<CodexWeeklyRateLimitObservation>,
    now_millis: i64,
)
    requires
        observations.len() <= usize::MAX,
    ensures
        is_timeline(observations, now_millis, timeline_of(observations, now_millis)),
{
    let timeline = lemma_timeline_up_to(observations, now_millis, observations.len() as int);
    assert(is_timeline(observations, now_millis, timeline));
}

/// The positions of all samples that count, sorted by time.
spec fn is_sorted_selection(
    observations: Seq<CodexWeeklyRateLimitObservation>,
    now_millis: i64,
    sorted: Seq<usize>,
) -> bool {
    &&& forall|k: int|
        0 <= k < sorted.len() ==> (#[trigger] sorted[k]) < observations.len()
            && observations[sorted[k] as int].is_recent(now_millis)
    &&& forall|k: int, m: int|
        0 <= k < m < sorted.len() ==> {
            let earlier = observations[#[trigger] sorted[k] as int].millis();
            let later = observations[#[trigger] sorted[m] as int].millis();
            earlier < later || (earlier == later && sorted[k] < sorted[m])
        }
    &&& forall|i: int|
        0 <= i < observations.len() && (#[trigger] observations[i]).is_recent(now_millis)
            ==> sorted.contains(i as usize)
}

fn sorted_selection(
    observations: &Vec<CodexWeeklyRateLimitObservation>,
    now_millis: i64,
) -> (sorted: Vec<usize>)
    ensures
        is_sorted_selection(observations@, now_millis, sorted@),
{
    let mut recent: Vec<usize> = Vec::new();
    let mut times: Vec<i64> = Vec::new();
    let mut i: usize = 0;
    while i < observations.len()
        invariant
            i <= observations.len(),
            recent.len() == times.len(),
            forall|k: int|
                0 <= k < recent.len() ==> (#[trigger] recent[k]) < i
                    && observations[recent[k] as int].is_recent(now_millis) && times[k]
                    == observations[recent[k] as int].millis(),
            forall|k: int, m: int| 0 <= k < m < recent.len() ==> #[trigger] recent[k] < #[trigger] recent[m],
            forall|j: int|
                0 <= j < i && (#[trigger] observations[j]).is_recent(now_millis)
                    ==> recent@.contains(j as usize),
        decreases observations.len() - i,
    {
        let ghost before = recent@;
        if observations[i].recent(now_millis) {
            match observations[i].timestamp_millis {
                Some(timestamp) => {
                    recent.push(i);
                    times.push(timestamp);
                    assert(recent[recent.len() - 1] == i);
                },
                None => {},
            }
        }
        assert forall|j: int|
            0 <= j < i + 1 && (#[trigger] observations[j]).is_recent(
                now_millis,
            ) implies recent@.contains(j as usize) by {
            if j < i {
                let k = choose|k: int| 0 <= k < before.len() && before[k] == j as usize;
                assert(recent[k] == j as usize);
            } else {
                assert(recent[recent.len() - 1] == i);
            }
        }
        i = i + 1;
    }
    let order = stable_order(&times);
    let mut sorted: Vec<usize> = Vec::with_capacity(order.len());
    let mut k: usize = 0;
    while k < order.len()
        invariant
            k <= order.len(),
            recent.len() == times.len(),
            is_stable_order(times@, order@),
            sorted.len() == k,
            forall|m: int| 0 <= m < k ==> #[trigger] sorted[m] == recent[order[m] as int],
        decreases order.len() - k,
    {
        sorted.push(recent[order[k]]);
        k = k + 1;
    }
    proof {
        assert forall|k: int, m: int| 0 <= k < m < sorted.len() implies ({
            let earlier = observations[#[trigger] sorted[k] as int].millis();
            let later = observations[#[trigger] sorted[m] as int].millis();
            earlier < later || (earlier == later && sorted[k] < sorted[m])
        }) by {
            assert(goes_before(times@, order[k] as int, order[m] as int));
            law_stable_order_takes_every_position_once(times@, order@);
        }
        assert forall|i: int|
            0 <= i < observations.len() && (#[trigger] observations[i]).is_recent(
                now_millis,
            ) implies sorted@.contains(i as usize) by {
            let p = choose|p: int| 0 <= p < recent.len() && recent@[p] == i as usize;
            law_stable_order_takes_every_position_once(times@, order@);
            assert(order@.contains(p as usize));
            let k = choose|k: int| 0 <= k < order.len() && order@[k] == p as usize;
            assert(sorted[k] == recent[order[k] as int]);
        }
    }
    sorted
}

/// The samples that count, one for each time, by ascending time. Samples of the
/// same time that contradict each other are all left out.
pub fn recent_timeline(
    observations: &Vec<CodexWeeklyRateLimitObservation>,
    now_millis: i64,
) -> (timeline: Vec<usize>)
    ensures
        is_timeline(observations@, now_millis, timeline@),
        timeline@ == timeline_of(observations@, now_millis),
{
    let sorted = sorted_selection(observations, now_millis);
    let mut timeline: Vec<usize> = Vec::new();
    let mut index: usize = 0;
    while index < sorted.len()
        invariant
            index <= sorted.len(),
            is_sorted_selection(observations@, now_millis, sorted@),
            forall|k: int|
                0 <= k < timeline.len() ==> stands(
                    observations@,
                    now_millis,
                    #[trigger] timeline[k] as int,
                ),
            forall|k: int, m: int|
                0 <= k < m < timeline.len() ==> observations[#[trigger] timeline[k] as int].millis()
                    < observations[#[trigger] timeline[m] as int].millis(),
            forall|k: int, p: int|
                0 <= k < timeline.len() && index <= p < sorted.len()
                    ==> observations[#[trigger] timeline[k] as int].millis()
                    < observations[#[trigger] sorted[p] as int].millis(),
            forall|p: int|
                0 <= p < index && stands(
                    observations@,
                    now_millis,
                    #[trigger] sorted[p] as int,
                ) ==> timeline@.contains(sorted[p]),
            forall|q: int, p: int|
                0 <= q < index <= p < sorted.len()
                    ==> observations[#[trigger] sorted[q] as int].millis()
                    < observations[#[trigger] sorted[p] as int].millis(),
        decreases sorted.len() - index,
    {
        let first: usize = sorted[index];
        let mut unanimous = true;
        let mut end: usize = index + 1;
        while end < sorted.len() && observations[sorted[end]].timestamp_millis
            == observations[first].timestamp_millis
            invariant
                index < end <= sorted.len(),
                is_sorted_selection(observations@, now_millis, sorted@),
                first == sorted[index as int],
                forall|p: int|
                    index <= p < end ==> observations[#[trigger] sorted[p] as int].millis()
                        == observations[first as int].millis(),
                unanimous == (forall|p: int|
                    index < p < end ==> observations[first as int].agrees_with(
                        &observations[#[trigger] sorted[p] as int],
                    )),
            decreases sorted.len() - end,
        {
            let agrees = observations[first].agrees(&observations[sorted[end]]);
            if !agrees {
                unanimous = false;
            }
            end = end + 1;
            assert(observations[sorted[end - 1] as int].millis() == observations[first as int].millis());
        }
        let ghost before = timeline@;
        proof {
            assert(observations@.len() == observations.len());
            lemma_run_stands(observations@, now_millis, sorted@, index as int, end as int);
        }
        if unanimous {
            timeline.push(first);
            assert(timeline[timeline.len() - 1] == first);
        }
        assert(forall|k: int| 0 <= k < before.len() ==> #[trigger] timeline[k] == before[k]);
        assert forall|p: int|
            0 <= p < end && stands(
                observations@,
                now_millis,
                #[trigger] sorted[p] as int,
            ) implies timeline@.contains(sorted[p]) by {
            if p < index {
                let k = choose|k: int| 0 <= k < before.len() && before[k] == sorted[p];
                assert(timeline[k] == sorted[p]);
            }
        }
        assert forall|q: int, p: int| 0 <= q < end <= p < sorted.len() implies observations[
            #[trigger] sorted[q] as int
        ].millis() < observations[#[trigger] sorted[p] as int].millis() by {
            if end < sorted.len() {
                assert(observations[sorted[end as int] as int].millis()
                    != observations[first as int].millis());
                assert(observations[sorted[q] as int].millis()
                    <= observations[first as int].millis());
                assert(observations[first as int].millis()
                    < observations[sorted[end as int] as int].millis());
                assert(observations[sorted[end as int] as int].millis()
                    <= observations[sorted[p] as int].millis());
            }
        }
        index = end;
    }
    proof {
        assert forall|i: usize| #[trigger] stands(
            observations@,
            now_millis,
            i as int,
        ) implies timeline@.contains(i) by {
            assert(observations[i as int].is_recent(now_millis));
            assert(sorted@.contains(i));
            let p = choose|p: int| 0 <= p < sorted.len() && sorted@[p] == i;
            assert(stands(observations@, now_millis, sorted[p] as int));
        }
        law_timeline_is_unique(
            observations@,
            now_millis,
            timeline@,
            timeline_of(observations@, now_millis),
        );
    }
    timeline
}

/// Of the samples at one time only the first can stand, and it does where the
/// others agree with it.
proof fn lemma_run_stands(
    observations: Seq<CodexWeeklyRateLimitObservation>,
    now_millis: i64,
    sorted: Seq<usize>,
    index: int,
    end: int,
)
    requires
        observations.len() <= usize::MAX,
        is_sorted_selection(observations, now_millis, sorted),
        0 <= index < end <= sorted.len(),
        forall|p: int|
            index <= p < end ==> observations[#[trigger] sorted[p] as int].millis()
                == observations[sorted[index] as int].millis(),
        forall|q: int|
            0 <= q < index ==> observations[#[trigger] sorted[q] as int].millis()
                < observations[sorted[index] as int].millis(),
        end < sorted.len() ==> observations[sorted[end] as int].millis()
            != observations[sorted[index] as int].millis(),
    ensures
        stands(observations, now_millis, sorted[index] as int) == (forall|p: int|
            index < p < end ==> observations[sorted[index] as int].agrees_with(
                &observations[#[trigger] sorted[p] as int],
            )),
        forall|p: int|
            index < p < end ==> !stands(observations, now_millis, #[trigger] sorted[p] as int),
{
    let first = sorted[index] as int;
    if forall|p: int|
        index < p < end ==> observations[first].agrees_with(
            &observations[#[trigger] sorted[p] as int],
        ) {
        assert forall|j: int|
            0 <= j < observations.len() && (#[trigger] observations[j]).is_recent(now_millis)
                && observations[j].millis() == observations[first].millis() implies first <= j
            && observations[first].agrees_with(&observations[j]) by {
            assert(sorted.contains(j as usize));
            let p = choose|p: int| 0 <= p < sorted.len() && sorted[p] == j as usize;
            if p >= end && end < sorted.len() {
                assert(observations[first].millis() <= observations[sorted[end] as int].millis());
                assert(observations[sorted[end] as int].millis()
                    <= observations[sorted[p] as int].millis());
            }
            assert(index <= p < end);
        }
    } else {
        let p = choose|p: int|
            index < p < end && !observations[first].agrees_with(
                &observations[#[trigger] sorted[p] as int],
            );
        assert(observations[sorted[p] as int].is_recent(now_millis));
    }
    assert forall|p: int| index < p < end implies !stands(
        observations,
        now_millis,
        #[trigger] sorted[p] as int,
    ) by {
        assert(observations[first].is_recent(now_millis));
        assert(first < sorted[p]);
    }
}

/// The window reaches back ninety days, but not before the earliest time.
pub proof fn law_window_reaches_back_ninety_days(now_millis: i64)
    ensures
        window_start(now_millis) >= now_millis - 90 * 24 * 60 * 60 * 1000,
        window_start(now_millis) >= i64::MIN,
        window_start(now_millis) == now_millis - 90 * 24 * 60 * 60 * 1000 || window_start(
            now_millis,
        ) == i64::MIN,
{
}

/// A sample counts if its time is known, no more than ninety days back and not ahead, and
/// its share is from nothing to one hundred percent.
pub proof fn law_samples_that_count(sample: CodexWeeklyRateLimitObservation, now_millis: i64)
    ensures
        sample.is_recent(now_millis) <==> {
            &&& sample.timestamp_millis is Some
            &&& sample.timestamp_millis->0 >= now_millis - 90 * 24 * 60 * 60 * 1000
            &&& sample.timestamp_millis->0 <= now_millis
            &&& !sample.used_percent.percent.is_nan()
            &&& sample.used_percent.percent.value() >= 0
            &&& sample.used_percent.percent.value() <= 100 * pow2(1074)
        },
{
    vstd::arithmetic::mul::lemma_mul_basics(pow2(1074) as int);
}

/// Two samples agree if they give the same share, as a number, and the same reset time.
pub proof fn law_samples_that_agree(
    one: CodexWeeklyRateLimitObservation,
    other: CodexWeeklyRateLimitObservation,
)
    ensures
        one.agrees_with(&other) <==> {
            &&& !one.used_percent.percent.is_nan()
            &&& !other.used_percent.percent.is_nan()
            &&& one.used_percent.percent.value() == other.used_percent.percent.value()
            &&& one.resets_at == other.resets_at
        },
        one.is_same_sample(&other) <==> one.agrees_with(&other) && one.timestamp_millis->0
            == other.timestamp_millis->0,
{
}

/// A timeline ascends in time. Each of its samples counts, is the first that counts at its
/// time, and agrees with all others that count at its time.
pub proof fn law_timeline_has_the_first_samples_of_their_times(
    observations: Seq<CodexWeeklyRateLimitObservation>,
    now_millis: i64,
    timeline: Seq<usize>,
    k: int,
)
    requires
        is_timeline(observations, now_millis, timeline),
        0 <= k < timeline.len(),
    ensures
        timeline[k] < observations.len(),
        observations[timeline[k] as int].is_recent(now_millis),
        forall|m: int|
            k < m < timeline.len() ==> observations[timeline[k] as int].timestamp_millis->0
                < observations[#[trigger] timeline[m] as int].timestamp_millis->0,
        forall|j: int|
            0 <= j < observations.len() && (#[trigger] observations[j]).is_recent(now_millis)
                && observations[j].timestamp_millis == observations[
                timeline[k] as int
            ].timestamp_millis ==> timeline[k] <= j && observations[
                timeline[k] as int
            ].agrees_with(&observations[j]),
{
    assert(stands(observations, now_millis, timeline[k] as int));
}

} // verus!
