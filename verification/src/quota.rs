//! Estimating what a week of quota costs.
//!
//! Samples between two resets form an episode. The requests priced during an
//! episode, scaled up from the share of the quota used in it to the whole quota,
//! estimate the cost of a week.

use crate::double::{half, lemma_patterns_of_whole_numbers, Double, FIVE_BITS, ZERO_BITS};
use crate::order::{is_selection, lemma_selection_grows};
use crate::timeline::{
    have_same_samples, is_timeline, law_samples_have_a_timeline,
    law_timeline_depends_on_uncontested_samples, recent_timeline, stands, timeline_of, window_start,
    CodexWeeklyRateLimitObservation,
};
use std::collections::BTreeMap;
use vstd::arithmetic::power2::pow2;
use vstd::prelude::*;

verus! {

/// Reset times this close count as the same reset.
pub const RESET_HORIZON_TOLERANCE_SECONDS: i64 = 300;

/// How long after a reset a late sample of the previous episode may still arrive.
pub const RESET_HANDOFF_TOLERANCE_MILLIS: i64 = 300_000;

/// Whether the quota had been reset when the estimate was made.
#[derive(Clone, Copy, Debug, PartialEq, Eq, Structural)]
pub enum CodexWeeklyQuotaEstimateStatus {
    Completed,
    Provisional,
}

/// The estimated cost of a week, and what it was estimated from.
#[derive(Clone, Debug, PartialEq)]
pub struct CodexWeeklyQuotaEstimate {
    pub started_at: String,
    pub ended_at: String,
    pub used_percent_start: Double,
    pub used_percent_end: Double,
    pub observed_cost_usd: Double,
    pub estimated_weekly_cost_usd: Double,
    pub sample_count: usize,
    pub status: CodexWeeklyQuotaEstimateStatus,
}

/// Daily usage by group, together with the estimates.
#[derive(Debug)]
pub struct CodexDailyUsageWithQuotaEstimates<G> {
    pub groups: BTreeMap<String, G>,
    pub weekly_rate_limit_samples: usize,
    pub weekly_quota_estimates: Vec<CodexWeeklyQuotaEstimate>,
}

/// Whether an episode still takes samples.
#[derive(Clone, Copy, Debug, PartialEq, Eq, Structural)]
pub enum QuotaEpisodeContinuity {
    Tracking,
    Frozen,
}

/// The samples between two resets, from the first to the latest that was taken.
/// `start` and `end` are positions among the samples.
#[derive(Clone, Copy, Debug, PartialEq, Eq, Structural)]
pub struct QuotaEpisode {
    pub start_millis: i64,
    pub end_millis: i64,
    pub start: usize,
    pub end: usize,
    pub reset_horizon: i64,
    pub sample_count: usize,
    pub continuity: QuotaEpisodeContinuity,
}

/// What an episode is: its first and latest sample, the latest reset time that a
/// sample of it gave, how many samples it took, and whether it takes no more.
pub struct Episode {
    pub start: int,
    pub end: int,
    pub reset_horizon: int,
    pub samples: nat,
    pub frozen: bool,
}

impl View for QuotaEpisode {
    type V = Episode;

    open spec fn view(&self) -> Episode {
        Episode {
            start: self.start as int,
            end: self.end as int,
            reset_horizon: self.reset_horizon as int,
            samples: self.sample_count as nat,
            frozen: self.continuity is Frozen,
        }
    }
}

impl QuotaEpisode {
    /// The times are those of the first and the latest sample.
    pub open spec fn is_dated(
        &self,
        observations: Seq<CodexWeeklyRateLimitObservation>,
    ) -> bool {
        &&& self.start < observations.len()
        &&& self.end < observations.len()
        &&& self.start_millis == observations[self.start as int].millis()
        &&& self.end_millis == observations[self.end as int].millis()
    }

    /// An episode that begins with the given sample, which stands at `position`
    /// and was taken at `timestamp`.
    pub fn new(
        timestamp: i64,
        position: usize,
        observation: &CodexWeeklyRateLimitObservation,
    ) -> (r: QuotaEpisode)
        ensures
            r@ == opened(*observation, position as int),
            r.start_millis == timestamp,
            r.end_millis == timestamp,
            r.start == position,
            r.end == position,
            r.reset_horizon == observation.resets_at,
            r.sample_count == 1,
            r.continuity is Tracking,
    {
        QuotaEpisode {
            start_millis: timestamp,
            end_millis: timestamp,
            start: position,
            end: position,
            reset_horizon: observation.resets_at,
            sample_count: 1,
            continuity: QuotaEpisodeContinuity::Tracking,
        }
    }
}

/// The episode that begins with the given sample.
pub open spec fn opened(observation: CodexWeeklyRateLimitObservation, position: int) -> Episode {
    Episode {
        start: position,
        end: position,
        reset_horizon: observation.resets_at as int,
        samples: 1,
        frozen: false,
    }
}

/// What a sample means to the episode that is under way.
pub enum Reading {
    /// The quota was reset: the episode is complete, and the sample begins the next.
    Resets,
    /// The sample is passed over.
    Ignored,
    /// The sample belongs to an earlier reset: nothing after it can be trusted
    /// until the next reset.
    Freezes,
    /// The sample continues the episode.
    Continues,
}

/// The sample names a later reset than the episode.
pub open spec fn horizon_advanced(
    episode: Episode,
    observation: CodexWeeklyRateLimitObservation,
) -> bool {
    observation.resets_at > episode.reset_horizon + RESET_HORIZON_TOLERANCE_SECONDS
}

/// The sample names an earlier reset than the episode.
pub open spec fn horizon_receded(
    episode: Episode,
    observation: CodexWeeklyRateLimitObservation,
) -> bool {
    observation.resets_at < episode.reset_horizon - RESET_HORIZON_TOLERANCE_SECONDS
}

/// The episode has only just begun, so that late samples of the one before it are
/// to be expected.
pub open spec fn in_reset_handoff(
    observations: Seq<CodexWeeklyRateLimitObservation>,
    episode: Episode,
    position: int,
) -> bool {
    &&& observations[position].millis() - observations[episode.start].millis()
        <= RESET_HANDOFF_TOLERANCE_MILLIS
    &&& observations[episode.end].used_percent.percent.spec_at_most(
        observations[episode.start].used_percent.plus_half,
    )
}

pub open spec fn reading(
    observations: Seq<CodexWeeklyRateLimitObservation>,
    episode: Episode,
    position: int,
) -> Reading {
    let observation = observations[position];
    let dropped = observation.used_percent.dropped_from(observations[episode.end].used_percent);
    if horizon_advanced(episode, observation) && (dropped || episode.frozen) {
        Reading::Resets
    } else if episode.frozen {
        Reading::Ignored
    } else if horizon_receded(episode, observation) {
        if in_reset_handoff(observations, episode, position) {
            Reading::Ignored
        } else {
            Reading::Freezes
        }
    } else if dropped {
        Reading::Ignored
    } else {
        Reading::Continues
    }
}

/// The episode with the sample at `position` added to it.
pub open spec fn continued(
    observations: Seq<CodexWeeklyRateLimitObservation>,
    episode: Episode,
    position: int,
) -> Episode {
    let resets_at = observations[position].resets_at as int;
    Episode {
        end: position,
        reset_horizon: if resets_at > episode.reset_horizon {
            resets_at
        } else {
            episode.reset_horizon
        },
        samples: episode.samples + 1,
        ..episode
    }
}

/// The episodes that a reset completed, and the one under way.
#[verifier::ext_equal]
pub struct Trace {
    pub completed: Seq<Episode>,
    pub current: Option<Episode>,
}

/// What the sample at `position` does to the trace.
pub open spec fn traced_sample(
    observations: Seq<CodexWeeklyRateLimitObservation>,
    trace: Trace,
    position: int,
) -> Trace {
    match trace.current {
        None => Trace { current: Some(opened(observations[position], position)), ..trace },
        Some(episode) => match reading(observations, episode, position) {
            Reading::Resets => Trace {
                completed: trace.completed.push(episode),
                current: Some(opened(observations[position], position)),
            },
            Reading::Ignored => trace,
            Reading::Freezes => Trace {
                current: Some(Episode { frozen: true, ..episode }),
                ..trace
            },
            Reading::Continues => Trace {
                current: Some(continued(observations, episode, position)),
                ..trace
            },
        },
    }
}

/// The trace of the samples at the positions that `timeline` lists.
pub open spec fn trace_of(
    observations: Seq<CodexWeeklyRateLimitObservation>,
    timeline: Seq<usize>,
) -> Trace
    decreases timeline.len(),
{
    if timeline.len() == 0 {
        Trace { completed: Seq::empty(), current: None }
    } else {
        traced_sample(
            observations,
            trace_of(observations, timeline.drop_last()),
            timeline.last() as int,
        )
    }
}

/// The episodes found in a timeline.
#[derive(Clone, Debug)]
pub struct QuotaTrace {
    pub completed: Vec<QuotaEpisode>,
    pub current: Option<QuotaEpisode>,
}

impl View for QuotaTrace {
    type V = Trace;

    open spec fn view(&self) -> Trace {
        Trace {
            completed: self.completed@.map_values(|episode: QuotaEpisode| episode@),
            current: match self.current {
                None => None,
                Some(episode) => Some(episode@),
            },
        }
    }
}

impl QuotaTrace {
    pub open spec fn is_dated(
        &self,
        observations: Seq<CodexWeeklyRateLimitObservation>,
    ) -> bool {
        &&& forall|k: int|
            0 <= k < self.completed@.len() ==> (#[trigger] self.completed@[k]).is_dated(observations)
        &&& self.current matches Some(episode) ==> episode.is_dated(observations)
    }
}

/// The current episode has no more samples than the timeline.
proof fn lemma_samples_are_bounded(
    observations: Seq<CodexWeeklyRateLimitObservation>,
    timeline: Seq<usize>,
)
    ensures
        trace_of(observations, timeline).current matches Some(episode) ==> episode.samples
            <= timeline.len(),
    decreases timeline.len(),
{
    if timeline.len() > 0 {
        lemma_samples_are_bounded(observations, timeline.drop_last());
    }
}

/// Decides what the sample at `position`, taken at `timestamp`, means to the
/// episode under way, and applies it. A completed episode is returned.
fn trace_sample(
    observations: &Vec<CodexWeeklyRateLimitObservation>,
    episode: &mut QuotaEpisode,
    position: usize,
    timestamp: i64,
) -> (completed: Option<QuotaEpisode>)
    requires
        position < observations.len(),
        timestamp == observations[position as int].millis(),
        old(episode).is_dated(observations@),
        old(episode).sample_count < usize::MAX,
    ensures
        final(episode).is_dated(observations@),
        match reading(observations@, old(episode)@, position as int) {
            Reading::Resets => {
                &&& completed == Some(*old(episode))
                &&& final(episode)@ == opened(observations[position as int], position as int)
            },
            Reading::Ignored => completed is None && *final(episode) == *old(episode),
            Reading::Freezes => {
                &&& completed is None
                &&& final(episode)@ == (Episode { frozen: true, ..old(episode)@ })
            },
            Reading::Continues => {
                &&& completed is None
                &&& final(episode)@ == continued(observations@, old(episode)@, position as int)
            },
        },
{
    let observation = &observations[position];
    let horizon_advanced = observation.resets_at as i128 > episode.reset_horizon as i128
        + RESET_HORIZON_TOLERANCE_SECONDS as i128;
    let percent_dropped = observation.used_percent.plus_half.less_than(
        &observations[episode.end].used_percent.percent,
    );
    let frozen = matches!(episode.continuity, QuotaEpisodeContinuity::Frozen);
    if horizon_advanced && (percent_dropped || frozen) {
        let completed = *episode;
        *episode = QuotaEpisode::new(timestamp, position, observation);
        return Some(completed);
    }
    if frozen {
        return None;
    }
    if (observation.resets_at as i128) < episode.reset_horizon as i128
        - RESET_HORIZON_TOLERANCE_SECONDS as i128 {
        let is_reset_handoff = timestamp as i128 - episode.start_millis as i128
            <= RESET_HANDOFF_TOLERANCE_MILLIS as i128
            && observations[episode.end].used_percent.percent.at_most(
            &observations[episode.start].used_percent.plus_half,
        );
        if !is_reset_handoff {
            episode.continuity = QuotaEpisodeContinuity::Frozen;
        }
        return None;
    }
    if percent_dropped {
        return None;
    }
    if observation.resets_at > episode.reset_horizon {
        episode.reset_horizon = observation.resets_at;
    }
    episode.end_millis = timestamp;
    episode.end = position;
    episode.sample_count = episode.sample_count + 1;
    None
}

/// The episodes of the samples that count at `now_millis`.
pub fn trace_quota_episodes(
    observations: &Vec<CodexWeeklyRateLimitObservation>,
    now_millis: i64,
) -> (trace: QuotaTrace)
    ensures
        trace@ == trace_of(observations@, timeline_of(observations@, now_millis)),
        trace.is_dated(observations@),
{
    let timeline = recent_timeline(observations, now_millis);
    let mut completed: Vec<QuotaEpisode> = Vec::new();
    let mut current: Option<QuotaEpisode> = None;
    let mut k: usize = 0;
    proof {
        assert(timeline@.take(0) =~= Seq::empty());
        assert((QuotaTrace { completed, current })@.completed =~= Seq::empty());
    }
    while k < timeline.len()
        invariant
            k <= timeline.len(),
            is_timeline(observations@, now_millis, timeline@),
            (QuotaTrace { completed, current })@ == trace_of(observations@, timeline@.take(k as int)),
            (QuotaTrace { completed, current }).is_dated(observations@),
        decreases timeline.len() - k,
    {
        let position: usize = timeline[k];
        let ghost before = QuotaTrace { completed, current };
        proof {
            assert(stands(observations@, now_millis, position as int));
            assert(timeline@.take(k + 1).drop_last() =~= timeline@.take(k as int));
            assert(timeline@.take(k + 1).last() == position);
            lemma_samples_are_bounded(observations@, timeline@.take(k as int));
        }
        match observations[position].timestamp_millis {
            None => {},
            Some(timestamp) => match current {
                None => {
                    current =
                    Some(QuotaEpisode::new(timestamp, position, &observations[position]));
                },
                Some(episode) => {
                    let mut episode = episode;
                    let reset = trace_sample(observations, &mut episode, position, timestamp);
                    if let Some(finished) = reset {
                        completed.push(finished);
                    }
                    current = Some(episode);
                },
            },
        }
        proof {
            let after = QuotaTrace { completed, current };
            assert(after@ =~= traced_sample(observations@, before@, position as int));
        }
        k = k + 1;
    }
    proof {
        assert(timeline@.take(k as int) =~= timeline@);
    }
    QuotaTrace { completed, current }
}

/// What floating point arithmetic says of an episode: the difference between the
/// latest and the first share, the sum of the costs during the episode, and that
/// sum scaled up from the difference to one hundred percent.
#[derive(Clone, Copy, Debug, PartialEq)]
pub struct EpisodeMeasure {
    pub used_percent_span: Double,
    pub observed_cost_usd: Double,
    pub estimated_weekly_cost_usd: Double,
}

impl EpisodeMeasure {
    /// Neither is the share used at most five percent, nor the cost at most nothing.
    pub open spec fn is_telling(self) -> bool {
        &&& !self.used_percent_span.spec_at_most_whole(5)
        &&& !self.observed_cost_usd.spec_at_most_whole(0)
    }

    /// The two say the same: neither gives an estimate, or both give the same.
    pub open spec fn says_same(self, other: EpisodeMeasure) -> bool {
        &&& self.is_telling() == other.is_telling()
        &&& self.is_telling() ==> self.observed_cost_usd == other.observed_cost_usd
            && self.estimated_weekly_cost_usd == other.estimated_weekly_cost_usd
    }
}

/// What an estimate says.
#[verifier::ext_equal]
pub struct Estimate {
    pub started_at: Seq<char>,
    pub ended_at: Seq<char>,
    pub used_percent_start: Double,
    pub used_percent_end: Double,
    pub observed_cost_usd: Double,
    pub estimated_weekly_cost_usd: Double,
    pub samples: nat,
    pub status: CodexWeeklyQuotaEstimateStatus,
}

impl Estimate {
    /// The two say the same; shares are compared as numbers.
    pub open spec fn says_same(self, other: Estimate) -> bool {
        &&& self.started_at == other.started_at
        &&& self.ended_at == other.ended_at
        &&& self.used_percent_start.spec_equals(other.used_percent_start)
        &&& self.used_percent_end.spec_equals(other.used_percent_end)
        &&& self.observed_cost_usd == other.observed_cost_usd
        &&& self.estimated_weekly_cost_usd == other.estimated_weekly_cost_usd
        &&& self.samples == other.samples
        &&& self.status == other.status
    }
}

impl View for CodexWeeklyQuotaEstimate {
    type V = Estimate;

    open spec fn view(&self) -> Estimate {
        Estimate {
            started_at: self.started_at@,
            ended_at: self.ended_at@,
            used_percent_start: self.used_percent_start,
            used_percent_end: self.used_percent_end,
            observed_cost_usd: self.observed_cost_usd,
            estimated_weekly_cost_usd: self.estimated_weekly_cost_usd,
            samples: self.sample_count as nat,
            status: self.status,
        }
    }
}

/// The estimate that an episode and its measure give.
pub open spec fn estimate_of(
    observations: Seq<CodexWeeklyRateLimitObservation>,
    episode: Episode,
    measure: EpisodeMeasure,
    status: CodexWeeklyQuotaEstimateStatus,
) -> Estimate {
    Estimate {
        started_at: observations[episode.start].timestamp@,
        ended_at: observations[episode.end].timestamp@,
        used_percent_start: observations[episode.start].used_percent.percent,
        used_percent_end: observations[episode.end].used_percent.percent,
        observed_cost_usd: measure.observed_cost_usd,
        estimated_weekly_cost_usd: measure.estimated_weekly_cost_usd,
        samples: episode.samples,
        status,
    }
}

/// The estimate that an episode gives, unless the share used is at most five percent
/// or the cost at most nothing.
pub fn estimate_episode(
    observations: &Vec<CodexWeeklyRateLimitObservation>,
    episode: &QuotaEpisode,
    measure: &EpisodeMeasure,
    status: CodexWeeklyQuotaEstimateStatus,
) -> (estimate: Option<CodexWeeklyQuotaEstimate>)
    requires
        episode.start < observations.len(),
        episode.end < observations.len(),
    ensures
        estimate is Some <==> measure.is_telling(),
        estimate is Some <==> (measure.used_percent_span.is_nan()
            || measure.used_percent_span.value() > 5 * pow2(1074)) && (
        measure.observed_cost_usd.is_nan() || measure.observed_cost_usd.value() > 0),
        estimate matches Some(e) ==> e@ == estimate_of(observations@, episode@, *measure, status),
        estimate matches Some(e) ==> {
            &&& e.started_at@ == observations[episode.start as int].timestamp@
            &&& e.ended_at@ == observations[episode.end as int].timestamp@
            &&& e.used_percent_start == observations[episode.start as int].used_percent.percent
            &&& e.used_percent_end == observations[episode.end as int].used_percent.percent
            &&& e.observed_cost_usd == measure.observed_cost_usd
            &&& e.estimated_weekly_cost_usd == measure.estimated_weekly_cost_usd
            &&& e.sample_count == episode.sample_count
            &&& e.status == status
        },
{
    proof {
        lemma_patterns_of_whole_numbers();
    }
    if measure.used_percent_span.at_most(&(Double { bits: FIVE_BITS })) {
        return None;
    }
    if measure.observed_cost_usd.at_most(&(Double { bits: ZERO_BITS })) {
        return None;
    }
    let start = &observations[episode.start];
    let end = &observations[episode.end];
    Some(
        CodexWeeklyQuotaEstimate {
            started_at: start.timestamp.clone(),
            ended_at: end.timestamp.clone(),
            used_percent_start: start.used_percent.percent,
            used_percent_end: end.used_percent.percent,
            observed_cost_usd: measure.observed_cost_usd,
            estimated_weekly_cost_usd: measure.estimated_weekly_cost_usd,
            sample_count: episode.sample_count,
            status,
        },
    )
}

/// The positions of the times after `after` and up to `until`, in their order.
pub open spec fn positions_between(times: Seq<i64>, after: int, until: int) -> Seq<usize>
    decreases times.len(),
{
    if times.len() == 0 {
        Seq::empty()
    } else {
        let earlier = positions_between(times.drop_last(), after, until);
        if after < times.last() <= until {
            earlier.push((times.len() - 1) as usize)
        } else {
            earlier
        }
    }
}

/// The positions of the costs incurred during the episode: after its first sample,
/// up to its latest.
pub fn costs_after_anchor(cost_times: &Vec<i64>, episode: &QuotaEpisode) -> (positions: Vec<usize>)
    ensures
        positions@ == positions_between(
            cost_times@,
            episode.start_millis as int,
            episode.end_millis as int,
        ),
        forall|k: int| 0 <= k < positions@.len() ==> #[trigger] positions@[k] < cost_times@.len(),
        forall|k: int, m: int|
            0 <= k < m < positions@.len() ==> #[trigger] positions@[k] < #[trigger] positions@[m],
        forall|p: usize|
            #[trigger] positions@.contains(p) <==> p < cost_times@.len() && episode.start_millis
                < cost_times@[p as int] <= episode.end_millis,
{
    let mut positions: Vec<usize> = Vec::new();
    let mut i: usize = 0;
    assert(cost_times@.take(0) =~= Seq::empty());
    while i < cost_times.len()
        invariant
            i <= cost_times.len(),
            positions@ == positions_between(
                cost_times@.take(i as int),
                episode.start_millis as int,
                episode.end_millis as int,
            ),
            forall|k: int| 0 <= k < positions@.len() ==> #[trigger] positions@[k] < i,
        decreases cost_times.len() - i,
    {
        assert(cost_times@.take(i + 1).drop_last() =~= cost_times@.take(i as int));
        if cost_times[i] > episode.start_millis && cost_times[i] <= episode.end_millis {
            positions.push(i);
        }
        i = i + 1;
    }
    proof {
        assert(cost_times@.take(i as int) =~= cost_times@);
        assert(cost_times@.len() == cost_times.len());
        law_costs_ascend(
            cost_times@,
            episode.start_millis as int,
            episode.end_millis as int,
        );
        assert forall|p: usize| #[trigger] positions@.contains(p) <==> p < cost_times@.len()
            && episode.start_millis < cost_times@[p as int] <= episode.end_millis by {
            law_costs_between_two_times(
                cost_times@,
                episode.start_millis as int,
                episode.end_millis as int,
                p,
            );
        }
    }
    positions
}

/// An episode and the status of an estimate made from it.
pub struct Candidate {
    pub episode: Episode,
    pub status: CodexWeeklyQuotaEstimateStatus,
}

/// The episodes that a reset completed, then the one under way.
pub open spec fn candidates_of(trace: Trace) -> Seq<Candidate> {
    let completed = trace.completed.map_values(
        |episode: Episode|
            Candidate { episode, status: CodexWeeklyQuotaEstimateStatus::Completed },
    );
    match trace.current {
        None => completed,
        Some(episode) => completed.push(
            Candidate { episode, status: CodexWeeklyQuotaEstimateStatus::Provisional },
        ),
    }
}

/// `measured` is what `measure` returns for the episode and the costs during it.
pub open spec fn is_measure_of<M: Fn(QuotaEpisode, Vec<usize>) -> EpisodeMeasure>(
    measure: M,
    observations: Seq<CodexWeeklyRateLimitObservation>,
    cost_times: Seq<i64>,
    episode: Episode,
    measured: EpisodeMeasure,
) -> bool {
    exists|dated: QuotaEpisode, positions: Vec<usize>|
        {
            &&& dated@ == episode
            &&& dated.is_dated(observations)
            &&& positions@ == positions_between(
                cost_times,
                observations[episode.start].millis(),
                observations[episode.end].millis(),
            )
            &&& #[trigger] call_ensures(measure, (dated, positions), measured)
        }
}

pub open spec fn are_measures_of<M: Fn(QuotaEpisode, Vec<usize>) -> EpisodeMeasure>(
    measure: M,
    observations: Seq<CodexWeeklyRateLimitObservation>,
    cost_times: Seq<i64>,
    candidates: Seq<Candidate>,
    measures: Seq<EpisodeMeasure>,
) -> bool {
    &&& measures.len() == candidates.len()
    &&& forall|i: int|
        0 <= i < candidates.len() ==> is_measure_of(
            measure,
            observations,
            cost_times,
            (#[trigger] candidates[i]).episode,
            measures[i],
        )
}

/// The estimates of the candidates whose measure is telling, in their order.
pub open spec fn estimates_of(
    observations: Seq<CodexWeeklyRateLimitObservation>,
    candidates: Seq<Candidate>,
    measures: Seq<EpisodeMeasure>,
) -> Seq<Estimate>
    decreases candidates.len(),
{
    if candidates.len() == 0 {
        Seq::empty()
    } else {
        let earlier = estimates_of(observations, candidates.drop_last(), measures.drop_last());
        if measures.last().is_telling() {
            earlier.push(
                estimate_of(
                    observations,
                    candidates.last().episode,
                    measures.last(),
                    candidates.last().status,
                ),
            )
        } else {
            earlier
        }
    }
}

/// The estimates that the samples which count at `now_millis` give, oldest first.
///
/// `cost_times` are the times of the priced requests. `measure` does the floating
/// point arithmetic on an episode and the positions of the costs during it.
pub fn estimate_weekly_quota_costs_from_timeline<
    M: Fn(QuotaEpisode, Vec<usize>) -> EpisodeMeasure,
>(
    cost_times: &Vec<i64>,
    observations: &Vec<CodexWeeklyRateLimitObservation>,
    now_millis: i64,
    measure: M,
) -> (estimates: Vec<CodexWeeklyQuotaEstimate>)
    requires
        forall|episode: QuotaEpisode, positions: Vec<usize>|
            episode.is_dated(observations@) && (forall|k: int|
                0 <= k < positions@.len() ==> #[trigger] positions@[k] < cost_times@.len())
                ==> #[trigger] call_requires(measure, (episode, positions)),
    ensures
        ({
            let candidates = candidates_of(
                trace_of(observations@, timeline_of(observations@, now_millis)),
            );
            exists|measures: Seq<EpisodeMeasure>|
                {
                    &&& #[trigger] are_measures_of(
                        measure,
                        observations@,
                        cost_times@,
                        candidates,
                        measures,
                    )
                    &&& estimates@.map_values(|e: CodexWeeklyQuotaEstimate| e@) == estimates_of(
                        observations@,
                        candidates,
                        measures,
                    )
                }
        }),
{
    let trace = trace_quota_episodes(observations, now_millis);
    let mut estimates: Vec<CodexWeeklyQuotaEstimate> = Vec::new();
    let ghost candidates = candidates_of(trace@);
    let ghost mut measures: Seq<EpisodeMeasure> = Seq::empty();
    let mut i: usize = 0;
    proof {
        assert(candidates.take(0) =~= Seq::empty());
        assert(estimates@.map_values(|e: CodexWeeklyQuotaEstimate| e@) =~= Seq::empty());
    }
    while i < trace.completed.len()
        invariant
            i <= trace.completed.len(),
            candidates == candidates_of(trace@),
            trace.is_dated(observations@),
            forall|episode: QuotaEpisode, positions: Vec<usize>|
                episode.is_dated(observations@) && (forall|k: int|
                    0 <= k < positions@.len() ==> #[trigger] positions@[k] < cost_times@.len())
                    ==> #[trigger] call_requires(measure, (episode, positions)),
            are_measures_of(
                measure,
                observations@,
                cost_times@,
                candidates.take(i as int),
                measures,
            ),
            estimates@.map_values(|e: CodexWeeklyQuotaEstimate| e@) == estimates_of(
                observations@,
                candidates.take(i as int),
                measures,
            ),
        decreases trace.completed.len() - i,
    {
        let episode = trace.completed[i];
        assert(candidates[i as int].episode == episode@);
        assert(candidates[i as int].status is Completed);
        let positions = costs_after_anchor(cost_times, &episode);
        let measured = measure(episode, positions);
        let estimate = estimate_episode(
            observations,
            &episode,
            &measured,
            CodexWeeklyQuotaEstimateStatus::Completed,
        );
        let ghost before = estimates@;
        proof {
            lemma_next_estimate(
                measure,
                observations@,
                cost_times@,
                candidates,
                measures,
                i as int,
                measured,
            );
            measures = measures.push(measured);
        }
        if let Some(estimate) = estimate {
            estimates.push(estimate);
            assert(estimates@.map_values(|e: CodexWeeklyQuotaEstimate| e@) =~= before.map_values(
                |e: CodexWeeklyQuotaEstimate| e@,
            ).push(estimate@));
        }
        i = i + 1;
    }
    if let Some(episode) = trace.current {
        assert(candidates[i as int].episode == episode@);
        assert(candidates[i as int].status is Provisional);
        let positions = costs_after_anchor(cost_times, &episode);
        let measured = measure(episode, positions);
        let estimate = estimate_episode(
            observations,
            &episode,
            &measured,
            CodexWeeklyQuotaEstimateStatus::Provisional,
        );
        let ghost before = estimates@;
        proof {
            lemma_next_estimate(
                measure,
                observations@,
                cost_times@,
                candidates,
                measures,
                i as int,
                measured,
            );
            measures = measures.push(measured);
        }
        if let Some(estimate) = estimate {
            estimates.push(estimate);
            assert(estimates@.map_values(|e: CodexWeeklyQuotaEstimate| e@) =~= before.map_values(
                |e: CodexWeeklyQuotaEstimate| e@,
            ).push(estimate@));
        }
    }
    proof {
        assert(candidates.take(candidates.len() as int) =~= candidates);
    }
    estimates
}

/// One more measured candidate adds its estimate, where its measure is telling.
proof fn lemma_next_estimate<M: Fn(QuotaEpisode, Vec<usize>) -> EpisodeMeasure>(
    measure: M,
    observations: Seq<CodexWeeklyRateLimitObservation>,
    cost_times: Seq<i64>,
    candidates: Seq<Candidate>,
    measures: Seq<EpisodeMeasure>,
    i: int,
    measured: EpisodeMeasure,
)
    requires
        0 <= i < candidates.len(),
        are_measures_of(measure, observations, cost_times, candidates.take(i), measures),
        is_measure_of(measure, observations, cost_times, candidates[i].episode, measured),
    ensures
        are_measures_of(
            measure,
            observations,
            cost_times,
            candidates.take(i + 1),
            measures.push(measured),
        ),
        ({
            let earlier = estimates_of(observations, candidates.take(i), measures);
            estimates_of(observations, candidates.take(i + 1), measures.push(measured)) == if (
            measured.is_telling()) {
                earlier.push(
                    estimate_of(
                        observations,
                        candidates[i].episode,
                        measured,
                        candidates[i].status,
                    ),
                )
            } else {
                earlier
            }
        }),
{
    assert(candidates.take(i + 1).drop_last() =~= candidates.take(i));
    assert(measures.push(measured).drop_last() =~= measures);
    assert forall|j: int| 0 <= j < i + 1 implies is_measure_of(
        measure,
        observations,
        cost_times,
        (#[trigger] candidates.take(i + 1)[j]).episode,
        measures.push(measured)[j],
    ) by {
        if j < i {
            assert(candidates.take(i)[j] == candidates.take(i + 1)[j]);
        }
    }
}

/// The positions are of samples taken one after another.
spec fn ascends(
    observations: Seq<CodexWeeklyRateLimitObservation>,
    timeline: Seq<usize>,
) -> bool {
    &&& forall|k: int| 0 <= k < timeline.len() ==> (#[trigger] timeline[k]) < observations.len()
    &&& forall|k: int, m: int|
        0 <= k < m < timeline.len() ==> observations[#[trigger] timeline[k] as int].millis()
            < observations[#[trigger] timeline[m] as int].millis()
}

/// The episode has at least one sample and names a reset no earlier than its first
/// and latest sample do. With one sample it begins and ends there, with more it
/// ends later than it begins.
pub open spec fn is_sound_episode(
    observations: Seq<CodexWeeklyRateLimitObservation>,
    episode: Episode,
) -> bool {
    &&& 0 <= episode.start < observations.len()
    &&& 0 <= episode.end < observations.len()
    &&& episode.samples >= 1
    &&& episode.samples == 1 ==> episode.start == episode.end
    &&& episode.samples > 1 ==> observations[episode.start].millis()
        < observations[episode.end].millis()
    &&& observations[episode.start].resets_at <= episode.reset_horizon
    &&& observations[episode.end].resets_at <= episode.reset_horizon
}

spec fn is_listed(timeline: Seq<usize>, position: int) -> bool {
    exists|k: int| 0 <= k < timeline.len() && #[trigger] timeline[k] == position
}

spec fn is_sound_trace(
    observations: Seq<CodexWeeklyRateLimitObservation>,
    timeline: Seq<usize>,
    trace: Trace,
) -> bool {
    let candidates = candidates_of(trace);
    &&& trace.current is None <==> timeline.len() == 0
    &&& trace.current is None ==> trace.completed.len() == 0
    &&& forall|k: int|
        0 <= k < candidates.len() ==> {
            let episode = (#[trigger] candidates[k]).episode;
            &&& is_sound_episode(observations, episode)
            &&& is_listed(timeline, episode.start)
            &&& is_listed(timeline, episode.end)
            &&& observations[episode.end].millis() <= observations[timeline.last() as int].millis()
        }
    &&& forall|k: int, m: int|
        0 <= k < m < candidates.len() ==> observations[(
        #[trigger] candidates[k]).episode.end].millis() < observations[(
        #[trigger] candidates[m]).episode.start].millis()
}

proof fn lemma_trace_is_sound(
    observations: Seq<CodexWeeklyRateLimitObservation>,
    timeline: Seq<usize>,
)
    requires
        ascends(observations, timeline),
    ensures
        is_sound_trace(observations, timeline, trace_of(observations, timeline)),
    decreases timeline.len(),
{
    if timeline.len() > 0 {
        let rest = timeline.drop_last();
        lemma_trace_is_sound(observations, rest);
        let before = trace_of(observations, rest);
        let after = trace_of(observations, timeline);
        let old_candidates = candidates_of(before);
        let candidates = candidates_of(after);
        let position = timeline.last() as int;
        assert(timeline[timeline.len() - 1] == position);
        assert(is_listed(timeline, position));
        assert forall|p: int| #[trigger] is_listed(rest, p) implies is_listed(timeline, p)
            && observations[p].millis() < observations[position].millis() by {
            let k = choose|k: int| 0 <= k < rest.len() && #[trigger] rest[k] == p;
            assert(timeline[k] == p);
            assert(observations[timeline[k] as int].millis() < observations[timeline[
            timeline.len() - 1] as int].millis());
        }
        assert forall|k: int| 0 <= k < old_candidates.len() implies observations[(
        #[trigger] old_candidates[k]).episode.end].millis() < observations[position].millis() by {
            assert(is_listed(rest, old_candidates[k].episode.end));
        }
        match before.current {
            None => {
                assert(candidates.len() == 1);
                assert(candidates[0].episode == opened(observations[position], position));
            },
            Some(episode) => {
                let n = before.completed.len() as int;
                assert(old_candidates[n].episode == episode);
                assert(observations[episode.end].millis() < observations[position].millis());
                assert(observations[episode.start].millis() <= observations[episode.end].millis());
                match reading(observations, episode, position) {
                    Reading::Resets => {
                        assert(forall|k: int|
                            0 <= k <= n ==> (#[trigger] candidates[k]).episode
                                == old_candidates[k].episode);
                        assert(candidates[n + 1].episode == opened(
                            observations[position],
                            position,
                        ));
                        assert(candidates.len() == n + 2);
                    },
                    Reading::Ignored => {
                        assert(candidates == old_candidates);
                    },
                    Reading::Freezes => {
                        assert(forall|k: int|
                            0 <= k < n ==> #[trigger] candidates[k] == old_candidates[k]);
                        assert(candidates.len() == n + 1);
                    },
                    Reading::Continues => {
                        assert(forall|k: int|
                            0 <= k < n ==> #[trigger] candidates[k] == old_candidates[k]);
                        assert(candidates.len() == n + 1);
                    },
                }
            },
        }
    }
}

proof fn lemma_timeline_ascends(
    observations: Seq<CodexWeeklyRateLimitObservation>,
    now_millis: i64,
    timeline: Seq<usize>,
)
    requires
        is_timeline(observations, now_millis, timeline),
    ensures
        ascends(observations, timeline),
{
    assert forall|k: int| 0 <= k < timeline.len() implies (#[trigger] timeline[k])
        < observations.len() by {
        assert(stands(observations, now_millis, timeline[k] as int));
    }
}

/// Every episode of a timeline is sound, and begins and ends with samples that
/// count.
pub proof fn law_episodes_are_sound_and_recent(
    observations: Seq<CodexWeeklyRateLimitObservation>,
    now_millis: i64,
    timeline: Seq<usize>,
    k: int,
)
    requires
        is_timeline(observations, now_millis, timeline),
        0 <= k < candidates_of(trace_of(observations, timeline)).len(),
    ensures
        ({
            let episode = candidates_of(trace_of(observations, timeline))[k].episode;
            &&& is_sound_episode(observations, episode)
            &&& observations[episode.start].is_recent(now_millis)
            &&& observations[episode.end].is_recent(now_millis)
            &&& window_start(now_millis) <= observations[episode.start].millis()
                <= observations[episode.end].millis() <= now_millis
        }),
{
    lemma_timeline_ascends(observations, now_millis, timeline);
    lemma_trace_is_sound(observations, timeline);
    let episode = candidates_of(trace_of(observations, timeline))[k].episode;
    assert(is_listed(timeline, episode.start) && is_listed(timeline, episode.end));
    let i = choose|i: int| 0 <= i < timeline.len() && #[trigger] timeline[i] == episode.start;
    let j = choose|j: int| 0 <= j < timeline.len() && #[trigger] timeline[j] == episode.end;
    assert(stands(observations, now_millis, timeline[i] as int));
    assert(stands(observations, now_millis, timeline[j] as int));
}

/// Episodes follow each other in time: each ends before the next begins.
pub proof fn law_episodes_do_not_overlap(
    observations: Seq<CodexWeeklyRateLimitObservation>,
    now_millis: i64,
    timeline: Seq<usize>,
    k: int,
    m: int,
)
    requires
        is_timeline(observations, now_millis, timeline),
        0 <= k < m < candidates_of(trace_of(observations, timeline)).len(),
    ensures
        ({
            let candidates = candidates_of(trace_of(observations, timeline));
            observations[candidates[k].episode.end].millis()
                < observations[candidates[m].episode.start].millis()
        }),
{
    lemma_timeline_ascends(observations, now_millis, timeline);
    lemma_trace_is_sound(observations, timeline);
}

/// The costs between two times are exactly those later than the first and not
/// later than the second.
pub proof fn law_costs_between_two_times(times: Seq<i64>, after: int, until: int, p: usize)
    requires
        times.len() <= usize::MAX,
    ensures
        positions_between(times, after, until).contains(p) <==> p < times.len() && after
            < times[p as int] <= until,
    decreases times.len(),
{
    if times.len() > 0 {
        let rest = times.drop_last();
        let earlier = positions_between(rest, after, until);
        let positions = positions_between(times, after, until);
        law_costs_between_two_times(rest, after, until, p);
        if after < times.last() <= until {
            assert(positions.last() == (times.len() - 1) as usize);
            assert(positions.drop_last() =~= earlier);
            if earlier.contains(p) {
                let k = choose|k: int| 0 <= k < earlier.len() && earlier[k] == p;
                assert(positions[k] == p);
            }
            if positions.contains(p) && p != (times.len() - 1) as usize {
                let k = choose|k: int| 0 <= k < positions.len() && positions[k] == p;
                assert(earlier[k] == p);
            }
        }
    }
}

/// No cost counts towards two estimates.
pub proof fn law_costs_count_once(
    observations: Seq<CodexWeeklyRateLimitObservation>,
    now_millis: i64,
    timeline: Seq<usize>,
    cost_times: Seq<i64>,
    k: int,
    m: int,
    p: usize,
)
    requires
        cost_times.len() <= usize::MAX,
        is_timeline(observations, now_millis, timeline),
        0 <= k < m < candidates_of(trace_of(observations, timeline)).len(),
    ensures
        ({
            let earlier = candidates_of(trace_of(observations, timeline))[k].episode;
            let later = candidates_of(trace_of(observations, timeline))[m].episode;
            !(positions_between(
                cost_times,
                observations[earlier.start].millis(),
                observations[earlier.end].millis(),
            ).contains(p) && positions_between(
                cost_times,
                observations[later.start].millis(),
                observations[later.end].millis(),
            ).contains(p))
        }),
{
    let earlier = candidates_of(trace_of(observations, timeline))[k].episode;
    let later = candidates_of(trace_of(observations, timeline))[m].episode;
    law_episodes_do_not_overlap(observations, now_millis, timeline, k, m);
    law_costs_between_two_times(
        cost_times,
        observations[earlier.start].millis(),
        observations[earlier.end].millis(),
        p,
    );
    law_costs_between_two_times(
        cost_times,
        observations[later.start].millis(),
        observations[later.end].millis(),
        p,
    );
}

/// A frozen episode keeps its samples: a sample either completes it as it is, by
/// naming a later reset, or does nothing.
pub proof fn law_frozen_episodes_only_await_a_reset(
    observations: Seq<CodexWeeklyRateLimitObservation>,
    trace: Trace,
    episode: Episode,
    position: int,
)
    requires
        trace.current == Some(episode),
        episode.frozen,
    ensures
        traced_sample(observations, trace, position) == if horizon_advanced(
            episode,
            observations[position],
        ) {
            Trace {
                completed: trace.completed.push(episode),
                current: Some(opened(observations[position], position)),
            }
        } else {
            trace
        },
{
}

/// An episode is completed by a sample that names a later reset, where the share
/// dropped or the episode is frozen, and by no other. The episodes completed before
/// stay as they are.
pub proof fn law_only_a_later_reset_completes_an_episode(
    observations: Seq<CodexWeeklyRateLimitObservation>,
    trace: Trace,
    episode: Episode,
    position: int,
)
    requires
        trace.current == Some(episode),
    ensures
        ({
            let observation = observations[position];
            let dropped = observation.used_percent.dropped_from(
                observations[episode.end].used_percent,
            );
            traced_sample(observations, trace, position).completed == if horizon_advanced(
                episode,
                observation,
            ) && (dropped || episode.frozen) {
                trace.completed.push(episode)
            } else {
                trace.completed
            }
        }),
{
}

/// A sample that names an earlier reset never becomes part of an episode: it freezes
/// the episode, except where the episode has only just begun.
pub proof fn law_stale_samples_freeze_an_episode(
    observations: Seq<CodexWeeklyRateLimitObservation>,
    trace: Trace,
    episode: Episode,
    position: int,
)
    requires
        trace.current == Some(episode),
        horizon_receded(episode, observations[position]),
    ensures
        traced_sample(observations, trace, position) == (Trace {
            current: Some(
                Episode {
                    frozen: episode.frozen || !in_reset_handoff(observations, episode, position),
                    ..episode
                },
            ),
            ..trace
        }),
{
}

/// A smaller share that names the same reset is passed over.
pub proof fn law_regressions_are_passed_over(
    observations: Seq<CodexWeeklyRateLimitObservation>,
    trace: Trace,
    episode: Episode,
    position: int,
)
    requires
        trace.current == Some(episode),
        !horizon_advanced(episode, observations[position]),
        !horizon_receded(episode, observations[position]),
        observations[position].used_percent.dropped_from(observations[episode.end].used_percent),
    ensures
        traced_sample(observations, trace, position) == trace,
{
}

/// No estimate is of an episode that cost nothing or less, and only the last can be
/// provisional.
pub proof fn law_estimates_are_of_paid_episodes(
    observations: Seq<CodexWeeklyRateLimitObservation>,
    trace: Trace,
    measures: Seq<EpisodeMeasure>,
    i: int,
)
    requires
        measures.len() == candidates_of(trace).len(),
        0 <= i < estimates_of(observations, candidates_of(trace), measures).len(),
    ensures
        ({
            let estimates = estimates_of(observations, candidates_of(trace), measures);
            &&& !estimates[i].observed_cost_usd.spec_at_most_whole(0)
            &&& i < estimates.len() - 1 ==> estimates[i].status is Completed
        }),
{
    let candidates = candidates_of(trace);
    let n = trace.completed.len();
    match trace.current {
        None => {
            lemma_estimates_of_completed(observations, candidates, measures, i);
        },
        Some(episode) => {
            let rest = candidates.drop_last();
            assert(forall|k: int| 0 <= k < rest.len() ==> (#[trigger] rest[k]).status is Completed);
            let earlier = estimates_of(observations, rest, measures.drop_last());
            if i < earlier.len() {
                lemma_estimates_of_completed(observations, rest, measures.drop_last(), i);
            }
        },
    }
}

proof fn lemma_estimates_of_completed(
    observations: Seq<CodexWeeklyRateLimitObservation>,
    candidates: Seq<Candidate>,
    measures: Seq<EpisodeMeasure>,
    i: int,
)
    requires
        measures.len() == candidates.len(),
        forall|k: int| 0 <= k < candidates.len() ==> (#[trigger] candidates[k]).status is Completed,
        0 <= i < estimates_of(observations, candidates, measures).len(),
    ensures
        ({
            let estimate = estimates_of(observations, candidates, measures)[i];
            &&& !estimate.observed_cost_usd.spec_at_most_whole(0)
            &&& estimate.status is Completed
        }),
    decreases candidates.len(),
{
    if candidates.len() > 0 {
        let earlier = estimates_of(observations, candidates.drop_last(), measures.drop_last());
        if i < earlier.len() {
            lemma_estimates_of_completed(
                observations,
                candidates.drop_last(),
                measures.drop_last(),
                i,
            );
        } else {
            assert(candidates[candidates.len() - 1].status is Completed);
        }
    }
}

/// The two samples say the same of the same time, which is written in the same way, and
/// their shares carry the same sum with one half.
pub open spec fn are_twins(
    left: CodexWeeklyRateLimitObservation,
    right: CodexWeeklyRateLimitObservation,
) -> bool {
    &&& left.is_same_sample(&right)
    &&& left.timestamp@ == right.timestamp@
    &&& left.used_percent.plus_half.spec_equals(right.used_percent.plus_half)
}

/// The two episodes are of samples that say the same.
pub open spec fn are_twin_episodes(
    left: Seq<CodexWeeklyRateLimitObservation>,
    right: Seq<CodexWeeklyRateLimitObservation>,
    one: Episode,
    other: Episode,
) -> bool {
    &&& are_twins(left[one.start], right[other.start])
    &&& are_twins(left[one.end], right[other.end])
    &&& one.reset_horizon == other.reset_horizon
    &&& one.samples == other.samples
    &&& one.frozen == other.frozen
}

spec fn are_twin_traces(
    left: Seq<CodexWeeklyRateLimitObservation>,
    right: Seq<CodexWeeklyRateLimitObservation>,
    one: Trace,
    other: Trace,
) -> bool {
    &&& one.completed.len() == other.completed.len()
    &&& forall|k: int|
        0 <= k < one.completed.len() ==> are_twin_episodes(
            left,
            right,
            #[trigger] one.completed[k],
            other.completed[k],
        )
    &&& match (one.current, other.current) {
        (None, None) => true,
        (Some(episode), Some(twin)) => are_twin_episodes(left, right, episode, twin),
        _ => false,
    }
}

proof fn lemma_twin_timelines_have_twin_traces(
    left: Seq<CodexWeeklyRateLimitObservation>,
    right: Seq<CodexWeeklyRateLimitObservation>,
    left_timeline: Seq<usize>,
    right_timeline: Seq<usize>,
)
    requires
        left_timeline.len() == right_timeline.len(),
        forall|k: int|
            0 <= k < left_timeline.len() ==> are_twins(
                left[#[trigger] left_timeline[k] as int],
                right[right_timeline[k] as int],
            ),
    ensures
        are_twin_traces(
            left,
            right,
            trace_of(left, left_timeline),
            trace_of(right, right_timeline),
        ),
    decreases left_timeline.len(),
{
    if left_timeline.len() > 0 {
        let earlier = left_timeline.drop_last();
        let other_earlier = right_timeline.drop_last();
        assert forall|k: int| 0 <= k < earlier.len() implies are_twins(
            left[#[trigger] earlier[k] as int],
            right[other_earlier[k] as int],
        ) by {
            assert(earlier[k] == left_timeline[k]);
        }
        lemma_twin_timelines_have_twin_traces(left, right, earlier, other_earlier);
        let last = left_timeline.len() - 1;
        let position = left_timeline[last] as int;
        let other_position = right_timeline[last] as int;
        assert(are_twins(left[position], right[other_position]));
        let before = trace_of(left, earlier);
        let other_before = trace_of(right, other_earlier);
        if let (Some(episode), Some(twin)) = (before.current, other_before.current) {
            assert(reading(left, episode, position) == reading(right, twin, other_position));
        }
    }
}

/// The samples carry the sums of their shares and one half.
pub open spec fn are_summed(observations: Seq<CodexWeeklyRateLimitObservation>) -> bool {
    forall|i: int|
        0 <= i < observations.len() ==> (#[trigger] observations[i]).used_percent.is_summed()
}

/// Samples of the same time have it written in the same way.
pub open spec fn are_dated_alike(
    left: Seq<CodexWeeklyRateLimitObservation>,
    right: Seq<CodexWeeklyRateLimitObservation>,
) -> bool {
    forall|i: int, j: int|
        0 <= i < left.len() && 0 <= j < right.len() && (
        #[trigger] left[i]).timestamp_millis is Some && left[i].timestamp_millis == (
        #[trigger] right[j]).timestamp_millis ==> left[i].timestamp@ == right[j].timestamp@
}

/// The two measures say the same of episodes whose samples say the same, given the same
/// costs.
pub open spec fn measure_alike<
    M: Fn(QuotaEpisode, Vec<usize>) -> EpisodeMeasure,
    N: Fn(QuotaEpisode, Vec<usize>) -> EpisodeMeasure,
>(
    left: Seq<CodexWeeklyRateLimitObservation>,
    right: Seq<CodexWeeklyRateLimitObservation>,
    measure: M,
    other: N,
) -> bool {
    forall|
        episode: QuotaEpisode,
        positions: Vec<usize>,
        measured: EpisodeMeasure,
        twin: QuotaEpisode,
        twin_positions: Vec<usize>,
        twin_measured: EpisodeMeasure,
    |
        episode.is_dated(left) && twin.is_dated(right) && are_twin_episodes(
            left,
            right,
            episode@,
            twin@,
        ) && positions@ == twin_positions@ && #[trigger] call_ensures(
            measure,
            (episode, positions),
            measured,
        ) && #[trigger] call_ensures(other, (twin, twin_positions), twin_measured)
            ==> measured.says_same(twin_measured)
}

/// The estimates depend on the uncontested samples alone: where these are the same, the
/// estimates say the same. The order of the samples, repetitions, and samples that do not
/// count or contradict each other do not matter.
pub proof fn law_estimates_depend_on_uncontested_samples<
    M: Fn(QuotaEpisode, Vec<usize>) -> EpisodeMeasure,
    N: Fn(QuotaEpisode, Vec<usize>) -> EpisodeMeasure,
>(
    left: Seq<CodexWeeklyRateLimitObservation>,
    right: Seq<CodexWeeklyRateLimitObservation>,
    now_millis: i64,
    cost_times: Seq<i64>,
    measure: M,
    other: N,
    left_measures: Seq<EpisodeMeasure>,
    right_measures: Seq<EpisodeMeasure>,
)
    requires
        left.len() <= usize::MAX,
        right.len() <= usize::MAX,
        have_same_samples(left, right, now_millis),
        are_summed(left),
        are_summed(right),
        are_dated_alike(left, right),
        measure_alike(left, right, measure, other),
        are_measures_of(
            measure,
            left,
            cost_times,
            candidates_of(trace_of(left, timeline_of(left, now_millis))),
            left_measures,
        ),
        are_measures_of(
            other,
            right,
            cost_times,
            candidates_of(trace_of(right, timeline_of(right, now_millis))),
            right_measures,
        ),
    ensures
        ({
            let left_estimates = estimates_of(
                left,
                candidates_of(trace_of(left, timeline_of(left, now_millis))),
                left_measures,
            );
            let right_estimates = estimates_of(
                right,
                candidates_of(trace_of(right, timeline_of(right, now_millis))),
                right_measures,
            );
            &&& left_estimates.len() == right_estimates.len()
            &&& forall|k: int|
                0 <= k < left_estimates.len() ==> (#[trigger] left_estimates[k]).says_same(
                    right_estimates[k],
                )
        }),
{
    let left_timeline = timeline_of(left, now_millis);
    let right_timeline = timeline_of(right, now_millis);
    law_samples_have_a_timeline(left, now_millis);
    law_samples_have_a_timeline(right, now_millis);
    law_timeline_depends_on_uncontested_samples(
        left,
        right,
        now_millis,
        left_timeline,
        right_timeline,
    );
    assert forall|k: int| 0 <= k < left_timeline.len() implies are_twins(
        left[#[trigger] left_timeline[k] as int],
        right[right_timeline[k] as int],
    ) by {
        assert(stands(left, now_millis, left_timeline[k] as int));
        assert(stands(right, now_millis, right_timeline[k] as int));
        let one = left[left_timeline[k] as int];
        let other = right[right_timeline[k] as int];
        assert(one.used_percent.is_summed() && other.used_percent.is_summed());
        one.used_percent.plus_half.lemma_nearest_is_unique(
            other.used_percent.plus_half,
            one.used_percent.percent.value() + half(),
        );
        assert(one.timestamp_millis == other.timestamp_millis);
    }
    lemma_twin_timelines_have_twin_traces(left, right, left_timeline, right_timeline);
    let left_trace = trace_of(left, left_timeline);
    let right_trace = trace_of(right, right_timeline);
    let left_candidates = candidates_of(left_trace);
    let right_candidates = candidates_of(right_trace);
    assert forall|k: int| 0 <= k < left_candidates.len() implies are_twin_episodes(
        left,
        right,
        (#[trigger] left_candidates[k]).episode,
        right_candidates[k].episode,
    ) && left_candidates[k].status == right_candidates[k].status && left_measures[k].says_same(
        right_measures[k],
    ) by {
        if k < left_trace.completed.len() {
            assert(left_candidates[k].episode == left_trace.completed[k]);
            assert(right_candidates[k].episode == right_trace.completed[k]);
        }
        let one = left_candidates[k].episode;
        let twin = right_candidates[k].episode;
        assert(are_twin_episodes(left, right, one, twin));
        assert(is_measure_of(measure, left, cost_times, one, left_measures[k]));
        assert(is_measure_of(other, right, cost_times, twin, right_measures[k]));
        let (episode, positions) = choose|dated: QuotaEpisode, positions: Vec<usize>|
            {
                &&& dated@ == one
                &&& dated.is_dated(left)
                &&& positions@ == positions_between(
                    cost_times,
                    left[one.start].millis(),
                    left[one.end].millis(),
                )
                &&& #[trigger] call_ensures(measure, (dated, positions), left_measures[k])
            };
        let (twin_episode, twin_positions) = choose|dated: QuotaEpisode, positions: Vec<usize>|
            {
                &&& dated@ == twin
                &&& dated.is_dated(right)
                &&& positions@ == positions_between(
                    cost_times,
                    right[twin.start].millis(),
                    right[twin.end].millis(),
                )
                &&& #[trigger] call_ensures(other, (dated, positions), right_measures[k])
            };
        assert(positions@ == twin_positions@);
    }
    lemma_twin_candidates_have_same_estimates(
        left,
        right,
        left_candidates,
        right_candidates,
        left_measures,
        right_measures,
    );
}

proof fn lemma_twin_candidates_have_same_estimates(
    left: Seq<CodexWeeklyRateLimitObservation>,
    right: Seq<CodexWeeklyRateLimitObservation>,
    left_candidates: Seq<Candidate>,
    right_candidates: Seq<Candidate>,
    left_measures: Seq<EpisodeMeasure>,
    right_measures: Seq<EpisodeMeasure>,
)
    requires
        left_candidates.len() == right_candidates.len(),
        left_measures.len() == left_candidates.len(),
        right_measures.len() == right_candidates.len(),
        forall|k: int|
            0 <= k < left_candidates.len() ==> are_twin_episodes(
                left,
                right,
                (#[trigger] left_candidates[k]).episode,
                right_candidates[k].episode,
            ) && left_candidates[k].status == right_candidates[k].status
                && left_measures[k].says_same(right_measures[k]),
    ensures
        ({
            let left_estimates = estimates_of(left, left_candidates, left_measures);
            let right_estimates = estimates_of(right, right_candidates, right_measures);
            &&& left_estimates.len() == right_estimates.len()
            &&& forall|k: int|
                0 <= k < left_estimates.len() ==> (#[trigger] left_estimates[k]).says_same(
                    right_estimates[k],
                )
        }),
    decreases left_candidates.len(),
{
    if left_candidates.len() > 0 {
        let rest = left_candidates.drop_last();
        let last = left_candidates.len() - 1;
        assert forall|k: int| 0 <= k < rest.len() implies are_twin_episodes(
            left,
            right,
            (#[trigger] rest[k]).episode,
            right_candidates.drop_last()[k].episode,
        ) && rest[k].status == right_candidates.drop_last()[k].status
            && left_measures.drop_last()[k].says_same(right_measures.drop_last()[k]) by {
            assert(rest[k] == left_candidates[k]);
        }
        lemma_twin_candidates_have_same_estimates(
            left,
            right,
            rest,
            right_candidates.drop_last(),
            left_measures.drop_last(),
            right_measures.drop_last(),
        );
        assert(are_twin_episodes(
            left,
            right,
            left_candidates[last].episode,
            right_candidates[last].episode,
        ));
    }
}

/// The costs between two times are taken in their order, and none twice.
pub proof fn law_costs_ascend(times: Seq<i64>, after: int, until: int)
    requires
        times.len() <= usize::MAX,
    ensures
        forall|k: int, m: int|
            0 <= k < m < positions_between(times, after, until).len() ==> (
            #[trigger] positions_between(times, after, until)[k]) < (
            #[trigger] positions_between(times, after, until)[m]),
        forall|k: int|
            0 <= k < positions_between(times, after, until).len() ==> (
            #[trigger] positions_between(times, after, until)[k]) < times.len(),
    decreases times.len(),
{
    if times.len() > 0 {
        law_costs_ascend(times.drop_last(), after, until);
        let earlier = positions_between(times.drop_last(), after, until);
        let positions = positions_between(times, after, until);
        assert forall|k: int, m: int| 0 <= k < m < positions.len() implies (
        #[trigger] positions[k]) < (#[trigger] positions[m]) by {
            assert(positions[k] == earlier[k]);
            if m < earlier.len() {
                assert(positions[m] == earlier[m]);
            }
        }
        assert forall|k: int| 0 <= k < positions.len() implies (#[trigger] positions[k])
            < times.len() by {
            if k < earlier.len() {
                assert(positions[k] == earlier[k]);
            }
        }
    }
}

/// Costs between two times and costs between later times together are the costs between
/// the first and the last time.
pub proof fn law_costs_add_up(times: Seq<i64>, after: int, middle: int, until: int, p: usize)
    requires
        times.len() <= usize::MAX,
        after <= middle <= until,
    ensures
        positions_between(times, after, until).contains(p) <==> positions_between(
            times,
            after,
            middle,
        ).contains(p) || positions_between(times, middle, until).contains(p),
        positions_between(times, after, until).len() == positions_between(
            times,
            after,
            middle,
        ).len() + positions_between(times, middle, until).len(),
    decreases times.len(),
{
    law_costs_between_two_times(times, after, until, p);
    law_costs_between_two_times(times, after, middle, p);
    law_costs_between_two_times(times, middle, until, p);
    if times.len() > 0 {
        law_costs_add_up(times.drop_last(), after, middle, until, p);
    }
}

/// What each sample does, in terms of the reset times, the shares and the times of the
/// samples. The first sample opens an episode. A sample that names a reset more than
/// three hundred seconds later completes the episode, if its share and one half are less
/// than the latest share, or the episode is frozen, and opens the next. Otherwise a frozen
/// episode stays as it is. A sample that names a reset more than three hundred seconds
/// earlier freezes the episode, unless no more than three hundred seconds have passed since
/// its first sample and the latest share is at most the first and one half. A sample whose
/// share and one half are less than the latest share is passed over. Any other becomes the
/// latest of the episode.
pub proof fn law_what_each_sample_does(
    observations: Seq<CodexWeeklyRateLimitObservation>,
    trace: Trace,
    position: int,
)
    ensures
        ({
            let sample = observations[position];
            let after = traced_sample(observations, trace, position);
            let next = Episode {
                start: position,
                end: position,
                reset_horizon: sample.resets_at as int,
                samples: 1,
                frozen: false,
            };
            match trace.current {
                None => after.completed == trace.completed && after.current == Some(next),
                Some(episode) => {
                    let first = observations[episode.start];
                    let latest = observations[episode.end];
                    let dropped = !sample.used_percent.plus_half.is_nan()
                        && !latest.used_percent.percent.is_nan()
                        && sample.used_percent.plus_half.value()
                        < latest.used_percent.percent.value();
                    let young = sample.timestamp_millis->0 - first.timestamp_millis->0 <= 300_000
                        && !latest.used_percent.percent.is_nan()
                        && !first.used_percent.plus_half.is_nan()
                        && latest.used_percent.percent.value()
                        <= first.used_percent.plus_half.value();
                    if sample.resets_at > episode.reset_horizon + 300 && (dropped
                        || episode.frozen) {
                        &&& after.completed == trace.completed.push(episode)
                        &&& after.current == Some(next)
                    } else {
                        &&& after.completed == trace.completed
                        &&& after.current matches Some(current)
                        &&& current.start == episode.start
                        &&& if episode.frozen {
                            current == episode
                        } else if sample.resets_at < episode.reset_horizon - 300 {
                            &&& current.end == episode.end
                            &&& current.reset_horizon == episode.reset_horizon
                            &&& current.samples == episode.samples
                            &&& current.frozen == !young
                        } else if dropped {
                            current == episode
                        } else {
                            &&& current.end == position
                            &&& current.samples == episode.samples + 1
                            &&& !current.frozen
                            &&& current.reset_horizon >= sample.resets_at
                            &&& current.reset_horizon >= episode.reset_horizon
                            &&& current.reset_horizon == sample.resets_at
                                || current.reset_horizon == episode.reset_horizon
                        }
                    }
                },
            }
        }),
{
}

/// A sample continues an episode that is not frozen if it names a reset no earlier than
/// the episode's but for three hundred seconds, and its share and one half reach the
/// latest share: the sample becomes the latest, one more is counted, and the reset time is
/// the later of the two.
pub proof fn law_samples_that_do_not_drop_continue_the_episode(
    observations: Seq<CodexWeeklyRateLimitObservation>,
    trace: Trace,
    episode: Episode,
    position: int,
)
    requires
        trace.current == Some(episode),
        !episode.frozen,
        observations[position].resets_at >= episode.reset_horizon - 300,
        !observations[position].used_percent.plus_half.is_nan(),
        observations[position].used_percent.plus_half.value()
            >= observations[episode.end].used_percent.percent.value(),
    ensures
        ({
            let after = traced_sample(observations, trace, position);
            &&& after.completed == trace.completed
            &&& after.current matches Some(current)
            &&& current.start == episode.start
            &&& current.end == position
            &&& current.samples == episode.samples + 1
            &&& !current.frozen
            &&& current.reset_horizon == if observations[position].resets_at
                > episode.reset_horizon {
                observations[position].resets_at as int
            } else {
                episode.reset_horizon
            }
        }),
{
}

/// Before any sample there is no episode, and every sample of a timeline is taken after
/// those before it.
pub proof fn law_samples_are_taken_one_after_another(
    observations: Seq<CodexWeeklyRateLimitObservation>,
    timeline: Seq<usize>,
    position: usize,
)
    ensures
        trace_of(observations, Seq::empty()).completed.len() == 0,
        trace_of(observations, Seq::empty()).current is None,
        trace_of(observations, timeline.push(position)) == traced_sample(
            observations,
            trace_of(observations, timeline),
            position as int,
        ),
{
    assert(timeline.push(position).drop_last() =~= timeline);
}

/// Samples that name one reset, but for three hundred seconds, and never drop are all of
/// one episode, from the first to the last.
pub proof fn law_steady_samples_are_one_episode(
    observations: Seq<CodexWeeklyRateLimitObservation>,
    timeline: Seq<usize>,
    reset: int,
)
    requires
        timeline.len() > 0,
        forall|k: int|
            0 <= k < timeline.len() ==> {
                let sample = observations[#[trigger] timeline[k] as int];
                &&& reset <= sample.resets_at <= reset + 300
                &&& !sample.used_percent.plus_half.is_nan()
            },
        forall|k: int|
            0 < k < timeline.len() ==> observations[
                #[trigger] timeline[k] as int
            ].used_percent.plus_half.value() >= observations[
                timeline[k - 1] as int
            ].used_percent.percent.value(),
    ensures
        ({
            let trace = trace_of(observations, timeline);
            &&& trace.completed.len() == 0
            &&& trace.current matches Some(episode)
            &&& episode.start == timeline[0]
            &&& episode.end == timeline[timeline.len() - 1]
            &&& episode.samples == timeline.len()
            &&& !episode.frozen
            &&& reset <= episode.reset_horizon <= reset + 300
        }),
    decreases timeline.len(),
{
    let rest = timeline.drop_last();
    let last = timeline.len() - 1;
    assert(timeline[last] == timeline.last());
    if rest.len() > 0 {
        assert forall|k: int| 0 <= k < rest.len() implies ({
            let sample = observations[#[trigger] rest[k] as int];
            &&& reset <= sample.resets_at <= reset + 300
            &&& !sample.used_percent.plus_half.is_nan()
        }) by {
            assert(rest[k] == timeline[k]);
        }
        assert forall|k: int| 0 < k < rest.len() implies observations[
            #[trigger] rest[k] as int
        ].used_percent.plus_half.value() >= observations[
            rest[k - 1] as int
        ].used_percent.percent.value() by {
            assert(rest[k] == timeline[k]);
        }
        law_steady_samples_are_one_episode(observations, rest, reset);
        assert(timeline[last - 1] == rest[last - 1]);
        assert(timeline[0] == rest[0]);
        let trace = trace_of(observations, rest);
        law_samples_that_do_not_drop_continue_the_episode(
            observations,
            trace,
            trace.current->0,
            timeline[last] as int,
        );
    } else {
        assert(rest =~= Seq::empty());
        assert(trace_of(observations, rest).current is None);
    }
}

/// The episodes are those that were completed, in their order, and then the one under
/// way; only that one is provisional.
pub proof fn law_candidates_are_all_episodes(trace: Trace)
    ensures
        candidates_of(trace).len() == trace.completed.len() + if trace.current is Some {
            1int
        } else {
            0
        },
        forall|k: int|
            0 <= k < trace.completed.len() ==> (#[trigger] candidates_of(trace)[k]).episode
                == trace.completed[k] && candidates_of(trace)[k].status is Completed,
        trace.current matches Some(episode) ==> {
            let last = candidates_of(trace)[trace.completed.len() as int];
            last.episode == episode && last.status is Provisional
        },
{
}

/// A measure is telling unless it says that five percent or less were used, or that it
/// cost nothing or less.
pub proof fn law_telling_measures(measure: EpisodeMeasure)
    ensures
        measure.is_telling() <==> (measure.used_percent_span.is_nan()
            || measure.used_percent_span.value() > 5 * pow2(1074)) && (
        measure.observed_cost_usd.is_nan() || measure.observed_cost_usd.value() > 0),
{
    vstd::arithmetic::mul::lemma_mul_basics(pow2(1074) as int);
}

/// Every candidate with a telling measure gives one estimate, and no other does, in the
/// order of the candidates. An estimate of either status has the times and the shares of
/// the first and the latest sample, and both costs as they were measured.
pub proof fn law_every_telling_candidate_gives_its_estimate(
    observations: Seq<CodexWeeklyRateLimitObservation>,
    candidates: Seq<Candidate>,
    measures: Seq<EpisodeMeasure>,
) -> (at: Seq<int>)
    requires
        measures.len() == candidates.len(),
    ensures
        is_selection(candidates.len() as int, |i: int| measures[i].is_telling(), at),
        estimates_of(observations, candidates, measures).len() == at.len(),
        forall|k: int|
            0 <= k < at.len() ==> {
                let estimate = #[trigger] estimates_of(observations, candidates, measures)[k];
                let episode = candidates[at[k]].episode;
                let measure = measures[at[k]];
                &&& estimate.started_at == observations[episode.start].timestamp@
                &&& estimate.ended_at == observations[episode.end].timestamp@
                &&& estimate.used_percent_start == observations[episode.start].used_percent.percent
                &&& estimate.used_percent_end == observations[episode.end].used_percent.percent
                &&& estimate.observed_cost_usd == measure.observed_cost_usd
                &&& estimate.estimated_weekly_cost_usd == measure.estimated_weekly_cost_usd
                &&& estimate.samples == episode.samples
                &&& estimate.status == candidates[at[k]].status
            },
    decreases candidates.len(),
{
    let keep = |i: int| measures[i].is_telling();
    if candidates.len() == 0 {
        Seq::empty()
    } else {
        let fewer = measures.drop_last();
        let before = |i: int| fewer[i].is_telling();
        let n = candidates.len() - 1;
        let earlier = law_every_telling_candidate_gives_its_estimate(
            observations,
            candidates.drop_last(),
            fewer,
        );
        assert(is_selection(n, before, earlier));
        assert forall|i: int| 0 <= i < n implies #[trigger] before(i) == keep(i) by {
            assert(fewer[i] == measures[i]);
        }
        let at = lemma_selection_grows(n, before, keep, earlier);
        let old_estimates = estimates_of(observations, candidates.drop_last(), fewer);
        let estimates = estimates_of(observations, candidates, measures);
        assert forall|k: int| 0 <= k < at.len() implies ({
            let estimate = #[trigger] estimates[k];
            let episode = candidates[at[k]].episode;
            let measure = measures[at[k]];
            &&& estimate.started_at == observations[episode.start].timestamp@
            &&& estimate.ended_at == observations[episode.end].timestamp@
            &&& estimate.used_percent_start == observations[episode.start].used_percent.percent
            &&& estimate.used_percent_end == observations[episode.end].used_percent.percent
            &&& estimate.observed_cost_usd == measure.observed_cost_usd
            &&& estimate.estimated_weekly_cost_usd == measure.estimated_weekly_cost_usd
            &&& estimate.samples == episode.samples
            &&& estimate.status == candidates[at[k]].status
        }) by {
            if k < earlier.len() {
                assert(at[k] == earlier[k]);
                assert(estimates[k] == old_estimates[k]);
                assert(candidates.drop_last()[earlier[k]] == candidates[at[k]]);
                assert(fewer[earlier[k]] == measures[at[k]]);
            }
        }
        at
    }
}

/// An episode is measured once, with the times of its first and latest sample and with
/// the costs after the first and up to the latest, in their order and none twice.
pub proof fn law_episodes_are_measured_with_their_costs<
    M: Fn(QuotaEpisode, Vec<usize>) -> EpisodeMeasure,
>(
    measure: M,
    observations: Seq<CodexWeeklyRateLimitObservation>,
    cost_times: Seq<i64>,
    candidates: Seq<Candidate>,
    measures: Seq<EpisodeMeasure>,
    i: int,
) -> (call: (QuotaEpisode, Vec<usize>))
    requires
        cost_times.len() <= usize::MAX,
        are_measures_of(measure, observations, cost_times, candidates, measures),
        0 <= i < candidates.len(),
    ensures
        measures.len() == candidates.len(),
        call_ensures(measure, call, measures[i]),
        call.0.start == candidates[i].episode.start,
        call.0.end == candidates[i].episode.end,
        call.0.reset_horizon == candidates[i].episode.reset_horizon,
        call.0.sample_count == candidates[i].episode.samples,
        call.0.continuity is Frozen <==> candidates[i].episode.frozen,
        call.0.start_millis == observations[candidates[i].episode.start].timestamp_millis->0,
        call.0.end_millis == observations[candidates[i].episode.end].timestamp_millis->0,
        forall|k: int, m: int|
            0 <= k < m < call.1@.len() ==> #[trigger] call.1@[k] < #[trigger] call.1@[m],
        forall|p: usize|
            #[trigger] call.1@.contains(p) <==> p < cost_times.len() && call.0.start_millis
                < cost_times[p as int] <= call.0.end_millis,
{
    let one = candidates[i].episode;
    assert(is_measure_of(measure, observations, cost_times, one, measures[i]));
    let (episode, positions) = choose|dated: QuotaEpisode, positions: Vec<usize>|
        {
            &&& dated@ == one
            &&& dated.is_dated(observations)
            &&& positions@ == positions_between(
                cost_times,
                observations[one.start].millis(),
                observations[one.end].millis(),
            )
            &&& #[trigger] call_ensures(measure, (dated, positions), measures[i])
        };
    law_costs_ascend(
        cost_times,
        observations[one.start].millis(),
        observations[one.end].millis(),
    );
    assert forall|p: usize| #[trigger] positions@.contains(p) <==> p < cost_times.len()
        && episode.start_millis < cost_times[p as int] <= episode.end_millis by {
        law_costs_between_two_times(
            cost_times,
            observations[one.start].millis(),
            observations[one.end].millis(),
            p,
        );
    }
    (episode, positions)
}

/// What an episode, a trace and an estimate say is what their fields hold.
pub proof fn law_views_show_the_fields(
    episode: QuotaEpisode,
    trace: QuotaTrace,
    estimate: CodexWeeklyQuotaEstimate,
)
    ensures
        episode@.start == episode.start,
        episode@.end == episode.end,
        episode@.reset_horizon == episode.reset_horizon,
        episode@.samples == episode.sample_count,
        episode@.frozen == (episode.continuity == QuotaEpisodeContinuity::Frozen),
        trace@.completed.len() == trace.completed@.len(),
        forall|k: int|
            0 <= k < trace.completed@.len() ==> #[trigger] trace@.completed[k]
                == trace.completed@[k]@,
        trace@.current is Some == trace.current is Some,
        trace.current matches Some(current) ==> trace@.current == Some(current@),
        estimate@.started_at == estimate.started_at@,
        estimate@.ended_at == estimate.ended_at@,
        estimate@.used_percent_start == estimate.used_percent_start,
        estimate@.used_percent_end == estimate.used_percent_end,
        estimate@.observed_cost_usd == estimate.observed_cost_usd,
        estimate@.estimated_weekly_cost_usd == estimate.estimated_weekly_cost_usd,
        estimate@.samples == estimate.sample_count,
        estimate@.status == estimate.status,
{
}

/// The episodes that were found have the times of their first and latest samples.
pub proof fn law_episodes_have_the_times_of_their_samples(
    observations: Seq<CodexWeeklyRateLimitObservation>,
    trace: QuotaTrace,
    k: int,
)
    requires
        trace.is_dated(observations),
    ensures
        0 <= k < trace.completed@.len() ==> {
            let episode = trace.completed@[k];
            &&& episode.start < observations.len()
            &&& episode.end < observations.len()
            &&& episode.start_millis == observations[episode.start as int].timestamp_millis->0
            &&& episode.end_millis == observations[episode.end as int].timestamp_millis->0
        },
        trace.current matches Some(episode) ==> {
            &&& episode.start < observations.len()
            &&& episode.end < observations.len()
            &&& episode.start_millis == observations[episode.start as int].timestamp_millis->0
            &&& episode.end_millis == observations[episode.end as int].timestamp_millis->0
        },
{
}

} // verus!
