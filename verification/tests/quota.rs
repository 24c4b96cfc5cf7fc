use ccusage_adapters::double::Double;
use ccusage_adapters::quota::{
    costs_after_anchor, estimate_episode, estimate_weekly_quota_costs_from_timeline,
    trace_quota_episodes, CodexDailyUsageWithQuotaEstimates, CodexWeeklyQuotaEstimate,
    CodexWeeklyQuotaEstimateStatus, EpisodeMeasure, QuotaEpisode, QuotaEpisodeContinuity,
};
use ccusage_adapters::timeline::{
    recent_timeline, recent_window_start_millis, CodexWeeklyRateLimitObservation, UsedPercent,
};
use std::collections::BTreeMap;

fn double(value: f64) -> Double {
    Double {
        bits: value.to_bits(),
    }
}

fn number(value: Double) -> f64 {
    f64::from_bits(value.bits)
}

fn days_before_year(year: i64) -> i64 {
    let y = year - 1;
    365 * y + y / 4 - y / 100 + y / 400
}

fn parse_ts_timestamp(text: &str) -> Option<i64> {
    let text = text.strip_suffix('Z')?;
    let (date, time) = text.split_once('T')?;
    let mut date = date.split('-').map(|part| part.parse::<i64>().ok());
    let (year, month, day) = (date.next()??, date.next()??, date.next()??);
    let (clock, fraction) = match time.split_once('.') {
        Some((clock, fraction)) => (clock, fraction.parse::<i64>().ok()?),
        None => (time, 0),
    };
    let mut clock = clock.split(':').map(|part| part.parse::<i64>().ok());
    let (hour, minute, second) = (clock.next()??, clock.next()??, clock.next()??);
    let leap = (year % 4 == 0 && year % 100 != 0) || year % 400 == 0;
    let lengths = [31, if leap { 29 } else { 28 }, 31, 30, 31, 30, 31, 31, 30, 31, 30, 31];
    let mut days = days_before_year(year) - days_before_year(1970) + day - 1;
    for length in &lengths[..(month - 1) as usize] {
        days += length;
    }
    Some((((days * 24 + hour) * 60 + minute) * 60 + second) * 1000 + fraction)
}

fn estimate_weekly_quota_costs(
    costs: &BTreeMap<i64, f64>,
    observations: &[CodexWeeklyRateLimitObservation],
    now_millis: i64,
) -> Vec<CodexWeeklyQuotaEstimate> {
    let cost_times: Vec<i64> = costs.keys().copied().collect();
    let cost_values: Vec<f64> = costs.values().copied().collect();
    let observations = observations.to_vec();
    estimate_weekly_quota_costs_from_timeline(
        &cost_times,
        &observations,
        now_millis,
        |episode: QuotaEpisode, positions: Vec<usize>| {
            let span = number(observations[episode.end].used_percent.percent)
                - number(observations[episode.start].used_percent.percent);
            let cost = positions.iter().map(|p| cost_values[*p]).sum::<f64>();
            EpisodeMeasure {
                used_percent_span: double(span),
                observed_cost_usd: double(cost),
                estimated_weekly_cost_usd: double(cost * 100.0 / span),
            }
        },
    )
}

fn costs(entries: &[(&str, f64)]) -> BTreeMap<i64, f64> {
    entries
        .iter()
        .map(|(timestamp, cost)| (parse_ts_timestamp(timestamp).unwrap(), *cost))
        .collect()
}

fn observation(
    timestamp: &str,
    used_percent: f64,
    resets_at: i64,
) -> CodexWeeklyRateLimitObservation {
    CodexWeeklyRateLimitObservation {
        timestamp: timestamp.to_string(),
        timestamp_millis: parse_ts_timestamp(timestamp),
        used_percent: UsedPercent {
            percent: double(used_percent),
            plus_half: double(used_percent + 0.5),
        },
        resets_at,
    }
}

fn at(millis: i64, used_percent: f64, resets_at: i64) -> CodexWeeklyRateLimitObservation {
    CodexWeeklyRateLimitObservation {
        timestamp_millis: Some(millis),
        ..observation("sample", used_percent, resets_at)
    }
}

#[test]
fn estimates_a_completed_week_from_priced_requests_after_the_anchor() {
    let costs = costs(&[
        ("2026-08-01T00:00:00Z", 1.0),
        ("2026-08-02T00:00:00Z", 1.0),
        ("2026-08-03T00:00:00Z", 1.0),
    ]);
    let observations = [
        observation("2026-08-01T00:00:00Z", 25.0, 1_786_051_200),
        observation("2026-08-02T00:00:00Z", 50.0, 1_786_051_200),
        observation("2026-08-03T00:00:00Z", 75.0, 1_786_051_200),
        observation("2026-08-04T00:00:00Z", 0.0, 1_786_656_000),
    ];

    let estimates =
        estimate_weekly_quota_costs(&costs, &observations, 1_786_406_400_000);

    assert_eq!(estimates.len(), 1);
    let estimate = &estimates[0];
    assert_eq!(estimate.started_at, "2026-08-01T00:00:00Z");
    assert_eq!(estimate.ended_at, "2026-08-03T00:00:00Z");
    assert_eq!(number(estimate.used_percent_start), 25.0);
    assert_eq!(number(estimate.used_percent_end), 75.0);
    assert!((number(estimate.observed_cost_usd) - 2.0).abs() < f64::EPSILON);
    assert!((number(estimate.estimated_weekly_cost_usd) - 4.0).abs() < f64::EPSILON);
    assert_eq!(estimate.sample_count, 3);
    assert_eq!(estimate.status, CodexWeeklyQuotaEstimateStatus::Completed);
}

#[test]
fn ignores_same_horizon_percentage_regressions() {
    let costs = costs(&[
        ("2026-08-01T00:00:00Z", 1.0),
        ("2026-08-01T12:00:00Z", 1.0),
        ("2026-08-02T00:00:00Z", 1.0),
    ]);
    let observations = [
        observation("2026-08-01T00:00:00Z", 20.0, 1_786_051_200),
        observation("2026-08-01T12:00:00Z", 19.0, 1_786_051_200),
        observation("2026-08-02T00:00:00Z", 50.0, 1_786_051_201),
    ];

    let estimates = estimate_weekly_quota_costs(
        &costs,
        &observations,
        parse_ts_timestamp("2026-08-03T00:00:00Z").unwrap(),
    );

    assert_eq!(estimates.len(), 1);
    assert_eq!(number(estimates[0].used_percent_start), 20.0);
    assert_eq!(number(estimates[0].used_percent_end), 50.0);
    assert!((number(estimates[0].observed_cost_usd) - 2.0).abs() < f64::EPSILON);
    assert_eq!(estimates[0].sample_count, 2);
    assert_eq!(
        estimates[0].status,
        CodexWeeklyQuotaEstimateStatus::Provisional
    );
}

#[test]
fn freezes_an_episode_when_a_stale_rate_limit_snapshot_recovers() {
    let costs = costs(&[
        ("2026-09-08T01:31:42.408Z", 1.0),
        ("2026-09-09T16:41:17.572Z", 2.0),
        ("2026-09-09T16:41:39.755Z", 3.0),
        ("2026-09-09T17:41:32.956Z", 5.0),
        ("2026-09-09T17:49:50.490Z", 7.0),
    ]);
    let observations = [
        observation("2026-09-08T01:29:22.343Z", 71.0, 1_789_272_004),
        observation("2026-09-08T01:31:42.408Z", 0.0, 1_789_435_768),
        observation("2026-09-09T16:41:17.572Z", 63.0, 1_789_435_784),
        observation("2026-09-09T16:41:39.755Z", 71.0, 1_789_272_004),
        observation("2026-09-09T17:41:32.956Z", 63.0, 1_789_435_784),
        observation("2026-09-09T17:49:50.490Z", 63.0, 1_789_435_784),
    ];

    let estimates = estimate_weekly_quota_costs(
        &costs,
        &observations,
        parse_ts_timestamp("2026-09-09T18:00:00Z").unwrap(),
    );

    assert_eq!(estimates.len(), 1);
    let estimate = &estimates[0];
    assert_eq!(estimate.started_at, "2026-09-08T01:31:42.408Z");
    assert_eq!(estimate.ended_at, "2026-09-09T16:41:17.572Z");
    assert_eq!(number(estimate.used_percent_start), 0.0);
    assert_eq!(number(estimate.used_percent_end), 63.0);
    assert!((number(estimate.observed_cost_usd) - 2.0).abs() < f64::EPSILON);
    assert_eq!(estimate.sample_count, 2);
    assert_eq!(estimate.status, CodexWeeklyQuotaEstimateStatus::Provisional);
}

#[test]
fn starts_a_new_episode_after_a_frozen_episode_reaches_a_real_reset() {
    let costs = costs(&[
        ("2026-09-08T01:31:42.408Z", 1.0),
        ("2026-09-09T16:41:17.572Z", 2.0),
        ("2026-09-09T16:41:39.755Z", 3.0),
        ("2026-09-09T17:41:32.956Z", 5.0),
        ("2026-09-15T01:30:00Z", 7.0),
        ("2026-09-16T01:30:00Z", 11.0),
    ]);
    let observations = [
        observation("2026-09-08T01:29:22.343Z", 71.0, 1_789_272_004),
        observation("2026-09-08T01:31:42.408Z", 0.0, 1_789_435_768),
        observation("2026-09-09T16:41:17.572Z", 63.0, 1_789_435_784),
        observation("2026-09-09T16:41:39.755Z", 71.0, 1_789_272_004),
        observation("2026-09-09T17:41:32.956Z", 63.0, 1_789_435_784),
        observation("2026-09-15T01:30:00Z", 0.0, 1_790_040_584),
        observation("2026-09-16T01:30:00Z", 25.0, 1_790_040_584),
    ];

    let estimates = estimate_weekly_quota_costs(
        &costs,
        &observations,
        parse_ts_timestamp("2026-09-17T02:00:00Z").unwrap(),
    );

    assert_eq!(estimates.len(), 2);
    assert_eq!(estimates[0].ended_at, "2026-09-09T16:41:17.572Z");
    assert!((number(estimates[0].observed_cost_usd) - 2.0).abs() < f64::EPSILON);
    assert_eq!(
        estimates[0].status,
        CodexWeeklyQuotaEstimateStatus::Completed
    );
    assert_eq!(estimates[1].started_at, "2026-09-15T01:30:00Z");
    assert_eq!(estimates[1].ended_at, "2026-09-16T01:30:00Z");
    assert!((number(estimates[1].observed_cost_usd) - 11.0).abs() < f64::EPSILON);
    assert_eq!(
        estimates[1].status,
        CodexWeeklyQuotaEstimateStatus::Provisional
    );
}

#[test]
fn starts_a_new_episode_when_a_zero_percent_episode_was_frozen() {
    let costs = costs(&[
        ("2026-09-08T01:31:42.408Z", 1.0),
        ("2026-09-09T16:41:39.755Z", 3.0),
        ("2026-09-15T01:30:00Z", 7.0),
        ("2026-09-16T01:30:00Z", 11.0),
    ]);
    let observations = [
        observation("2026-09-08T01:31:42.408Z", 0.0, 1_789_435_768),
        observation("2026-09-09T16:41:39.755Z", 71.0, 1_789_272_004),
        observation("2026-09-09T17:41:32.956Z", 0.0, 1_789_435_768),
        observation("2026-09-15T01:30:00Z", 0.0, 1_790_040_584),
        observation("2026-09-16T01:30:00Z", 25.0, 1_790_040_584),
    ];

    let estimates = estimate_weekly_quota_costs(
        &costs,
        &observations,
        parse_ts_timestamp("2026-09-17T02:00:00Z").unwrap(),
    );

    assert_eq!(estimates.len(), 1);
    assert_eq!(estimates[0].started_at, "2026-09-15T01:30:00Z");
    assert_eq!(estimates[0].ended_at, "2026-09-16T01:30:00Z");
    assert!((number(estimates[0].observed_cost_usd) - 11.0).abs() < f64::EPSILON);
    assert_eq!(
        estimates[0].status,
        CodexWeeklyQuotaEstimateStatus::Provisional
    );
}

#[test]
fn ignores_a_late_previous_episode_sample_during_reset_handoff() {
    let costs = costs(&[
        ("2026-09-12T08:09:51.891Z", 1.0),
        ("2026-09-12T08:10:15.345Z", 2.0),
        ("2026-09-12T17:33:48.720Z", 3.0),
    ]);
    let observations = [
        observation("2026-09-11T08:00:21.647Z", 0.0, 1_789_718_422),
        observation("2026-09-12T08:09:51.891Z", 52.0, 1_789_718_422),
        observation("2026-09-12T08:09:53.151Z", 0.0, 1_789_805_387),
        observation("2026-09-12T08:10:15.345Z", 52.0, 1_789_718_422),
        observation("2026-09-12T17:33:48.720Z", 15.0, 1_789_805_392),
    ];

    let estimates = estimate_weekly_quota_costs(
        &costs,
        &observations,
        parse_ts_timestamp("2026-09-12T17:34:00Z").unwrap(),
    );

    assert_eq!(estimates.len(), 2);
    assert_eq!(estimates[1].started_at, "2026-09-12T08:09:53.151Z");
    assert_eq!(estimates[1].ended_at, "2026-09-12T17:33:48.720Z");
    assert_eq!(number(estimates[1].used_percent_end), 15.0);
    assert_eq!(
        estimates[1].status,
        CodexWeeklyQuotaEstimateStatus::Provisional
    );
}

#[test]
fn publishes_a_new_provisional_episode_once_usage_exceeds_five_percent() {
    let costs = costs(&[("2026-08-03T12:00:00Z", 1.0), ("2026-08-03T18:00:00Z", 1.0)]);
    let observations = [
        observation("2026-08-03T12:00:00Z", 0.0, 1_786_656_000),
        observation("2026-08-03T18:00:00Z", 30.0, 1_786_656_000),
    ];

    let estimates =
        estimate_weekly_quota_costs(&costs, &observations, 1_785_783_600_000);

    assert_eq!(estimates.len(), 1);
    assert!((number(estimates[0].observed_cost_usd) - 1.0).abs() < f64::EPSILON);
    assert_eq!(
        estimates[0].status,
        CodexWeeklyQuotaEstimateStatus::Provisional
    );
}

#[test]
fn requires_more_than_five_observed_percentage_points() {
    let costs = costs(&[("2026-08-03T00:00:00Z", 1.0), ("2026-08-04T00:00:00Z", 1.0)]);
    let five_percent = [
        observation("2026-08-03T00:00:00Z", 0.0, 1_786_656_000),
        observation("2026-08-04T00:00:00Z", 5.0, 1_786_656_000),
    ];
    let six_percent = [
        observation("2026-08-03T00:00:00Z", 0.0, 1_786_656_000),
        observation("2026-08-04T00:00:00Z", 6.0, 1_786_656_000),
    ];
    let now = parse_ts_timestamp("2026-08-05T01:00:00Z").unwrap();

    assert!(estimate_weekly_quota_costs(&costs, &five_percent, now).is_empty());
    assert_eq!(
        estimate_weekly_quota_costs(&costs, &six_percent, now).len(),
        1
    );
}

#[test]
fn ignores_conflicting_observations_at_the_same_timestamp() {
    let costs = costs(&[("2026-08-03T00:00:00Z", 1.0)]);
    let observations = [
        observation("2026-08-03T00:00:00Z", 0.0, 1_786_656_000),
        observation("2026-08-03T00:00:00Z", 11.0, 1_786_656_000),
    ];
    let now = parse_ts_timestamp("2026-08-05T01:00:00Z").unwrap();

    assert!(estimate_weekly_quota_costs(&costs, &observations, now).is_empty());
}

#[test]
fn timestamps_are_read_as_the_tests_expect() {
    assert_eq!(parse_ts_timestamp("1970-01-01T00:00:00Z"), Some(0));
    assert_eq!(parse_ts_timestamp("2026-08-03T19:00:00Z"), Some(1_785_783_600_000));
    assert_eq!(parse_ts_timestamp("2026-08-11T00:00:00.408Z"), Some(1_786_406_400_408));
}

#[test]
fn the_window_reaches_back_ninety_days_and_stops_at_the_earliest_time() {
    assert_eq!(recent_window_start_millis(0), -7_776_000_000);
    assert_eq!(recent_window_start_millis(7_776_000_001), 1);
    assert_eq!(recent_window_start_millis(i64::MIN), i64::MIN);
    assert_eq!(recent_window_start_millis(i64::MIN + 7_776_000_000), i64::MIN);
    assert_eq!(recent_window_start_millis(i64::MIN + 7_776_000_001), i64::MIN + 1);
}

#[test]
fn the_timeline_sorts_and_drops_what_does_not_count() {
    let now = 10_000_000_000;
    let mut unreadable = observation("not a time", 1.0, 0);
    unreadable.timestamp_millis = None;
    let observations = vec![
        at(now, 3.0, 0),
        unreadable,
        at(now - 7_776_000_000, 1.0, 0),
        at(now - 7_776_000_001, 1.0, 0),
        at(now + 1, 1.0, 0),
        at(now - 5, 100.0, 0),
        at(now - 4, 100.1, 0),
        at(now - 3, -0.1, 0),
        at(now - 2, f64::NAN, 0),
        at(now - 1, -0.0, 0),
    ];
    assert_eq!(recent_timeline(&observations, now), vec![2, 5, 9, 0]);
}

#[test]
fn samples_of_one_time_count_once_if_they_agree_and_not_at_all_if_they_do_not() {
    let observations = vec![
        at(5, 0.0, 7),
        at(3, 2.0, 7),
        at(5, -0.0, 7),
        at(3, 2.0, 7),
        at(4, 2.0, 7),
        at(4, 2.0, 8),
        at(4, 2.0, 7),
    ];
    assert_eq!(recent_timeline(&observations, 10), vec![1, 0]);
}

#[test]
fn the_order_of_samples_does_not_matter() {
    let observations = vec![
        at(5, 1.0, 7),
        at(3, 2.0, 7),
        at(4, 2.0, 7),
        at(5, 1.0, 7),
        at(4, 3.0, 7),
    ];
    let mut reversed = observations.clone();
    reversed.reverse();
    let samples = |observations: &Vec<CodexWeeklyRateLimitObservation>| {
        recent_timeline(observations, 10)
            .into_iter()
            .map(|position| observations[position].clone())
            .collect::<Vec<_>>()
    };
    assert_eq!(samples(&observations), samples(&reversed));
    assert_eq!(samples(&observations), vec![at(3, 2.0, 7), at(5, 1.0, 7)]);
}

#[test]
fn samples_that_are_ignored_leave_the_estimates_alone() {
    let costs = BTreeMap::from([(15, 1.0), (25, 2.0), (45, 4.0)]);
    let samples = vec![at(10, 0.0, 10_000), at(20, 10.0, 10_000), at(30, 30.0, 10_000)];
    let mut more = samples.clone();
    more.reverse();
    more.push(at(20, 10.0, 10_000));
    more.push(at(60, 1.0, 90_000));
    more.push(at(22, 100.5, 90_000));
    more.push(at(24, 1.0, 90_000));
    more.push(at(24, 2.0, 90_000));
    let mut unreadable = at(26, 1.0, 90_000);
    unreadable.timestamp_millis = None;
    more.push(unreadable);

    let estimates = estimate_weekly_quota_costs(&costs, &samples, 50);

    assert_eq!(estimates.len(), 1);
    assert_eq!(number(estimates[0].observed_cost_usd), 3.0);
    assert_eq!(estimate_weekly_quota_costs(&costs, &more, 50), estimates);
}

#[test]
fn only_costs_after_the_first_sample_up_to_the_latest_count() {
    let episode = QuotaEpisode {
        start_millis: 10,
        end_millis: 20,
        start: 0,
        end: 1,
        reset_horizon: 0,
        sample_count: 2,
        continuity: QuotaEpisodeContinuity::Tracking,
    };
    assert_eq!(costs_after_anchor(&vec![9, 10, 11, 20, 21], &episode), vec![2, 3]);
    assert!(costs_after_anchor(&vec![], &episode).is_empty());
}

#[test]
fn a_new_episode_holds_its_first_sample() {
    let first = at(11, 4.0, 99);
    let episode = QuotaEpisode::new(11, 3, &first);
    assert_eq!(episode.start_millis, 11);
    assert_eq!(episode.end_millis, 11);
    assert_eq!((episode.start, episode.end), (3, 3));
    assert_eq!(episode.reset_horizon, 99);
    assert_eq!(episode.sample_count, 1);
    assert_eq!(episode.continuity, QuotaEpisodeContinuity::Tracking);
}

#[test]
fn an_estimate_takes_more_than_five_percent_and_some_cost() {
    let observations = vec![observation("from", 1.0, 0), observation("to", 21.0, 0)];
    let mut episode = QuotaEpisode::new(0, 0, &observations[0]);
    episode.end = 1;
    episode.sample_count = 4;
    let measure = |span: f64, cost: f64| EpisodeMeasure {
        used_percent_span: double(span),
        observed_cost_usd: double(cost),
        estimated_weekly_cost_usd: double(cost * 100.0 / span),
    };
    let status = CodexWeeklyQuotaEstimateStatus::Completed;
    assert!(estimate_episode(&observations, &episode, &measure(5.0, 1.0), status).is_none());
    assert!(estimate_episode(&observations, &episode, &measure(-20.0, 1.0), status).is_none());
    assert!(estimate_episode(&observations, &episode, &measure(20.0, 0.0), status).is_none());
    assert!(estimate_episode(&observations, &episode, &measure(20.0, -0.0), status).is_none());
    assert!(estimate_episode(&observations, &episode, &measure(20.0, -1.0), status).is_none());
    assert!(estimate_episode(&observations, &episode, &measure(20.0, f64::NAN), status).is_some());
    let just_above = f64::from_bits(5.0_f64.to_bits() + 1);
    assert!(estimate_episode(&observations, &episode, &measure(just_above, 1.0), status).is_some());
    let estimate = estimate_episode(&observations, &episode, &measure(20.0, 2.0), status).unwrap();
    assert_eq!(
        estimate,
        CodexWeeklyQuotaEstimate {
            started_at: "from".to_string(),
            ended_at: "to".to_string(),
            used_percent_start: double(1.0),
            used_percent_end: double(21.0),
            observed_cost_usd: double(2.0),
            estimated_weekly_cost_usd: double(10.0),
            sample_count: 4,
            status,
        }
    );
}

#[test]
fn episodes_follow_each_other_without_sharing_costs() {
    let observations = vec![
        at(1_000, 0.0, 10_000),
        at(2_000, 50.0, 10_000),
        at(3_000, 0.0, 20_000),
        at(4_000, 40.0, 20_300),
    ];
    let trace = trace_quota_episodes(&observations, 5_000);
    assert_eq!(trace.completed.len(), 1);
    assert_eq!((trace.completed[0].start, trace.completed[0].end), (0, 1));
    let current = trace.current.unwrap();
    assert_eq!((current.start, current.end), (2, 3));
    assert_eq!(current.reset_horizon, 20_300);
    let times = vec![1_000, 1_500, 2_000, 2_500, 3_000, 3_500, 4_000];
    assert_eq!(costs_after_anchor(&times, &trace.completed[0]), vec![1, 2]);
    assert_eq!(costs_after_anchor(&times, &current), vec![5, 6]);
}

#[test]
fn reset_times_within_the_tolerance_are_the_same_reset() {
    let same = vec![at(1_000, 50.0, 10_000), at(2_000, 0.0, 10_300)];
    assert!(trace_quota_episodes(&same, 5_000).completed.is_empty());
    let later = vec![at(1_000, 50.0, 10_000), at(2_000, 0.0, 10_301)];
    assert_eq!(trace_quota_episodes(&later, 5_000).completed.len(), 1);
    let extreme = vec![at(1_000, 50.0, i64::MAX), at(2_000, 0.0, i64::MAX)];
    assert!(trace_quota_episodes(&extreme, 5_000).completed.is_empty());
    let lowest = vec![at(1_000, 50.0, i64::MIN), at(2_000, 60.0, i64::MIN)];
    assert_eq!(trace_quota_episodes(&lowest, 5_000).current.unwrap().sample_count, 2);
}

#[test]
fn a_drop_of_one_half_is_no_drop() {
    let half = vec![at(1_000, 50.0, 10_000), at(2_000, 49.5, 10_000)];
    assert_eq!(trace_quota_episodes(&half, 5_000).current.unwrap().sample_count, 2);
    let more = vec![at(1_000, 50.0, 10_000), at(2_000, 49.4, 10_000)];
    assert_eq!(trace_quota_episodes(&more, 5_000).current.unwrap().sample_count, 1);
}

#[test]
fn the_handoff_lasts_five_minutes_and_until_usage_rises() {
    let early = vec![at(0, 0.0, 10_000), at(300_000, 52.0, 9_000)];
    let episode = trace_quota_episodes(&early, 1_000_000).current.unwrap();
    assert_eq!(episode.continuity, QuotaEpisodeContinuity::Tracking);
    let late = vec![at(0, 0.0, 10_000), at(300_001, 52.0, 9_000)];
    let episode = trace_quota_episodes(&late, 1_000_000).current.unwrap();
    assert_eq!(episode.continuity, QuotaEpisodeContinuity::Frozen);
    let risen = vec![
        at(0, 0.0, 10_000),
        at(1, 1.0, 10_000),
        at(2, 52.0, 9_000),
        at(3, 60.0, 10_000),
    ];
    let episode = trace_quota_episodes(&risen, 1_000_000).current.unwrap();
    assert_eq!(episode.continuity, QuotaEpisodeContinuity::Frozen);
    assert_eq!((episode.end, episode.sample_count), (1, 2));
}

#[test]
fn no_samples_give_no_estimates() {
    assert!(estimate_weekly_quota_costs(&BTreeMap::new(), &[], 0).is_empty());
    let usage: CodexDailyUsageWithQuotaEstimates<u64> = CodexDailyUsageWithQuotaEstimates {
        groups: BTreeMap::new(),
        weekly_rate_limit_samples: 0,
        weekly_quota_estimates: Vec::new(),
    };
    assert!(usage.weekly_quota_estimates.is_empty());
}
