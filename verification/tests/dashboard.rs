use handy::stats::{
    calculate_daily_streak, dashboard_stats_from_totals, record_dashboard_dictation,
    timestamp_day, DashboardRates, DashboardTotals, SECONDS_PER_DAY,
};
use std::collections::BTreeSet;

/// The duration-derived figures, computed the way the application computes them.
fn rates(total_words: u64, total_duration_seconds: f64) -> DashboardRates {
    let average_words_per_minute = if total_words > 0 && total_duration_seconds > 0.0 {
        ((total_words as f64 / total_duration_seconds) * 60.0).round() as u32
    } else {
        0
    };
    let estimated_typing_minutes = total_words as f64 / 40.0;
    let dictation_minutes = total_duration_seconds / 60.0;
    DashboardRates {
        average_words_per_minute,
        estimated_time_saved_minutes: (estimated_typing_minutes - dictation_minutes)
            .max(0.0)
            .round() as u32,
        total_dictation_minutes: dictation_minutes.round() as u32,
    }
}

#[test]
fn dashboard_stats_recording_initializes_empty_stats_row() {
    let mut totals = DashboardTotals::default();
    let mut days = BTreeSet::new();
    assert!(record_dashboard_dictation(&mut totals, &mut days, 100, "one two"));

    assert_eq!(
        (
            totals.total_words,
            totals.dictation_count,
            totals.first_timestamp,
            totals.last_timestamp
        ),
        (2, 1, Some(100), Some(100))
    );
    assert_eq!(days.into_iter().collect::<Vec<_>>(), vec![0]);
}

#[test]
fn dashboard_recording_skips_texts_without_words() {
    let mut totals = DashboardTotals::default();
    let mut days = BTreeSet::new();
    assert!(!record_dashboard_dictation(&mut totals, &mut days, 100, "  ... -- "));
    assert_eq!(totals.dictation_count, 0);
    assert_eq!(totals.first_timestamp, None);
    assert!(days.is_empty());
}

#[test]
fn dashboard_recording_tracks_first_and_last_timestamps() {
    let mut totals = DashboardTotals::default();
    let mut days = BTreeSet::new();
    record_dashboard_dictation(&mut totals, &mut days, 5_000, "b");
    record_dashboard_dictation(&mut totals, &mut days, 1_000, "a c");
    record_dashboard_dictation(&mut totals, &mut days, 200_000, "d");
    assert_eq!(totals.total_words, 4);
    assert_eq!(totals.dictation_count, 3);
    assert_eq!(totals.first_timestamp, Some(1_000));
    assert_eq!(totals.last_timestamp, Some(200_000));
    assert_eq!(days.into_iter().collect::<Vec<_>>(), vec![0, 2]);
}

#[test]
fn dashboard_stats_calculates_words_and_streak_from_recordings() {
    let now = SECONDS_PER_DAY * 10;
    let mut totals = DashboardTotals::default();
    let mut days = BTreeSet::new();
    record_dashboard_dictation(
        &mut totals,
        &mut days,
        now - SECONDS_PER_DAY,
        "one two three four five six seven eight",
    );
    record_dashboard_dictation(&mut totals, &mut days, now, "nine ten eleven twelve");

    let stats = dashboard_stats_from_totals(totals, &days, now, rates(12, 12.0));

    assert_eq!(stats.total_words, 12);
    assert_eq!(stats.dictation_count, 2);
    assert_eq!(stats.average_words_per_minute, 60);
    assert_eq!(stats.estimated_time_saved_minutes, 0);
    assert_eq!(stats.total_dictation_minutes, 0);
    assert_eq!(stats.daily_streak, 2);
    assert_eq!(stats.last_dictation_timestamp, Some(now));
}

#[test]
fn dashboard_stats_streak_expires_after_missing_yesterday() {
    let now = SECONDS_PER_DAY * 10;
    let mut totals = DashboardTotals::default();
    let mut days = BTreeSet::new();
    record_dashboard_dictation(&mut totals, &mut days, now - (SECONDS_PER_DAY * 2), "old words");

    let stats = dashboard_stats_from_totals(totals, &days, now, rates(2, 3.0));

    assert_eq!(stats.daily_streak, 0);
}

#[test]
fn dashboard_stats_from_totals_does_not_depend_on_retained_history_entries() {
    let now = SECONDS_PER_DAY * 10;
    let mut active_days = BTreeSet::new();
    active_days.insert(timestamp_day(now));
    let totals = DashboardTotals {
        total_words: 500,
        dictation_count: 5,
        first_timestamp: Some(now),
        last_timestamp: Some(now),
    };

    let stats = dashboard_stats_from_totals(totals, &active_days, now, rates(500, 250.0));

    assert_eq!(stats.total_words, 500);
    assert_eq!(stats.average_words_per_minute, 120);
    assert_eq!(stats.dictation_count, 5);
    assert_eq!(stats.daily_streak, 1);
}

#[test]
fn timestamp_day_rounds_towards_minus_infinity() {
    assert_eq!(timestamp_day(0), 0);
    assert_eq!(timestamp_day(SECONDS_PER_DAY - 1), 0);
    assert_eq!(timestamp_day(SECONDS_PER_DAY), 1);
    assert_eq!(timestamp_day(-1), -1);
    assert_eq!(timestamp_day(-SECONDS_PER_DAY), -1);
    assert_eq!(timestamp_day(-SECONDS_PER_DAY - 1), -2);
    assert_eq!(timestamp_day(i64::MIN), i64::MIN.div_euclid(SECONDS_PER_DAY));
}

#[test]
fn daily_streak_counts_consecutive_days_ending_today_or_yesterday() {
    let days: BTreeSet<i64> = [3, 5, 6, 7].into_iter().collect();
    assert_eq!(calculate_daily_streak(&days, 7 * SECONDS_PER_DAY + 10), 3);
    assert_eq!(calculate_daily_streak(&days, 8 * SECONDS_PER_DAY), 3);
    assert_eq!(calculate_daily_streak(&days, 9 * SECONDS_PER_DAY), 0);
    assert_eq!(calculate_daily_streak(&BTreeSet::new(), 0), 0);
    let single: BTreeSet<i64> = [-1].into_iter().collect();
    assert_eq!(calculate_daily_streak(&single, -1), 1);
}

#[test]
fn totals_read_from_storage_clamp_negative_counts() {
    let t = DashboardTotals::from_stored(-5, 7, None, Some(3));
    assert_eq!(t.total_words, 0);
    assert_eq!(t.dictation_count, 7);
    assert_eq!(t.first_timestamp, None);
    assert_eq!(t.last_timestamp, Some(3));
}
