//! Dashboard statistics: running dictation totals, active days and the daily
//! streak.

use vstd::prelude::*;
use std::collections::BTreeSet;
use vstd::std_specs::iter::IteratorSpec;
use crate::text::{count_transcript_words, transcript_word_count};

verus! {

broadcast use {vstd::std_specs::btree::group_btree_axioms, vstd::laws_cmp::group_laws_cmp};

/// Length of a day in seconds.
pub const SECONDS_PER_DAY: i64 = 86_400;

/// The day number of a UNIX timestamp (days since the epoch, rounding down).
pub open spec fn day_of(timestamp: int) -> int {
    timestamp / (SECONDS_PER_DAY as int)
}

/// The day (counted from the UNIX epoch, rounding towards minus infinity) in
/// which `timestamp` falls.
pub fn timestamp_day(timestamp: i64) -> (day: i64)
    ensures
        day == day_of(timestamp as int),
        day * SECONDS_PER_DAY <= timestamp < (day + 1) * SECONDS_PER_DAY,
{
    match timestamp.checked_div_euclid(SECONDS_PER_DAY) {
        Some(d) => d,
        None => {
            assert(i64::MIN <= timestamp / 86_400 <= i64::MAX);
            0
        },
    }
}

/// `d` is the greatest element of `days`.
pub open spec fn is_latest_day(days: Set<i64>, d: i64) -> bool {
    days.contains(d) && forall|x: i64| #[trigger] days.contains(x) ==> x <= d
}

/// The greatest element of `days` (meaningful when `days` is finite and non-empty).
pub open spec fn latest_day(days: Set<i64>) -> i64 {
    choose|d: i64| is_latest_day(days, d)
}

/// The `n` days ending with `last` are all in `days`, and the day before them is not.
pub open spec fn run_ends_after(days: Set<i64>, last: int, n: int) -> bool {
    &&& forall|d: i64| last - n < d <= last ==> #[trigger] days.contains(d)
    &&& last - n >= i64::MIN
    &&& !days.contains((last - n) as i64)
}

/// Whether the daily streak counts the run of days that ends with `latest`:
/// the latest active day is today or yesterday.
pub open spec fn streak_alive(latest: int, now: int) -> bool {
    day_of(now) - latest <= 1
}

/// The daily streak: the number of consecutive active days ending with the
/// latest one, or 0 when there is no active day or the latest is before
/// yesterday.
pub open spec fn daily_streak(days: Set<i64>, now: int) -> int {
    if days.is_empty() || !streak_alive(latest_day(days) as int, now) {
        0
    } else {
        choose|n: int| n >= 0 && run_ends_after(days, latest_day(days) as int, n)
    }
}

/// The streak can be counted without overflow: the run of active days ending
/// with the latest one is at most `u32::MAX` long and stops above `i64::MIN`.
pub open spec fn streak_countable(days: Set<i64>, now: int) -> bool {
    !days.is_empty() && streak_alive(latest_day(days) as int, now) ==> exists|n: int|
        1 <= n <= u32::MAX && #[trigger] run_ends_after(days, latest_day(days) as int, n)
}

proof fn lemma_latest_exists(s: Set<i64>)
    requires
        s.finite(),
        s.len() > 0,
    ensures
        is_latest_day(s, latest_day(s)),
    decreases s.len(),
{
    let x = s.choose();
    let rest = s.remove(x);
    if rest.len() == 0 {
        assert forall|y: i64| #[trigger] s.contains(y) implies y <= x by {
            if y != x {
                assert(rest.contains(y));
            }
        }
        assert(is_latest_day(s, x));
    } else {
        lemma_latest_exists(rest);
        let m = latest_day(rest);
        let best = if m >= x {
            m
        } else {
            x
        };
        assert forall|y: i64| #[trigger] s.contains(y) implies y <= best by {
            if y != x {
                assert(rest.contains(y));
            }
        }
        assert(is_latest_day(s, best));
    }
}

proof fn lemma_run_unique(days: Set<i64>, last: int, n: int, m: int)
    requires
        i64::MIN <= last <= i64::MAX,
        n >= 0,
        m >= 0,
        run_ends_after(days, last, n),
        run_ends_after(days, last, m),
    ensures
        n == m,
{
    if n < m {
        let d = (last - n) as i64;
        assert(last - m < d <= last);
        assert(days.contains(d));
    } else if m < n {
        let d = (last - m) as i64;
        assert(last - n < d <= last);
        assert(days.contains(d));
    }
}

proof fn lemma_first_gap(days: Set<i64>, last: int, n: int, g: int)
    requires
        i64::MIN <= last <= i64::MAX,
        1 <= n <= g,
        last - g >= i64::MIN,
        !days.contains((last - g) as i64),
        forall|d: i64| last - n < d <= last ==> #[trigger] days.contains(d),
    ensures
        exists|m: int| n <= m <= g && #[trigger] run_ends_after(days, last, m),
    decreases g - n,
{
    if !days.contains((last - n) as i64) {
        assert(run_ends_after(days, last, n));
    } else {
        assert forall|d: i64| last - (n + 1) < d <= last implies #[trigger] days.contains(d) by {
            if d == last - n {
                assert(d == (last - n) as i64);
            }
        }
        lemma_first_gap(days, last, n + 1, g);
        let m = choose|m: int| n + 1 <= m <= g && #[trigger] run_ends_after(days, last, m);
        assert(run_ends_after(days, last, m));
    }
}

/// A finite set of at most `u32::MAX` days that does not hold the very first
/// representable day always has a countable streak, whatever the time.
pub proof fn lemma_streak_countable(days: Set<i64>, now: int)
    requires
        days.finite(),
        days.len() <= u32::MAX,
        !days.contains(i64::MIN),
    ensures
        streak_countable(days, now),
{
    if !days.is_empty() && streak_alive(latest_day(days) as int, now) {
        assert(days.len() > 0) by {
            let x = days.choose();
            assert(days.contains(x));
        }
        lemma_latest_exists(days);
        let last = latest_day(days) as int;
        let big_n = days.len() as int;
        let g: int;
        if exists|k: int| 1 <= k <= big_n && #[trigger] gap_at(days, last, k) {
            g = choose|k: int| 1 <= k <= big_n && #[trigger] gap_at(days, last, k);
        } else {
            if last - big_n >= i64::MIN {
                let r = set_int_range_i64(last - big_n, last + 1);
                assert forall|d: i64| r.contains(d) implies days.contains(d) by {
                    let k = last - d;
                    if k > 0 {
                        assert(d == (last - k) as i64);
                        assert(!gap_at(days, last, k));
                    }
                }
                lemma_set_int_range_i64_len(last - big_n, last + 1);
                vstd::set_lib::lemma_len_subset(r, days);
                assert(false);
            } else {
                let k = last - i64::MIN;
                if k == 0 {
                    assert(days.contains(i64::MIN));
                } else {
                    assert(!gap_at(days, last, k));
                    assert(((last - k) as i64) == i64::MIN);
                }
                assert(false);
            }
            g = 0;
        }
        assert forall|d: i64| last - 1 < d <= last implies #[trigger] days.contains(d) by {
            assert(d == last);
        }
        lemma_first_gap(days, last, 1, g);
        let m = choose|m: int| 1 <= m <= g && #[trigger] run_ends_after(days, last, m);
        assert(1 <= m <= u32::MAX && run_ends_after(days, last, m));
    }
}

/// The day `k` days before `last` is representable and not active.
pub open spec fn gap_at(days: Set<i64>, last: int, k: int) -> bool {
    last - k >= i64::MIN && !days.contains((last - k) as i64)
}

/// The days from `lo` up to, but not including, `hi`.
pub open spec fn set_int_range_i64(lo: int, hi: int) -> Set<i64> {
    Set::new(|d: i64| lo <= d < hi)
}

proof fn lemma_set_int_range_i64_len(lo: int, hi: int)
    requires
        i64::MIN <= lo <= hi,
        hi <= i64::MAX + 1,
    ensures
        set_int_range_i64(lo, hi).finite(),
        set_int_range_i64(lo, hi).len() == hi - lo,
    decreases hi - lo,
{
    if lo == hi {
        assert(set_int_range_i64(lo, hi) =~= Set::empty());
    } else {
        lemma_set_int_range_i64_len(lo, hi - 1);
        assert(set_int_range_i64(lo, hi - 1).insert((hi - 1) as i64) =~= set_int_range_i64(lo, hi));
    }
}

/// The number of consecutive days, ending with the most recent active day, on
/// which there was a dictation; 0 when the most recent active day is neither
/// today nor yesterday.
pub fn calculate_daily_streak(days: &BTreeSet<i64>, now_timestamp: i64) -> (streak: u32)
    requires
        streak_countable(days@, now_timestamp as int),
    ensures
        streak == daily_streak(days@, now_timestamp as int),
{
    if days.is_empty() {
        return 0;
    }
    let today = timestamp_day(now_timestamp);
    let mut latest: i64 = 0;
    let mut seen = false;
    for d in it: days.iter()
        invariant
            it.seq() == vstd::std_specs::btree::spec_btree_keys_iter(days).remaining(),
            seen == (it.index() > 0),
            seen ==> it.seq().take(it.index()).contains(&latest),
            forall|i: int| 0 <= i < it.index() ==> *#[trigger] it.seq()[i] <= latest,
    {
        if !seen || *d > latest {
            latest = *d;
        }
        seen = true;
        proof {
            assert(it.seq().take(it.index() + 1)[it.index() as int] == d);
            assert forall|x: &i64|
                it.seq().take(it.index()).contains(x) implies it.seq().take(
                it.index() + 1,
            ).contains(x) by {
                let k = choose|k: int|
                    0 <= k < it.index() && it.seq().take(it.index())[k] == x;
                assert(it.seq().take(it.index() + 1)[k] == x);
            }
        }
    }
    let ghost sq = vstd::std_specs::btree::spec_btree_keys_iter(days).remaining();
    proof {
        assert(sq.unref().to_set() == days@);
        assert(sq.take(sq.len() as int) =~= sq);
        let k = choose|k: int| 0 <= k < sq.len() && sq[k] == &latest;
        assert(sq.unref()[k] == latest);
        assert(days@.contains(latest));
        assert forall|x: i64| #[trigger] days@.contains(x) implies x <= latest by {
            assert(sq.unref().to_set().contains(x));
            let j = choose|j: int| 0 <= j < sq.unref().len() && sq.unref()[j] == x;
            assert(*sq[j] <= latest);
        }
        assert(is_latest_day(days@, latest));
        assert(is_latest_day(days@, latest_day(days@)));
        assert(latest_day(days@) == latest);
    }
    if (today as i128) - (latest as i128) > 1 {
        return 0;
    }
    let ghost g = choose|n: int| 1 <= n <= u32::MAX && #[trigger] run_ends_after(days@, latest as int, n);
    let mut streak: u32 = 0;
    let mut day: i64 = latest;
    while days.contains(&day)
        invariant
            1 <= g <= u32::MAX,
            run_ends_after(days@, latest as int, g),
            0 <= streak <= g,
            day == latest - streak,
            forall|d: i64| latest - streak < d <= latest ==> #[trigger] days@.contains(d),
        decreases g - streak,
    {
        assert(streak < g) by {
            if streak == g {
                assert(!days@.contains((latest - g) as i64));
            }
        }
        streak = streak + 1;
        day = day - 1;
    }
    proof {
        assert(run_ends_after(days@, latest as int, streak as int));
        let n = choose|n: int| n >= 0 && run_ends_after(days@, latest as int, n);
        lemma_run_unique(days@, latest as int, n, streak as int);
    }
    streak
}


/// The figures shown on the dashboard.
#[derive(Clone, Debug, Default)]
pub struct DashboardStats {
    pub daily_streak: u32,
    pub total_words: u64,
    pub average_words_per_minute: u32,
    pub estimated_time_saved_minutes: u32,
    pub dictation_count: u64,
    pub total_dictation_minutes: u32,
    pub last_dictation_timestamp: Option<i64>,
}

/// Running totals over every recorded dictation. They are kept apart from the
/// history entries, so that deleting entries does not change them. The total
/// recorded duration, a floating-point figure, is kept beside them by the caller.
#[derive(Clone, Debug, Default)]
pub struct DashboardTotals {
    pub total_words: u64,
    pub dictation_count: u64,
    pub first_timestamp: Option<i64>,
    pub last_timestamp: Option<i64>,
}

/// The dashboard figures that derive from the recorded duration: words per
/// minute, minutes saved against typing, and minutes dictated.
#[derive(Clone, Copy, Debug, Default)]
pub struct DashboardRates {
    pub average_words_per_minute: u32,
    pub estimated_time_saved_minutes: u32,
    pub total_dictation_minutes: u32,
}

impl DashboardTotals {
    /// The first and the last timestamp are both present or both absent, in order.
    pub open spec fn well_formed(&self) -> bool {
        &&& self.first_timestamp.is_some() == self.last_timestamp.is_some()
        &&& self.first_timestamp.is_some() ==> self.first_timestamp.unwrap()
            <= self.last_timestamp.unwrap()
    }

    /// Totals read back from storage, where counts are signed: a negative
    /// count reads as 0.
    pub fn from_stored(
        total_words: i64,
        dictation_count: i64,
        first_timestamp: Option<i64>,
        last_timestamp: Option<i64>,
    ) -> (t: DashboardTotals)
        ensures
            t.total_words == (if total_words < 0 {
                0
            } else {
                total_words as int
            }),
            t.dictation_count == (if dictation_count < 0 {
                0
            } else {
                dictation_count as int
            }),
            t.first_timestamp == first_timestamp,
            t.last_timestamp == last_timestamp,
    {
        DashboardTotals {
            total_words: if total_words < 0 {
                0
            } else {
                total_words as u64
            },
            dictation_count: if dictation_count < 0 {
                0
            } else {
                dictation_count as u64
            },
            first_timestamp,
            last_timestamp,
        }
    }
}

pub open spec fn min_timestamp(a: Option<i64>, t: i64) -> i64 {
    match a {
        Some(x) => if x <= t {
            x
        } else {
            t
        },
        None => t,
    }
}

pub open spec fn max_timestamp(a: Option<i64>, t: i64) -> i64 {
    match a {
        Some(x) => if x >= t {
            x
        } else {
            t
        },
        None => t,
    }
}

/// The first timestamp kept after recording one more dictation is the earliest
/// of those seen, and the last one the latest: both are one of the times seen,
/// the first at most every one of them and the last at least every one.
pub proof fn law_recorded_timestamps_span_all_dictations(seen: Option<i64>, t: i64)
    ensures
        min_timestamp(seen, t) <= t,
        seen matches Some(x) ==> min_timestamp(seen, t) <= x,
        min_timestamp(seen, t) == t || seen == Some(min_timestamp(seen, t)),
        max_timestamp(seen, t) >= t,
        seen matches Some(x) ==> max_timestamp(seen, t) >= x,
        max_timestamp(seen, t) == t || seen == Some(max_timestamp(seen, t)),
{
}

/// Records one dictation, made at `timestamp` with text `text`, in the running
/// totals and the set of active days. A text without any word counts for
/// nothing and changes nothing. Returns whether the dictation was recorded.
pub fn record_dashboard_dictation(
    totals: &mut DashboardTotals,
    days: &mut BTreeSet<i64>,
    timestamp: i64,
    text: &str,
) -> (recorded: bool)
    requires
        old(totals).total_words + transcript_word_count(text@) <= u64::MAX,
        old(totals).dictation_count < u64::MAX,
    ensures
        recorded == (transcript_word_count(text@) > 0),
        !recorded ==> *final(totals) == *old(totals) && final(days)@ == old(days)@,
        recorded ==> {
            &&& final(totals).total_words == old(totals).total_words + transcript_word_count(
                text@,
            )
            &&& final(totals).dictation_count == old(totals).dictation_count + 1
            &&& final(totals).first_timestamp == Some(
                min_timestamp(old(totals).first_timestamp, timestamp),
            )
            &&& final(totals).last_timestamp == Some(
                max_timestamp(old(totals).last_timestamp, timestamp),
            )
            &&& final(days)@ == old(days)@.insert(day_of(timestamp as int) as i64)
        },
        old(totals).well_formed() ==> final(totals).well_formed(),
        recorded ==> (final(totals).first_timestamp matches Some(f) && f <= timestamp && (old(
            totals,
        ).first_timestamp matches Some(x) ==> f <= x) && (f == timestamp
            || old(totals).first_timestamp == Some(f))),
        recorded ==> (final(totals).last_timestamp matches Some(l) && l >= timestamp && (old(
            totals,
        ).last_timestamp matches Some(x) ==> l >= x) && (l == timestamp
            || old(totals).last_timestamp == Some(l))),
{
    let word_count = count_transcript_words(text);
    if word_count == 0 {
        return false;
    }
    totals.total_words = totals.total_words + word_count;
    totals.dictation_count = totals.dictation_count + 1;
    totals.first_timestamp = match totals.first_timestamp {
        Some(first) => Some(
            if first <= timestamp {
                first
            } else {
                timestamp
            },
        ),
        None => Some(timestamp),
    };
    totals.last_timestamp = match totals.last_timestamp {
        Some(last) => Some(
            if last >= timestamp {
                last
            } else {
                timestamp
            },
        ),
        None => Some(timestamp),
    };
    days.insert(timestamp_day(timestamp));
    true
}

/// The dashboard figures for the running totals `totals`, the active days
/// `active_days` and the current time `now_timestamp`; the figures that come
/// from the recorded duration are `rates`.
pub fn dashboard_stats_from_totals(
    totals: DashboardTotals,
    active_days: &BTreeSet<i64>,
    now_timestamp: i64,
    rates: DashboardRates,
) -> (stats: DashboardStats)
    requires
        streak_countable(active_days@, now_timestamp as int),
    ensures
        stats.daily_streak == daily_streak(active_days@, now_timestamp as int),
        stats.total_words == totals.total_words,
        stats.average_words_per_minute == rates.average_words_per_minute,
        stats.estimated_time_saved_minutes == rates.estimated_time_saved_minutes,
        stats.dictation_count == totals.dictation_count,
        stats.total_dictation_minutes == rates.total_dictation_minutes,
        stats.last_dictation_timestamp == totals.last_timestamp,
{
    DashboardStats {
        daily_streak: calculate_daily_streak(active_days, now_timestamp),
        total_words: totals.total_words,
        average_words_per_minute: rates.average_words_per_minute,
        estimated_time_saved_minutes: rates.estimated_time_saved_minutes,
        dictation_count: totals.dictation_count,
        total_dictation_minutes: rates.total_dictation_minutes,
        last_dictation_timestamp: totals.last_timestamp,
    }
}

/// A dictation recorded today keeps the daily streak alive: once the day of
/// `timestamp` is among the active days, the streak counted at `timestamp` is
/// at least one day long.
pub proof fn law_recording_today_starts_streak(days: Set<i64>, timestamp: i64)
    requires
        days.finite(),
        streak_countable(days.insert(day_of(timestamp as int) as i64), timestamp as int),
    ensures
        daily_streak(days.insert(day_of(timestamp as int) as i64), timestamp as int) >= 1,
{
    let t = day_of(timestamp as int) as i64;
    let all = days.insert(t);
    assert(all.len() > 0) by {
        assert(all.contains(t));
    }
    lemma_latest_exists(all);
    let latest = latest_day(all);
    assert(all.contains(t));
    assert(is_latest_day(all, latest));
    assert(t <= latest);
    assert(day_of(timestamp as int) == t as int);
    let g = choose|n: int| 1 <= n <= u32::MAX && #[trigger] run_ends_after(all, latest as int, n);
    let n = choose|n: int| n >= 0 && run_ends_after(all, latest as int, n);
    lemma_run_unique(all, latest as int, n, g);
}

} // verus!
