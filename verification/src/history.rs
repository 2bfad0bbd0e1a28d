//! Transcription history: entries, pages of entries, clean-up rules and the
//! titles given to new recordings.

use vstd::prelude::*;
use vstd::string::StringExecFns;
use chrono::{DateTime, FixedOffset, Utc};
use std::fmt::Write;
use std::time::{SystemTime, UNIX_EPOCH};
use crate::text::{ascii_lower, ascii_lower_seq, char_to_ascii_lowercase, chars_of, decimal, digit_char, push_decimal, same_text, trim, trim_text};

verus! {

/// Whether chrono can represent the UNIX timestamp `secs` (in seconds) as a
/// date: its day must fall between January 1 of the year -262143 and December 31
/// of the year 262142, chrono's `NaiveDate::MIN` and `NaiveDate::MAX`.
pub open spec fn chrono_timestamp_in_range(secs: int) -> bool {
    -8_334_601_228_800 <= secs <= 8_210_266_876_799
}

/// Whether `c` is a decimal digit.
pub open spec fn is_digit(c: char) -> bool {
    '0' <= c && c <= '9'
}

/// The English name of month `m` (1 to 12).
pub open spec fn month_name(m: int) -> Seq<char> {
    if m == 1 {
        "January"@
    } else if m == 2 {
        "February"@
    } else if m == 3 {
        "March"@
    } else if m == 4 {
        "April"@
    } else if m == 5 {
        "May"@
    } else if m == 6 {
        "June"@
    } else if m == 7 {
        "July"@
    } else if m == 8 {
        "August"@
    } else if m == 9 {
        "September"@
    } else if m == 10 {
        "October"@
    } else if m == 11 {
        "November"@
    } else {
        "December"@
    }
}

/// `n` (below 100) in two characters: a leading space stands for a tens digit 0.
pub open spec fn space_padded(n: int) -> Seq<char> {
    if n < 10 {
        seq![' ', digit_char(n)]
    } else {
        seq![digit_char(n / 10), digit_char(n % 10)]
    }
}

/// `n` (below 100) in two digits.
pub open spec fn zero_padded(n: int) -> Seq<char> {
    seq![digit_char(n / 10), digit_char(n % 10)]
}

/// A year as chrono's `%Y` writes it: four digits for the years 0 to 9999,
/// otherwise a sign followed by at least four digits.
pub open spec fn is_year_text(y: Seq<char>) -> bool {
    ||| y.len() == 4 && forall|i: int| 0 <= i < 4 ==> is_digit(#[trigger] y[i])
    ||| y.len() >= 5 && (y[0] == '+' || y[0] == '-') && forall|i: int|
        1 <= i < y.len() ==> is_digit(#[trigger] y[i])
}

/// The title text for a date and time: "<Month> <day>, <year> - <hour>:<minute><AM or PM>",
/// with the day and the hour padded to two characters by a space and the
/// minute written in two digits.
pub open spec fn title_text(
    month: int,
    day: int,
    year: Seq<char>,
    hour: int,
    minute: int,
    pm: bool,
) -> Seq<char> {
    month_name(month) + seq![' '] + space_padded(day) + seq![',', ' '] + year + seq![' ', '-', ' ']
        + space_padded(hour) + seq![':'] + zero_padded(minute) + (if pm {
        seq!['P', 'M']
    } else {
        seq!['A', 'M']
    })
}

/// Whether `s` is the title of some date and time (month 1 to 12, day 1 to 31,
/// hour 1 to 12, minute 0 to 59).
pub open spec fn is_title_form(s: Seq<char>) -> bool {
    exists|month: int, day: int, year: Seq<char>, hour: int, minute: int, pm: bool|
        1 <= month <= 12 && 1 <= day <= 31 && is_year_text(year) && 1 <= hour <= 12 && 0 <= minute
            <= 59 && s == #[trigger] title_text(month, day, year, hour, minute, pm)
}

/// The strftime format of recording titles, such as "March  5, 2024 -  9:07AM".
pub const TITLE_FORMAT: &'static str = "%B %e, %Y - %l:%M%p";

/// What chrono writes, under the strftime format `fmt`, for the time `secs`
/// seconds after the UNIX epoch as seen in a time zone `utc_offset_seconds`
/// ahead of UTC; `None` when chrono has no such time or offset, or cannot read
/// the format.
pub uninterp spec fn offset_strftime(secs: int, utc_offset_seconds: int, fmt: Seq<char>) -> Option<
    Seq<char>,
>;

/// The text held by `r`, if any.
pub open spec fn text_of(r: Option<String>) -> Option<Seq<char>> {
    match r {
        Some(t) => Some(t@),
        None => None,
    }
}

/// Whether chrono takes `secs` as the offset of a time zone from UTC
/// (`FixedOffset::east_opt`): less than a day either way.
pub open spec fn chrono_offset_in_range(secs: int) -> bool {
    -86_400 < secs < 86_400
}

/// `DateTime::<Utc>::from_timestamp(secs, 0)` and
/// `FixedOffset::east_opt(utc_offset_seconds)`, then `with_timezone` and
/// `format(fmt)` written out as a string, or `None` where one of them fails
/// (chrono reports a format string it cannot read as a formatting error). The
/// calls share one wrapper because chrono's `DateTime` cannot be declared to
/// Verus: its parameter is bound by chrono's `TimeZone` trait. The result
/// depends on the three arguments alone (a fixed offset, and no locale), and
/// is named `offset_strftime`. Chrono formats the local time even where it
/// lies up to a day beyond its own date range. Of the title format more is
/// stated: there the result is present exactly when the timestamp and the
/// offset are in chrono's ranges, and chrono writes `%B` as the English month
/// name, `%e` and `%l` (the hour from 1 to 12) padded to two characters with a
/// space, `%Y` as `is_year_text` describes, `%M` in two digits and `%p` as
/// "AM" or "PM".
#[verifier::external_body]
fn format_timestamp_at_offset(secs: i64, utc_offset_seconds: i32, fmt: &str) -> (r: Option<
    String,
>)
    ensures
        text_of(r) == offset_strftime(secs as int, utc_offset_seconds as int, fmt@),
        fmt@ == TITLE_FORMAT@ ==> r.is_some() == (chrono_timestamp_in_range(secs as int)
            && chrono_offset_in_range(utc_offset_seconds as int)),
        fmt@ == TITLE_FORMAT@ ==> (r matches Some(t) ==> is_title_form(t@)),
{
    match (DateTime::<Utc>::from_timestamp(secs, 0), FixedOffset::east_opt(utc_offset_seconds)) {
        (Some(t), Some(offset)) => {
            let mut text = String::new();
            match write!(text, "{}", t.with_timezone(&offset).format(fmt)) {
                Ok(()) => Some(text),
                Err(_) => None,
            }
        },
        _ => None,
    }
}

/// The title of a recording made at `timestamp`, given the text of its local
/// date and time when it has one: that text, or else "Recording <timestamp>".
pub fn recording_title(local_time_text: Option<String>, timestamp: i64) -> (title: String)
    ensures
        local_time_text matches Some(t) ==> title@ == t@,
        local_time_text is None ==> title@ == "Recording "@ + decimal(timestamp as int),
{
    match local_time_text {
        Some(text) => text,
        None => {
            let mut title = String::from_str("Recording ");
            push_decimal(&mut title, timestamp);
            title
        },
    }
}

/// The title of a recording made at `timestamp`, in a time zone
/// `utc_offset_seconds` ahead of UTC: its local date and time in the title
/// format, or "Recording <timestamp>" when the timestamp has no date or the
/// offset is a day or more.
pub fn format_timestamp_title(timestamp: i64, utc_offset_seconds: i32) -> (title: String)
    ensures
        chrono_timestamp_in_range(timestamp as int) && chrono_offset_in_range(
            utc_offset_seconds as int,
        ) ==> offset_strftime(timestamp as int, utc_offset_seconds as int, TITLE_FORMAT@) == Some(
            title@,
        ) && is_title_form(title@),
        !(chrono_timestamp_in_range(timestamp as int) && chrono_offset_in_range(
            utc_offset_seconds as int,
        )) ==> title@ == "Recording "@ + decimal(timestamp as int),
{
    let local_time_text = format_timestamp_at_offset(timestamp, utc_offset_seconds, TITLE_FORMAT);
    recording_title(local_time_text, timestamp)
}

#[verifier::external_type_specification]
#[verifier::external_body]
pub struct ExSystemTime(SystemTime);

/// `SystemTime::now()`: the time on the system clock. Nothing is stated of it.
#[verifier::external_body]
fn system_time_now() -> SystemTime {
    SystemTime::now()
}

/// `SystemTime::duration_since(UNIX_EPOCH)`, as whether `t` is at or after the
/// epoch and the whole seconds and remaining nanoseconds of its distance from
/// it (the error's duration when `t` is earlier). The nanoseconds are below
/// one billion, as `Duration::subsec_nanos` documents.
#[verifier::external_body]
fn distance_from_epoch(t: &SystemTime) -> (r: (bool, u64, u32))
    ensures
        r.2 < 1_000_000_000,
{
    match t.duration_since(UNIX_EPOCH) {
        Ok(d) => (true, d.as_secs(), d.subsec_nanos()),
        Err(e) => (false, e.duration().as_secs(), e.duration().subsec_nanos()),
    }
}

/// The UNIX timestamp, in whole seconds rounded down, of a time `secs` seconds
/// and `nanos` nanoseconds after (or, when `after` fails, before) the epoch;
/// `None` when it does not fit an `i64`.
pub open spec fn unix_timestamp_of(after: bool, secs: u64, nanos: u32) -> Option<i64> {
    let t: int = if after {
        secs as int
    } else if nanos > 0 {
        -(secs as int) - 1
    } else {
        -(secs as int)
    };
    if i64::MIN <= t <= i64::MAX {
        Some(t as i64)
    } else {
        None
    }
}

/// The UNIX timestamp of a distance from the epoch, as `unix_timestamp_of` says.
pub fn unix_timestamp_from(after: bool, secs: u64, nanos: u32) -> (t: Option<i64>)
    ensures
        t == unix_timestamp_of(after, secs, nanos),
{
    if after {
        if secs <= i64::MAX as u64 {
            Some(secs as i64)
        } else {
            None
        }
    } else {
        let extra: u64 = if nanos > 0 {
            1
        } else {
            0
        };
        if secs <= i64::MAX as u64 {
            Some(0 - (secs as i64) - (extra as i64))
        } else if secs == i64::MAX as u64 + 1 && extra == 0 {
            Some(i64::MIN)
        } else {
            None
        }
    }
}

/// The current time as a UNIX timestamp in seconds, when the clock reading
/// fits an `i64`. What the clock reads is not stated.
pub fn current_unix_timestamp() -> (t: Option<i64>)
    ensures
        exists|after: bool, secs: u64, nanos: u32| t == unix_timestamp_of(after, secs, nanos),
{
    let now = system_time_now();
    let (after, secs, nanos) = distance_from_epoch(&now);
    let t = unix_timestamp_from(after, secs, nanos);
    assert(t == unix_timestamp_of(after, secs, nanos));
    t
}

/// One recorded dictation as stored in the history.
#[derive(Clone, Debug)]
pub struct HistoryEntry {
    pub id: i64,
    pub file_name: String,
    pub timestamp: i64,
    pub saved: bool,
    pub title: String,
    pub transcription_text: String,
    pub post_processed_text: Option<String>,
    pub post_process_prompt: Option<String>,
    pub post_process_requested: bool,
}

/// One page of history entries, newest first, and whether older ones remain.
#[derive(Clone, Debug)]
pub struct PaginatedHistory {
    pub entries: Vec<HistoryEntry>,
    pub has_more: bool,
}

/// What changed in the history, as announced to the user interface.
#[derive(Clone, Debug)]
pub enum HistoryUpdatePayload {
    Added { entry: HistoryEntry },
    Updated { entry: HistoryEntry },
    Deleted { id: i64 },
    Toggled { id: i64 },
}

/// The largest page of history entries handed out at once.
pub const MAX_PAGE_SIZE: usize = 100;

/// How a page of history entries is read from storage, newest (highest id) first.
#[derive(Clone, Copy, Debug, PartialEq, Eq, Structural)]
pub enum PageQuery {
    /// Entries with an id below `cursor`, at most `fetch` of them.
    Before { cursor: i64, fetch: i64 },
    /// The newest entries, at most `fetch` of them.
    Newest { fetch: i64 },
    /// Every entry.
    All,
}

/// The page size actually used for a requested one: at most `MAX_PAGE_SIZE`.
pub open spec fn capped_limit(limit: Option<usize>) -> Option<usize> {
    match limit {
        Some(l) => Some(if l <= MAX_PAGE_SIZE { l } else { MAX_PAGE_SIZE }),
        None => None,
    }
}

/// The read that fetches the page after `cursor` (the id of the last entry
/// already shown, if any) for a page size `limit`.
pub open spec fn page_query_spec(cursor: Option<i64>, limit: Option<usize>) -> PageQuery {
    match capped_limit(limit) {
        Some(l) => match cursor {
            Some(c) => PageQuery::Before { cursor: c, fetch: (l + 1) as i64 },
            None => PageQuery::Newest { fetch: (l + 1) as i64 },
        },
        None => PageQuery::All,
    }
}

/// The read that fetches a page: one entry more than the page holds, to learn
/// whether older entries remain; everything when no limit is given.
pub fn page_query(cursor: Option<i64>, limit: Option<usize>) -> (q: PageQuery)
    ensures
        q == page_query_spec(cursor, limit),
{
    match limit {
        Some(l) => {
            let lim: usize = if l <= MAX_PAGE_SIZE {
                l
            } else {
                MAX_PAGE_SIZE
            };
            let fetch = (lim + 1) as i64;
            match cursor {
                Some(c) => PageQuery::Before { cursor: c, fetch },
                None => PageQuery::Newest { fetch },
            }
        },
        None => PageQuery::All,
    }
}

/// Whether a read that returned `fetched_len` entries leaves older ones: it
/// returned more than the (capped) page holds.
pub open spec fn page_has_more(fetched_len: nat, limit: Option<usize>) -> bool {
    capped_limit(limit) is Some && fetched_len > capped_limit(limit)->0
}

/// The entries of the page made from the entries `fetched`.
pub open spec fn page_entries(fetched: Seq<HistoryEntry>, limit: Option<usize>) -> Seq<HistoryEntry> {
    if page_has_more(fetched.len(), limit) {
        fetched.drop_last()
    } else {
        fetched
    }
}

/// A page never holds more than its (capped) size, provided the read fetched
/// at most one entry more, as `page_query` asks; and its entries are the first
/// ones read, in the order read.
pub proof fn law_page_holds_at_most_its_size(fetched: Seq<HistoryEntry>, limit: Option<usize>)
    requires
        capped_limit(limit) is Some,
        fetched.len() <= capped_limit(limit)->0 + 1,
    ensures
        page_entries(fetched, limit).len() <= capped_limit(limit)->0 <= MAX_PAGE_SIZE,
        page_entries(fetched, limit) == fetched.take(page_entries(fetched, limit).len() as int),
{
    assert(fetched.drop_last() =~= fetched.take(fetched.len() - 1));
    assert(fetched =~= fetched.take(fetched.len() as int));
}

/// The page made of the entries `fetched` for a request with page size
/// `limit`: when more entries came back than the (capped) page holds, the last
/// one is left out and `has_more` is set.
pub fn finish_page(fetched: Vec<HistoryEntry>, limit: Option<usize>) -> (page: PaginatedHistory)
    ensures
        page.has_more == page_has_more(fetched@.len(), limit),
        page.entries@ == page_entries(fetched@, limit),
{
    let mut entries = fetched;
    let has_more = match limit {
        Some(l) => {
            let lim: usize = if l <= MAX_PAGE_SIZE {
                l
            } else {
                MAX_PAGE_SIZE
            };
            entries.len() > lim
        },
        None => false,
    };
    if has_more {
        entries.pop();
    }
    PaginatedHistory { entries, has_more }
}

/// Whether `rows` run from the newest entry to the oldest: ids strictly
/// decreasing, so that no id occurs twice.
pub open spec fn newest_first(rows: Seq<HistoryEntry>) -> bool {
    forall|i: int, j: int| 0 <= i < j < rows.len() ==> rows[i].id > rows[j].id
}

/// Whether an entry lies below `cursor`, that is, is older than the entry with
/// that id.
pub open spec fn below_cursor(cursor: i64) -> spec_fn(HistoryEntry) -> bool {
    |e: HistoryEntry| e.id < cursor
}

/// The first `n` entries of `s`, or all of them when it holds fewer.
pub open spec fn first_at_most(s: Seq<HistoryEntry>, n: int) -> Seq<HistoryEntry> {
    if n < s.len() {
        s.take(n)
    } else {
        s
    }
}

/// What the read `q` returns from a history whose entries, newest first, are
/// `rows`.
pub open spec fn query_result(rows: Seq<HistoryEntry>, q: PageQuery) -> Seq<HistoryEntry> {
    match q {
        PageQuery::Before { cursor, fetch } => first_at_most(
            rows.filter(below_cursor(cursor)),
            fetch as int,
        ),
        PageQuery::Newest { fetch } => first_at_most(rows, fetch as int),
        PageQuery::All => rows,
    }
}

/// The entries shown by reading pages of size `limit` from `rows`, starting
/// after `cursor`, for at most `reads` pages: after each page that says more
/// remain, the next one is read from the id of its last entry.
pub open spec fn entries_read_from(
    rows: Seq<HistoryEntry>,
    cursor: Option<i64>,
    limit: usize,
    reads: nat,
) -> Seq<HistoryEntry>
    decreases reads,
{
    if reads == 0 {
        Seq::empty()
    } else {
        let fetched = query_result(rows, page_query_spec(cursor, Some(limit)));
        let entries = page_entries(fetched, Some(limit));
        if page_has_more(fetched.len(), Some(limit)) && entries.len() > 0 {
            entries + entries_read_from(rows, Some(entries.last().id), limit, (reads - 1) as nat)
        } else {
            entries
        }
    }
}

/// When the entries before position `k` fail `pred` and the others pass it,
/// filtering by `pred` keeps exactly those from position `k` on.
proof fn lemma_filter_from(s: Seq<HistoryEntry>, pred: spec_fn(HistoryEntry) -> bool, k: int)
    requires
        0 <= k <= s.len(),
        forall|i: int| 0 <= i < k ==> !pred(#[trigger] s[i]),
        forall|i: int| k <= i < s.len() ==> pred(#[trigger] s[i]),
    ensures
        s.filter(pred) == s.skip(k),
    decreases s.len(),
{
    reveal_with_fuel(Seq::filter, 1);
    if s.len() == 0 {
        assert(s.skip(k) =~= s);
    } else {
        let d = s.drop_last();
        let kd = if k <= d.len() {
            k
        } else {
            d.len() as int
        };
        assert forall|i: int| 0 <= i < kd implies !pred(#[trigger] d[i]) by {
            assert(d[i] == s[i]);
        }
        assert forall|i: int| kd <= i < d.len() implies pred(#[trigger] d[i]) by {
            assert(d[i] == s[i]);
        }
        lemma_filter_from(d, pred, kd);
        if k < s.len() {
            assert(pred(s[s.len() - 1]));
            assert(s.skip(k) =~= d.skip(k).push(s.last()));
        } else {
            assert(!pred(s[s.len() - 1]));
            assert(s.skip(k) =~= d.skip(kd));
        }
    }
}

/// Reading from the history `rows` the pages that follow the first `m`
/// entries gives the remaining entries, within as many reads as remain.
proof fn lemma_entries_read_after(rows: Seq<HistoryEntry>, m: int, limit: usize, reads: nat)
    requires
        newest_first(rows),
        1 <= limit,
        0 <= m <= rows.len(),
        reads >= rows.len() - m,
    ensures
        entries_read_from(
            rows,
            if m == 0 {
                None
            } else {
                Some(rows[m - 1].id)
            },
            limit,
            reads,
        ) == rows.skip(m),
    decreases reads,
{
    let cursor: Option<i64> = if m == 0 {
        None
    } else {
        Some(rows[m - 1].id)
    };
    let c: int = capped_limit(Some(limit))->0 as int;
    let rest = rows.skip(m);
    if m > 0 {
        assert forall|i: int| 0 <= i < m implies !below_cursor(rows[m - 1].id)(#[trigger] rows[i]) by {
            if i < m - 1 {
                assert(rows[i].id > rows[m - 1].id);
            }
        }
        assert forall|i: int| m <= i < rows.len() implies below_cursor(rows[m - 1].id)(
            #[trigger] rows[i],
        ) by {
            assert(rows[m - 1].id > rows[i].id);
        }
        lemma_filter_from(rows, below_cursor(rows[m - 1].id), m);
    } else {
        assert(rows.skip(0) =~= rows);
    }
    let fetched = query_result(rows, page_query_spec(cursor, Some(limit)));
    assert(fetched == first_at_most(rest, c + 1));
    if reads == 0 {
        assert(rest =~= Seq::<HistoryEntry>::empty());
    } else if rest.len() > c {
        let entries = page_entries(fetched, Some(limit));
        assert(fetched == rest.take(c + 1));
        assert(entries =~= rest.take(c));
        assert(entries.last() == rows[m + c - 1]);
        lemma_entries_read_after(rows, m + c, limit, (reads - 1) as nat);
        assert(rest =~= rest.take(c) + rows.skip(m + c));
    } else {
        assert(fetched == rest);
    }
}

/// Reading the history page after page, each page from the id of the last
/// entry of the one before, until a page says that no more remain, shows every
/// entry exactly once, newest first: for a page size of at least one, within
/// as many reads as there are entries.
pub proof fn law_pages_cover_history_once(rows: Seq<HistoryEntry>, limit: usize, reads: nat)
    requires
        newest_first(rows),
        1 <= limit,
        reads >= rows.len(),
    ensures
        entries_read_from(rows, None, limit, reads) == rows,
{
    lemma_entries_read_after(rows, 0, limit, reads);
    assert(rows.skip(0) =~= rows);
}

/// How long recordings are kept.
#[derive(Clone, Copy, Debug, PartialEq, Eq, Structural)]
pub enum RecordingRetentionPeriod {
    Never,
    PreserveLimit,
    Days3,
    Weeks2,
    Months3,
}

/// What the clean-up after a new recording removes.
#[derive(Clone, Copy, Debug, PartialEq, Eq, Structural)]
pub enum CleanupPlan {
    /// Nothing.
    KeepAll,
    /// The unsaved entries beyond the `limit` newest unsaved ones.
    KeepNewest { limit: usize },
    /// The unsaved entries older than `cutoff` (a UNIX timestamp).
    DropOlderThan { cutoff: i64 },
}

/// How many seconds a time-based retention period keeps recordings (three
/// months count as 90 days).
pub open spec fn retention_seconds(period: RecordingRetentionPeriod) -> int {
    match period {
        RecordingRetentionPeriod::Days3 => 259_200int,
        RecordingRetentionPeriod::Weeks2 => 1_209_600int,
        RecordingRetentionPeriod::Months3 => 7_776_000int,
        _ => 0int,
    }
}

/// The clean-up for a retention period, given the history limit and the
/// current time `now`.
pub open spec fn cleanup_plan_spec(
    period: RecordingRetentionPeriod,
    history_limit: usize,
    now: int,
) -> CleanupPlan {
    match period {
        RecordingRetentionPeriod::Never => CleanupPlan::KeepAll,
        RecordingRetentionPeriod::PreserveLimit => CleanupPlan::KeepNewest { limit: history_limit },
        _ => CleanupPlan::DropOlderThan { cutoff: (now - retention_seconds(period)) as i64 },
    }
}

/// What to remove for the retention period `period`, the history limit
/// `history_limit` and the current time `now`.
pub fn cleanup_plan(period: RecordingRetentionPeriod, history_limit: usize, now: i64) -> (plan:
    CleanupPlan)
    requires
        now - retention_seconds(period) >= i64::MIN,
    ensures
        plan == cleanup_plan_spec(period, history_limit, now as int),
{
    match period {
        RecordingRetentionPeriod::Never => CleanupPlan::KeepAll,
        RecordingRetentionPeriod::PreserveLimit => CleanupPlan::KeepNewest { limit: history_limit },
        RecordingRetentionPeriod::Days3 => CleanupPlan::DropOlderThan {
            cutoff: now - (3 * 24 * 60 * 60),
        },
        RecordingRetentionPeriod::Weeks2 => CleanupPlan::DropOlderThan {
            cutoff: now - (2 * 7 * 24 * 60 * 60),
        },
        RecordingRetentionPeriod::Months3 => CleanupPlan::DropOlderThan {
            cutoff: now - (3 * 30 * 24 * 60 * 60),
        },
    }
}

/// What to remove at time `now`: `None` when the period is time-based and its
/// cutoff would lie before the earliest timestamp an `i64` holds.
pub open spec fn cleanup_plan_at_spec(
    period: RecordingRetentionPeriod,
    history_limit: usize,
    now: int,
) -> Option<CleanupPlan> {
    if now - retention_seconds(period) >= i64::MIN {
        Some(cleanup_plan_spec(period, history_limit, now))
    } else {
        None
    }
}

/// What to remove for the retention period `period` and the history limit
/// `history_limit` at time `now`, or `None` when a time-based cutoff cannot
/// be written as a timestamp.
pub fn cleanup_plan_at(period: RecordingRetentionPeriod, history_limit: usize, now: i64) -> (plan:
    Option<CleanupPlan>)
    ensures
        plan == cleanup_plan_at_spec(period, history_limit, now as int),
{
    let seconds: i64 = match period {
        RecordingRetentionPeriod::Days3 => 3 * 24 * 60 * 60,
        RecordingRetentionPeriod::Weeks2 => 2 * 7 * 24 * 60 * 60,
        RecordingRetentionPeriod::Months3 => 3 * 30 * 24 * 60 * 60,
        _ => 0,
    };
    if now < i64::MIN + seconds {
        None
    } else {
        Some(cleanup_plan(period, history_limit, now))
    }
}

/// What to remove for the retention period `period` and the history limit
/// `history_limit`, at the time the system clock reads. `None` when the
/// period is time-based and the clock reading gives no cutoff: it does not fit
/// an `i64` timestamp, or lies so early that the cutoff would not.
pub fn cleanup_plan_now(period: RecordingRetentionPeriod, history_limit: usize) -> (plan: Option<
    CleanupPlan,
>)
    ensures
        exists|now: i64| plan == cleanup_plan_at_spec(period, history_limit, now as int),
        period == RecordingRetentionPeriod::Never ==> plan == Some(CleanupPlan::KeepAll),
        period == RecordingRetentionPeriod::PreserveLimit ==> plan == Some(
            CleanupPlan::KeepNewest { limit: history_limit },
        ),
{
    match current_unix_timestamp() {
        Some(now) => {
            let plan = cleanup_plan_at(period, history_limit, now);
            assert(plan == cleanup_plan_at_spec(period, history_limit, now as int));
            plan
        },
        None => {
            let plan = match period {
                RecordingRetentionPeriod::Never => Some(CleanupPlan::KeepAll),
                RecordingRetentionPeriod::PreserveLimit => Some(
                    CleanupPlan::KeepNewest { limit: history_limit },
                ),
                _ => None,
            };
            assert(plan == cleanup_plan_at_spec(period, history_limit, i64::MIN as int));
            plan
        },
    }
}

/// The stored recordings (id and audio file name) to remove when only the
/// `limit` newest unsaved ones are kept: `unsaved_newest_first` lists the
/// unsaved ones, newest first.
pub fn entries_beyond_limit(unsaved_newest_first: &Vec<(i64, String)>, limit: usize) -> (r: Vec<
    (i64, String),
>)
    ensures
        r@ == (if unsaved_newest_first@.len() > limit {
            unsaved_newest_first@.skip(limit as int)
        } else {
            seq![]
        }),
{
    let mut r: Vec<(i64, String)> = Vec::new();
    if unsaved_newest_first.len() <= limit {
        return r;
    }
    let mut i: usize = limit;
    while i < unsaved_newest_first.len()
        invariant
            limit <= i <= unsaved_newest_first.len(),
            r@ == unsaved_newest_first@.subrange(limit as int, i as int),
        decreases unsaved_newest_first.len() - i,
    {
        let (id, name) = &unsaved_newest_first[i];
        let item = (*id, name.clone());
        r.push(item);
        assert(r@ =~= unsaved_newest_first@.subrange(limit as int, i + 1));
        i = i + 1;
    }
    assert(unsaved_newest_first@.subrange(limit as int, unsaved_newest_first@.len() as int)
        =~= unsaved_newest_first@.skip(limit as int));
    r
}

/// The retention period named by `period` ("never", "preserve_limit",
/// "days3", "weeks2" or "months3"), or an error naming it.
pub fn parse_retention_period(period: &str) -> (r: Result<RecordingRetentionPeriod, String>)
    ensures
        period@ == "never"@ ==> r == Ok::<RecordingRetentionPeriod, String>(
            RecordingRetentionPeriod::Never,
        ),
        period@ == "preserve_limit"@ ==> r == Ok::<RecordingRetentionPeriod, String>(
            RecordingRetentionPeriod::PreserveLimit,
        ),
        period@ == "days3"@ ==> r == Ok::<RecordingRetentionPeriod, String>(
            RecordingRetentionPeriod::Days3,
        ),
        period@ == "weeks2"@ ==> r == Ok::<RecordingRetentionPeriod, String>(
            RecordingRetentionPeriod::Weeks2,
        ),
        period@ == "months3"@ ==> r == Ok::<RecordingRetentionPeriod, String>(
            RecordingRetentionPeriod::Months3,
        ),
        period@ != "never"@ && period@ != "preserve_limit"@ && period@ != "days3"@ && period@
            != "weeks2"@ && period@ != "months3"@ ==> (r matches Err(msg) && msg@
            == "Invalid retention period: "@ + period@),
{
    proof {
        reveal_strlit("never");
        reveal_strlit("preserve_limit");
        reveal_strlit("days3");
        reveal_strlit("weeks2");
        reveal_strlit("months3");
        assert("never"@[0] != "days3"@[0] && "never"@[0] != "weeks2"@[0] && "never"@[0] != "months3"@[0]
            && "never"@[0] != "preserve_limit"@[0]);
        assert("preserve_limit"@[0] != "days3"@[0] && "preserve_limit"@[0] != "weeks2"@[0]
            && "preserve_limit"@[0] != "months3"@[0]);
        assert("days3"@[0] != "weeks2"@[0] && "days3"@[0] != "months3"@[0] && "weeks2"@[0]
            != "months3"@[0]);
    }
    if same_text(period, "never") {
        Ok(RecordingRetentionPeriod::Never)
    } else if same_text(period, "preserve_limit") {
        Ok(RecordingRetentionPeriod::PreserveLimit)
    } else if same_text(period, "days3") {
        Ok(RecordingRetentionPeriod::Days3)
    } else if same_text(period, "weeks2") {
        Ok(RecordingRetentionPeriod::Weeks2)
    } else if same_text(period, "months3") {
        Ok(RecordingRetentionPeriod::Months3)
    } else {
        let mut msg = String::from_str("Invalid retention period: ");
        msg.append(period);
        Err(msg)
    }
}


/// The entry stored for a new recording: not saved, with the given id,
/// timestamp, title and texts.
pub fn new_history_entry(
    id: i64,
    file_name: String,
    timestamp: i64,
    title: String,
    transcription_text: String,
    post_process_requested: bool,
    post_processed_text: Option<String>,
    post_process_prompt: Option<String>,
) -> (entry: HistoryEntry)
    ensures
        entry == (HistoryEntry {
            id,
            file_name,
            timestamp,
            saved: false,
            title,
            transcription_text,
            post_processed_text,
            post_process_prompt,
            post_process_requested,
        }),
{
    HistoryEntry {
        id,
        file_name,
        timestamp,
        saved: false,
        title,
        transcription_text,
        post_processed_text,
        post_process_prompt,
        post_process_requested,
    }
}

/// The text an entry shows: its post-processed text when there is one, its
/// transcription otherwise.
pub open spec fn shown_text(entry: HistoryEntry) -> Seq<char> {
    match entry.post_processed_text {
        Some(t) => t@,
        None => entry.transcription_text@,
    }
}

/// The text of `entry` that counts on the dashboard: the post-processed text
/// when there is one, the transcription otherwise.
pub fn dashboard_text(entry: &HistoryEntry) -> (text: &String)
    ensures
        text@ == shown_text(*entry),
{
    match &entry.post_processed_text {
        Some(t) => t,
        None => &entry.transcription_text,
    }
}

/// Whether a new entry counts on the dashboard: its shown text is not blank.
pub fn counts_on_dashboard(entry: &HistoryEntry) -> (b: bool)
    ensures
        b == (trim(shown_text(*entry)).len() > 0),
{
    let t = trim_text(dashboard_text(entry).as_str());
    t.as_str().unicode_len() > 0
}

/// The message for a history entry that does not exist: "History entry <id> not found".
pub fn entry_not_found_message(id: i64) -> (msg: String)
    ensures
        msg@ == "History entry "@ + decimal(id as int) + " not found"@,
{
    let mut msg = String::from_str("History entry ");
    push_decimal(&mut msg, id);
    msg.append(" not found");
    msg
}

/// The outcome of an update of entry `id` that changed `updated_rows` rows:
/// an error when no row changed, since the entry does not exist.
pub fn check_entry_updated(updated_rows: usize, id: i64) -> (r: Result<(), String>)
    ensures
        updated_rows > 0 ==> r is Ok,
        updated_rows == 0 ==> (r matches Err(msg) && msg@ == "History entry "@ + decimal(id as int)
            + " not found"@),
{
    if updated_rows == 0 {
        Err(entry_not_found_message(id))
    } else {
        Ok(())
    }
}

/// Whether a recording can be transcribed again: it must hold audio samples.
pub fn check_retry_samples(sample_count: usize) -> (r: Result<(), String>)
    ensures
        sample_count > 0 ==> r is Ok,
        sample_count == 0 ==> (r matches Err(msg) && msg@ == "Recording has no audio samples"@),
{
    if sample_count == 0 {
        Err(String::from_str("Recording has no audio samples"))
    } else {
        Ok(())
    }
}

/// Whether a new transcription of a recording can replace the stored one: it
/// must not be empty.
pub fn check_retry_transcription(transcription: &str) -> (r: Result<(), String>)
    ensures
        transcription@.len() > 0 ==> r is Ok,
        transcription@.len() == 0 ==> (r matches Err(msg) && msg@ == "Recording contains no speech"@),
{
    if transcription.is_empty() {
        Err(String::from_str("Recording contains no speech"))
    } else {
        Ok(())
    }
}

/// Whether the migration table left by an older storage layer has to be read:
/// it exists and the schema version has not been recorded yet.
pub fn needs_legacy_schema_version(has_legacy_table: bool, current_version: i32) -> (b: bool)
    ensures
        b == (has_legacy_table && current_version <= 0),
{
    has_legacy_table && current_version <= 0
}

/// The schema version to adopt from the older storage layer's highest
/// successful migration, when it recorded any.
pub fn adopted_legacy_schema_version(legacy_version: i32) -> (v: Option<i32>)
    ensures
        v == (if legacy_version > 0 {
            Some(legacy_version)
        } else {
            None::<i32>
        }),
{
    if legacy_version > 0 {
        Some(legacy_version)
    } else {
        None
    }
}

/// A correction learned from the user: `from` was transcribed where `to` was meant.
#[derive(Clone, Debug)]
pub struct TranscriptCorrection {
    pub from: String,
    pub to: String,
}

/// The corrections and custom words learned so far.
#[derive(Clone, Debug)]
pub struct LearnedVocabulary {
    pub learned_corrections: Vec<TranscriptCorrection>,
    pub custom_words: Vec<String>,
}

/// The most corrections kept; the oldest go first.
pub const MAX_LEARNED_CORRECTIONS: usize = 120;

/// The longest custom word learned from a correction, in UTF-8 bytes.
pub const MAX_CUSTOM_WORD_BYTES: usize = 80;

/// Whether two texts are equal once ASCII letters are lowercased.
pub open spec fn same_ignoring_ascii_case(a: Seq<char>, b: Seq<char>) -> bool {
    ascii_lower_seq(a) == ascii_lower_seq(b)
}

/// Whether two strings are equal once ASCII letters are lowercased, as
/// `str::eq_ignore_ascii_case` compares them.
fn eq_ignore_ascii_case(a: &str, b: &str) -> (r: bool)
    ensures
        r == same_ignoring_ascii_case(a@, b@),
{
    let ca = chars_of(a);
    let cb = chars_of(b);
    if ca.len() != cb.len() {
        assert(ascii_lower_seq(a@).len() != ascii_lower_seq(b@).len());
        return false;
    }
    let mut i: usize = 0;
    while i < ca.len()
        invariant
            ca@ == a@,
            cb@ == b@,
            ca.len() == cb.len(),
            i <= ca.len(),
            forall|j: int| 0 <= j < i ==> ascii_lower(#[trigger] a@[j]) == ascii_lower(b@[j]),
        decreases ca.len() - i,
    {
        if char_to_ascii_lowercase(ca[i]) != char_to_ascii_lowercase(cb[i]) {
            assert(ascii_lower_seq(a@)[i as int] != ascii_lower_seq(b@)[i as int]);
            return false;
        }
        i = i + 1;
    }
    assert(ascii_lower_seq(a@) =~= ascii_lower_seq(b@));
    true
}

/// A correction seen as a pair of texts.
pub open spec fn correction_view(c: TranscriptCorrection) -> (Seq<char>, Seq<char>) {
    (c.from@, c.to@)
}

pub open spec fn corrections_view(cs: Seq<TranscriptCorrection>) -> Seq<(Seq<char>, Seq<char>)> {
    cs.map_values(|c: TranscriptCorrection| correction_view(c))
}

pub open spec fn words_view(ws: Seq<String>) -> Seq<Seq<char>> {
    ws.map_values(|w: String| w@)
}

/// Whether `list` already holds `c`, ignoring ASCII case on both sides.
pub open spec fn knows_correction(
    list: Seq<(Seq<char>, Seq<char>)>,
    c: (Seq<char>, Seq<char>),
) -> bool {
    exists|i: int|
        0 <= i < list.len() && same_ignoring_ascii_case(#[trigger] list[i].0, c.0)
            && same_ignoring_ascii_case(list[i].1, c.1)
}

/// Whether `words` already holds `w`, ignoring ASCII case.
pub open spec fn knows_word(words: Seq<Seq<char>>, w: Seq<char>) -> bool {
    exists|i: int| 0 <= i < words.len() && same_ignoring_ascii_case(#[trigger] words[i], w)
}

/// The length in UTF-8 bytes of a text (what `str::len` reports).
pub open spec fn utf8_byte_len(s: Seq<char>) -> usize {
    vstd::utf8::encode_utf8(s).len() as usize
}

/// The learned corrections and custom words after learning `c`: the correction
/// is added unless already known, and its target becomes a custom word when it
/// is short enough and not already one.
pub open spec fn learn_one(
    state: (Seq<(Seq<char>, Seq<char>)>, Seq<Seq<char>>),
    c: (Seq<char>, Seq<char>),
) -> (Seq<(Seq<char>, Seq<char>)>, Seq<Seq<char>>) {
    let (list, words) = state;
    (
        if knows_correction(list, c) {
            list
        } else {
            list.push(c)
        },
        if utf8_byte_len(c.1) <= MAX_CUSTOM_WORD_BYTES && !knows_word(words, c.1) {
            words.push(c.1)
        } else {
            words
        },
    )
}

/// Learning the corrections `cs` one after the other.
pub open spec fn learn_all(
    state: (Seq<(Seq<char>, Seq<char>)>, Seq<Seq<char>>),
    cs: Seq<(Seq<char>, Seq<char>)>,
) -> (Seq<(Seq<char>, Seq<char>)>, Seq<Seq<char>>)
    decreases cs.len(),
{
    if cs.len() == 0 {
        state
    } else {
        learn_one(learn_all(state, cs.drop_last()), cs.last())
    }
}

/// At most the `MAX_LEARNED_CORRECTIONS` newest corrections of `list`.
pub open spec fn keep_newest(list: Seq<(Seq<char>, Seq<char>)>) -> Seq<(Seq<char>, Seq<char>)> {
    if list.len() > MAX_LEARNED_CORRECTIONS {
        list.skip(list.len() - MAX_LEARNED_CORRECTIONS)
    } else {
        list
    }
}

/// A copy of the correction `c`.
fn copy_correction(c: &TranscriptCorrection) -> (r: TranscriptCorrection)
    ensures
        r == *c,
{
    TranscriptCorrection { from: c.from.clone(), to: c.to.clone() }
}

fn knows_correction_exec(list: &Vec<TranscriptCorrection>, c: &TranscriptCorrection) -> (b: bool)
    ensures
        b == knows_correction(corrections_view(list@), correction_view(*c)),
{
    let ghost lv = corrections_view(list@);
    let mut i: usize = 0;
    while i < list.len()
        invariant
            i <= list.len(),
            lv == corrections_view(list@),
            forall|k: int|
                0 <= k < i ==> !(same_ignoring_ascii_case(#[trigger] lv[k].0, c.from@)
                    && same_ignoring_ascii_case(lv[k].1, c.to@)),
        decreases list.len() - i,
    {
        let e = &list[i];
        if eq_ignore_ascii_case(e.from.as_str(), c.from.as_str()) && eq_ignore_ascii_case(
            e.to.as_str(),
            c.to.as_str(),
        ) {
            assert(lv[i as int] == correction_view(*e));
            assert(same_ignoring_ascii_case(lv[i as int].0, correction_view(*c).0)
                && same_ignoring_ascii_case(lv[i as int].1, correction_view(*c).1));
            return true;
        }
        assert(lv[i as int] == correction_view(*e));
        i = i + 1;
    }
    false
}

fn knows_word_exec(words: &Vec<String>, w: &String) -> (b: bool)
    ensures
        b == knows_word(words_view(words@), w@),
{
    let ghost wv = words_view(words@);
    let mut i: usize = 0;
    while i < words.len()
        invariant
            i <= words.len(),
            wv == words_view(words@),
            forall|k: int| 0 <= k < i ==> !same_ignoring_ascii_case(#[trigger] wv[k], w@),
        decreases words.len() - i,
    {
        assert(wv[i as int] == words@[i as int]@);
        if eq_ignore_ascii_case(words[i].as_str(), w.as_str()) {
            return true;
        }
        i = i + 1;
    }
    false
}

/// No two corrections of `list` are equal, ignoring ASCII case.
pub open spec fn corrections_distinct(list: Seq<(Seq<char>, Seq<char>)>) -> bool {
    forall|i: int, j: int|
        0 <= i < j < list.len() ==> !(same_ignoring_ascii_case(#[trigger] list[i].0, list[j].0)
            && same_ignoring_ascii_case(list[i].1, #[trigger] list[j].1))
}

/// No two words of `words` are equal, ignoring ASCII case.
pub open spec fn words_distinct(words: Seq<Seq<char>>) -> bool {
    forall|i: int, j: int|
        0 <= i < j < words.len() ==> !same_ignoring_ascii_case(#[trigger] words[i], #[trigger] words[j])
}

proof fn lemma_learn_all_distinct(
    state: (Seq<(Seq<char>, Seq<char>)>, Seq<Seq<char>>),
    cs: Seq<(Seq<char>, Seq<char>)>,
)
    requires
        corrections_distinct(state.0),
        words_distinct(state.1),
    ensures
        corrections_distinct(learn_all(state, cs).0),
        words_distinct(learn_all(state, cs).1),
    decreases cs.len(),
{
    if cs.len() > 0 {
        lemma_learn_all_distinct(state, cs.drop_last());
        let prev = learn_all(state, cs.drop_last());
        let c = cs.last();
        let next = learn_one(prev, c);
        if !knows_correction(prev.0, c) {
            assert forall|i: int, j: int|
                0 <= i < j < next.0.len() implies !(same_ignoring_ascii_case(
                #[trigger] next.0[i].0,
                next.0[j].0,
            ) && same_ignoring_ascii_case(next.0[i].1, #[trigger] next.0[j].1)) by {
                if j == prev.0.len() {
                    assert(next.0[i] == prev.0[i]);
                    assert(next.0[j] == c);
                } else {
                    assert(next.0[i] == prev.0[i]);
                    assert(next.0[j] == prev.0[j]);
                }
            }
        }
        if next.1 != prev.1 {
            assert forall|i: int, j: int|
                0 <= i < j < next.1.len() implies !same_ignoring_ascii_case(
                #[trigger] next.1[i],
                #[trigger] next.1[j],
            ) by {
                assert(next.1[i] == prev.1[i]);
                if j < prev.1.len() {
                    assert(next.1[j] == prev.1[j]);
                }
            }
        }
    }
}

/// Learning keeps the vocabulary free of repeats: when no two learned
/// corrections and no two custom words were equal (ignoring ASCII case)
/// before, none are after, whatever corrections are learned; and at most
/// `MAX_LEARNED_CORRECTIONS` corrections are kept.
pub proof fn law_learning_keeps_vocabulary_distinct(
    corrections: Seq<(Seq<char>, Seq<char>)>,
    custom_words: Seq<Seq<char>>,
    learned: Seq<(Seq<char>, Seq<char>)>,
)
    requires
        corrections_distinct(corrections),
        words_distinct(custom_words),
    ensures
        corrections_distinct(keep_newest(learn_all((corrections, custom_words), learned).0)),
        words_distinct(learn_all((corrections, custom_words), learned).1),
        keep_newest(learn_all((corrections, custom_words), learned).0).len()
            <= MAX_LEARNED_CORRECTIONS,
{
    let state = (corrections, custom_words);
    lemma_learn_all_distinct(state, learned);
    let list = learn_all(state, learned).0;
    if list.len() > MAX_LEARNED_CORRECTIONS {
        let kept = keep_newest(list);
        let off = list.len() - MAX_LEARNED_CORRECTIONS;
        assert forall|i: int, j: int|
            0 <= i < j < kept.len() implies !(same_ignoring_ascii_case(
            #[trigger] kept[i].0,
            kept[j].0,
        ) && same_ignoring_ascii_case(kept[i].1, #[trigger] kept[j].1)) by {
            assert(kept[i] == list[i + off]);
            assert(kept[j] == list[j + off]);
        }
    }
}

/// Learning one correction adds it to the learned list exactly when the list
/// holds no correction with the same source and the same target, both compared
/// ignoring ASCII case (otherwise the list stays as it was); and adds its target
/// to the custom words exactly when the target is at most
/// `MAX_CUSTOM_WORD_BYTES` bytes long and no custom word equals it ignoring
/// ASCII case.
pub proof fn law_learning_adds_only_new_corrections(
    list: Seq<(Seq<char>, Seq<char>)>,
    custom_words: Seq<Seq<char>>,
    c: (Seq<char>, Seq<char>),
)
    ensures
        (forall|i: int|
            0 <= i < list.len() ==> !(ascii_lower_seq(#[trigger] list[i].0) == ascii_lower_seq(c.0)
                && ascii_lower_seq(list[i].1) == ascii_lower_seq(c.1))) ==> learn_all(
            (list, custom_words),
            seq![c],
        ).0 == list.push(c),
        (exists|i: int|
            0 <= i < list.len() && ascii_lower_seq(#[trigger] list[i].0) == ascii_lower_seq(c.0)
                && ascii_lower_seq(list[i].1) == ascii_lower_seq(c.1)) ==> learn_all(
            (list, custom_words),
            seq![c],
        ).0 == list,
        (utf8_byte_len(c.1) <= MAX_CUSTOM_WORD_BYTES && forall|i: int|
            0 <= i < custom_words.len() ==> ascii_lower_seq(#[trigger] custom_words[i])
                != ascii_lower_seq(c.1)) ==> learn_all((list, custom_words), seq![c]).1
            == custom_words.push(c.1),
        !(utf8_byte_len(c.1) <= MAX_CUSTOM_WORD_BYTES && forall|i: int|
            0 <= i < custom_words.len() ==> ascii_lower_seq(#[trigger] custom_words[i])
                != ascii_lower_seq(c.1)) ==> learn_all((list, custom_words), seq![c]).1
            == custom_words,
{
    let cs = seq![c];
    assert(cs.drop_last() =~= Seq::<(Seq<char>, Seq<char>)>::empty());
    assert(cs.last() == c);
    assert(learn_all((list, custom_words), cs.drop_last()) == (list, custom_words));
    assert(learn_all((list, custom_words), cs) == learn_one((list, custom_words), c));
    if knows_correction(list, c) {
        let i = choose|i: int|
            0 <= i < list.len() && same_ignoring_ascii_case(#[trigger] list[i].0, c.0)
                && same_ignoring_ascii_case(list[i].1, c.1);
        assert(ascii_lower_seq(list[i].0) == ascii_lower_seq(c.0));
    }
    if exists|i: int|
        0 <= i < list.len() && ascii_lower_seq(#[trigger] list[i].0) == ascii_lower_seq(c.0)
            && ascii_lower_seq(list[i].1) == ascii_lower_seq(c.1) {
        let i = choose|i: int|
            0 <= i < list.len() && ascii_lower_seq(#[trigger] list[i].0) == ascii_lower_seq(c.0)
                && ascii_lower_seq(list[i].1) == ascii_lower_seq(c.1);
        assert(same_ignoring_ascii_case(list[i].0, c.0));
    }
}

/// Adds the corrections `corrections` to the learned vocabulary: each one
/// unless already known (ignoring ASCII case), and its target as a custom word
/// when it is at most `MAX_CUSTOM_WORD_BYTES` bytes long and not already one.
/// Afterwards only the `MAX_LEARNED_CORRECTIONS` newest corrections are kept.
pub fn learn_corrections(vocab: &mut LearnedVocabulary, corrections: &Vec<TranscriptCorrection>)
    ensures
        corrections_view(final(vocab).learned_corrections@) == keep_newest(
            learn_all(
                (corrections_view(old(vocab).learned_corrections@), words_view(
                    old(vocab).custom_words@,
                )),
                corrections_view(corrections@),
            ).0,
        ),
        words_view(final(vocab).custom_words@) == learn_all(
            (corrections_view(old(vocab).learned_corrections@), words_view(
                old(vocab).custom_words@,
            )),
            corrections_view(corrections@),
        ).1,
{
    let ghost start = (
        corrections_view(old(vocab).learned_corrections@),
        words_view(old(vocab).custom_words@),
    );
    let ghost cv = corrections_view(corrections@);
    let mut i: usize = 0;
    while i < corrections.len()
        invariant
            i <= corrections.len(),
            cv == corrections_view(corrections@),
            (corrections_view(vocab.learned_corrections@), words_view(vocab.custom_words@))
                == learn_all(start, cv.take(i as int)),
        decreases corrections.len() - i,
    {
        let c = &corrections[i];
        let ghost before = (
            corrections_view(vocab.learned_corrections@),
            words_view(vocab.custom_words@),
        );
        assert(cv.take(i + 1).drop_last() =~= cv.take(i as int));
        assert(cv.take(i + 1).last() == correction_view(*c));
        assert(before == learn_all(start, cv.take(i as int)));
        assert(learn_all(start, cv.take(i + 1)) == learn_one(before, correction_view(*c)));
        let known = knows_correction_exec(&vocab.learned_corrections, c);
        if !known {
            let ghost old_list = vocab.learned_corrections@;
            vocab.learned_corrections.push(copy_correction(c));
            assert(corrections_view(vocab.learned_corrections@) =~= corrections_view(old_list).push(
                correction_view(*c),
            ));
        }
        assert(corrections_view(vocab.learned_corrections@) == learn_one(
            before,
            correction_view(*c),
        ).0);
        let short = c.to.as_str().len() <= MAX_CUSTOM_WORD_BYTES;
        assert(short == (utf8_byte_len(c.to@) <= MAX_CUSTOM_WORD_BYTES));
        if short && !knows_word_exec(&vocab.custom_words, &c.to) {
            let ghost old_words = vocab.custom_words@;
            vocab.custom_words.push(c.to.clone());
            assert(words_view(vocab.custom_words@) =~= words_view(old_words).push(c.to@));
        }
        assert(words_view(vocab.custom_words@) == learn_one(before, correction_view(*c)).1);
        i = i + 1;
    }
    assert(cv.take(corrections.len() as int) =~= cv);
    let n = vocab.learned_corrections.len();
    if n > MAX_LEARNED_CORRECTIONS {
        let excess = n - MAX_LEARNED_CORRECTIONS;
        let ghost full = vocab.learned_corrections@;
        let mut kept: Vec<TranscriptCorrection> = Vec::new();
        let mut j: usize = excess;
        while j < n
            invariant
                excess <= j <= n,
                n == full.len(),
                full == vocab.learned_corrections@,
                corrections_view(kept@) == corrections_view(full).subrange(excess as int, j as int),
            decreases n - j,
        {
            let ghost old_kept = kept@;
            kept.push(copy_correction(&vocab.learned_corrections[j]));
            assert(corrections_view(kept@) =~= corrections_view(old_kept).push(
                correction_view(full[j as int]),
            ));
            assert(corrections_view(full).subrange(excess as int, j + 1) =~= corrections_view(
                full,
            ).subrange(excess as int, j as int).push(correction_view(full[j as int])));
            j = j + 1;
        }
        assert(corrections_view(full).subrange(excess as int, n as int) =~= corrections_view(
            full,
        ).skip(excess as int));
        vocab.learned_corrections = kept;
    }
}

/// What a correction of `entry` to `corrected_text` is learned from: the
/// entry's shown text and the trimmed correction. `None` when the correction
/// is blank or says nothing new (equal, once both are trimmed, to the shown text).
pub fn correction_request(entry: &HistoryEntry, corrected_text: &str) -> (r: Option<
    (String, String),
>)
    ensures
        match r {
            Some((original, corrected)) => {
                &&& original@ == shown_text(*entry)
                &&& corrected@ == trim(corrected_text@)
                &&& corrected@.len() > 0
                &&& trim(shown_text(*entry)) != corrected@
            },
            None => trim(corrected_text@).len() == 0 || trim(shown_text(*entry)) == trim(
                corrected_text@,
            ),
        },
{
    let original = dashboard_text(entry).clone();
    let corrected = trim_text(corrected_text);
    if corrected.as_str().unicode_len() == 0 {
        return None;
    }
    let original_trimmed = trim_text(original.as_str());
    if same_text(original_trimmed.as_str(), corrected.as_str()) {
        return None;
    }
    Some((original, corrected))
}

} // verus!
