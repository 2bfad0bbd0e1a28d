use handy::history::{
    check_entry_updated, check_retry_samples, check_retry_transcription, cleanup_plan,
    cleanup_plan_at, cleanup_plan_now, current_unix_timestamp, unix_timestamp_from, correction_request, counts_on_dashboard, dashboard_text,
    entries_beyond_limit, entry_not_found_message, finish_page, format_timestamp_title, recording_title,
    learn_corrections, new_history_entry, page_query, parse_retention_period, CleanupPlan,
    HistoryEntry, LearnedVocabulary, PageQuery, RecordingRetentionPeriod, TranscriptCorrection,
    adopted_legacy_schema_version, needs_legacy_schema_version, MAX_LEARNED_CORRECTIONS,
};

fn entry(id: i64, text: &str, post: Option<&str>) -> HistoryEntry {
    new_history_entry(
        id,
        format!("handy-{}.wav", id),
        id * 10,
        format!("Recording {}", id),
        text.to_string(),
        false,
        post.map(|p| p.to_string()),
        None,
    )
}

#[test]
fn page_query_fetches_one_more_than_the_capped_page() {
    assert_eq!(page_query(Some(50), Some(10)), PageQuery::Before { cursor: 50, fetch: 11 });
    assert_eq!(page_query(None, Some(500)), PageQuery::Newest { fetch: 101 });
    assert_eq!(page_query(Some(7), None), PageQuery::All);
}

#[test]
fn finish_page_drops_the_extra_entry_and_reports_more() {
    let fetched: Vec<HistoryEntry> = (0..4).rev().map(|i| entry(i, "x", None)).collect();
    let page = finish_page(fetched.clone(), Some(3));
    assert!(page.has_more);
    assert_eq!(page.entries.iter().map(|e| e.id).collect::<Vec<_>>(), vec![3, 2, 1]);

    let page = finish_page(fetched.clone(), Some(4));
    assert!(!page.has_more);
    assert_eq!(page.entries.len(), 4);

    let page = finish_page(fetched, None);
    assert!(!page.has_more);
    assert_eq!(page.entries.len(), 4);
}

#[test]
fn cleanup_plan_follows_the_retention_period() {
    let now = 10_000_000;
    assert_eq!(cleanup_plan(RecordingRetentionPeriod::Never, 5, now), CleanupPlan::KeepAll);
    assert_eq!(
        cleanup_plan(RecordingRetentionPeriod::PreserveLimit, 5, now),
        CleanupPlan::KeepNewest { limit: 5 }
    );
    assert_eq!(
        cleanup_plan(RecordingRetentionPeriod::Days3, 5, now),
        CleanupPlan::DropOlderThan { cutoff: now - 3 * 24 * 60 * 60 }
    );
    assert_eq!(
        cleanup_plan(RecordingRetentionPeriod::Weeks2, 5, now),
        CleanupPlan::DropOlderThan { cutoff: now - 14 * 24 * 60 * 60 }
    );
    assert_eq!(
        cleanup_plan(RecordingRetentionPeriod::Months3, 5, now),
        CleanupPlan::DropOlderThan { cutoff: now - 90 * 24 * 60 * 60 }
    );
}

#[test]
fn entries_beyond_limit_keeps_the_newest() {
    let rows: Vec<(i64, String)> = (0..5).map(|i| (i, format!("f{}.wav", i))).collect();
    assert_eq!(entries_beyond_limit(&rows, 3), vec![(3, "f3.wav".to_string()), (4, "f4.wav".to_string())]);
    assert!(entries_beyond_limit(&rows, 5).is_empty());
    assert!(entries_beyond_limit(&rows, 9).is_empty());
    assert_eq!(entries_beyond_limit(&rows, 0).len(), 5);
}

#[test]
fn retention_periods_parse_by_name() {
    assert_eq!(parse_retention_period("never"), Ok(RecordingRetentionPeriod::Never));
    assert_eq!(parse_retention_period("preserve_limit"), Ok(RecordingRetentionPeriod::PreserveLimit));
    assert_eq!(parse_retention_period("days3"), Ok(RecordingRetentionPeriod::Days3));
    assert_eq!(parse_retention_period("weeks2"), Ok(RecordingRetentionPeriod::Weeks2));
    assert_eq!(parse_retention_period("months3"), Ok(RecordingRetentionPeriod::Months3));
    assert_eq!(
        parse_retention_period("Days3"),
        Err("Invalid retention period: Days3".to_string())
    );
}

#[test]
fn dashboard_text_prefers_post_processed_text() {
    assert_eq!(dashboard_text(&entry(1, "raw", Some("processed"))), "processed");
    assert_eq!(dashboard_text(&entry(1, "raw", None)), "raw");
    assert!(counts_on_dashboard(&entry(1, "raw", None)));
    assert!(!counts_on_dashboard(&entry(1, "raw", Some("  "))));
    assert!(!counts_on_dashboard(&entry(1, "", None)));
}

#[test]
fn missing_entries_are_reported_by_id() {
    assert_eq!(entry_not_found_message(42), "History entry 42 not found");
    assert_eq!(entry_not_found_message(-7), "History entry -7 not found");
    assert_eq!(check_entry_updated(1, 3), Ok(()));
    assert_eq!(check_entry_updated(0, 3), Err("History entry 3 not found".to_string()));
}

#[test]
fn timestamp_titles_fall_back_to_the_number() {
    assert_eq!(format_timestamp_title(i64::MAX, 0), format!("Recording {}", i64::MAX));
    assert_eq!(format_timestamp_title(i64::MIN, 0), format!("Recording {}", i64::MIN));
    assert_eq!(format_timestamp_title(1_700_000_000, 86_400), "Recording 1700000000");
    assert_eq!(format_timestamp_title(1_700_000_000, -86_400), "Recording 1700000000");
}

#[test]
fn timestamp_titles_show_local_times_just_beyond_chronos_dates() {
    assert_eq!(
        format_timestamp_title(8_210_266_876_799, 3600),
        "January  1, +262143 - 12:59AM"
    );
    assert_eq!(
        format_timestamp_title(-8_334_601_228_800, -3600),
        "December 31, -262144 - 11:00PM"
    );
    assert_eq!(format_timestamp_title(1_700_000_000, 86_399), "November 15, 2023 - 10:13PM");
}

#[test]
fn recording_title_takes_the_local_text_or_the_number() {
    assert_eq!(
        recording_title(Some("March  5, 2024 -  9:07AM".to_string()), 1_709_629_620),
        "March  5, 2024 -  9:07AM"
    );
    assert_eq!(recording_title(None, 1_709_629_620), "Recording 1709629620");
    assert_eq!(recording_title(None, -5), "Recording -5");
}

#[test]
fn timestamp_titles_show_the_local_date_and_time() {
    assert_eq!(format_timestamp_title(1_700_000_000, 0), "November 14, 2023 - 10:13PM");
    assert_eq!(format_timestamp_title(1_700_000_000, 3 * 3600), "November 15, 2023 -  1:13AM");
    assert_eq!(format_timestamp_title(0, -3600), "December 31, 1969 - 11:00PM");
    assert_eq!(format_timestamp_title(-62_135_596_800 - 86_400, 0), "December 31, 0000 - 12:00AM");
    assert_eq!(format_timestamp_title(253_402_300_800, 0), "January  1, +10000 - 12:00AM");
}

#[test]
fn chrono_range_ends_where_the_library_says() {
    assert!(chrono::DateTime::from_timestamp(-8_334_601_228_800, 0).is_some());
    assert!(chrono::DateTime::from_timestamp(-8_334_601_228_801, 0).is_none());
    assert!(chrono::DateTime::from_timestamp(8_210_266_876_799, 0).is_some());
    assert!(chrono::DateTime::from_timestamp(8_210_266_876_800, 0).is_none());
    assert!(!format_timestamp_title(-8_334_601_228_800, 0).starts_with("Recording"));
    assert_eq!(format_timestamp_title(8_210_266_876_800, 0), "Recording 8210266876800");
}

#[test]
fn cleanup_plan_at_has_no_cutoff_before_the_earliest_timestamp() {
    assert_eq!(cleanup_plan_at(RecordingRetentionPeriod::Days3, 5, i64::MIN + 259_199), None);
    assert_eq!(
        cleanup_plan_at(RecordingRetentionPeriod::Days3, 5, i64::MIN + 259_200),
        Some(CleanupPlan::DropOlderThan { cutoff: i64::MIN })
    );
    assert_eq!(
        cleanup_plan_at(RecordingRetentionPeriod::Months3, 5, i64::MIN + 259_200),
        None
    );
    assert_eq!(
        cleanup_plan_at(RecordingRetentionPeriod::Never, 5, i64::MIN),
        Some(CleanupPlan::KeepAll)
    );
    assert_eq!(
        cleanup_plan_at(RecordingRetentionPeriod::PreserveLimit, 5, i64::MIN),
        Some(CleanupPlan::KeepNewest { limit: 5 })
    );
}

#[test]
fn unix_timestamps_round_down_before_the_epoch() {
    assert_eq!(unix_timestamp_from(true, 17, 999), Some(17));
    assert_eq!(unix_timestamp_from(false, 17, 0), Some(-17));
    assert_eq!(unix_timestamp_from(false, 17, 1), Some(-18));
    assert_eq!(unix_timestamp_from(true, i64::MAX as u64 + 1, 0), None);
    assert_eq!(unix_timestamp_from(false, i64::MAX as u64 + 1, 0), Some(i64::MIN));
    assert_eq!(unix_timestamp_from(false, i64::MAX as u64 + 1, 5), None);
    let now = current_unix_timestamp().unwrap();
    assert!((now - chrono::Utc::now().timestamp()).abs() <= 1);
}

#[test]
fn retries_need_samples_and_speech() {
    assert_eq!(check_retry_samples(0), Err("Recording has no audio samples".to_string()));
    assert_eq!(check_retry_samples(3), Ok(()));
    assert_eq!(check_retry_transcription(""), Err("Recording contains no speech".to_string()));
    assert_eq!(check_retry_transcription(" "), Ok(()));
}

#[test]
fn legacy_schema_version_is_adopted_only_when_recorded() {
    assert!(needs_legacy_schema_version(true, 0));
    assert!(!needs_legacy_schema_version(true, 3));
    assert!(!needs_legacy_schema_version(false, 0));
    assert_eq!(adopted_legacy_schema_version(4), Some(4));
    assert_eq!(adopted_legacy_schema_version(0), None);
}

fn corr(from: &str, to: &str) -> TranscriptCorrection {
    TranscriptCorrection { from: from.to_string(), to: to.to_string() }
}

#[test]
fn learning_corrections_skips_known_ones_ignoring_case() {
    let mut vocab = LearnedVocabulary {
        learned_corrections: vec![corr("teh", "the")],
        custom_words: vec!["Verus".to_string()],
    };
    learn_corrections(
        &mut vocab,
        &vec![corr("TEH", "The"), corr("verus", "VERUS"), corr("kubernetis", "Kubernetes"), corr("a", &"x".repeat(81))],
    );
    assert_eq!(
        vocab.learned_corrections.iter().map(|c| (c.from.as_str(), c.to.as_str())).collect::<Vec<_>>(),
        vec![("teh", "the"), ("verus", "VERUS"), ("kubernetis", "Kubernetes"), ("a", "x".repeat(81).as_str())]
    );
    assert_eq!(
        vocab.custom_words,
        vec!["Verus".to_string(), "The".to_string(), "Kubernetes".to_string()]
    );
}

#[test]
fn learning_corrections_keeps_the_newest_hundred_and_twenty() {
    let mut vocab = LearnedVocabulary { learned_corrections: vec![], custom_words: vec![] };
    let new: Vec<TranscriptCorrection> =
        (0..130).map(|i| corr(&format!("w{}", i), &format!("v{}", i))).collect();
    learn_corrections(&mut vocab, &new);
    assert_eq!(vocab.learned_corrections.len(), MAX_LEARNED_CORRECTIONS);
    assert_eq!(vocab.learned_corrections[0].from, "w10");
    assert_eq!(vocab.custom_words.len(), 130);
}

#[test]
fn correction_requests_need_a_new_non_blank_text() {
    let e = entry(1, "raw text", Some(" processed text "));
    assert_eq!(
        correction_request(&e, "  fixed text "),
        Some((" processed text ".to_string(), "fixed text".to_string()))
    );
    assert_eq!(correction_request(&e, "   "), None);
    assert_eq!(correction_request(&e, "processed text"), None);
}

#[test]
fn cleanup_plan_now_uses_the_clock() {
    let before = chrono::Utc::now().timestamp();
    let plan = cleanup_plan_now(RecordingRetentionPeriod::Days3, 5);
    let after = chrono::Utc::now().timestamp();
    match plan {
        Some(CleanupPlan::DropOlderThan { cutoff }) => {
            assert!(before - 259_200 <= cutoff && cutoff <= after - 259_200);
        }
        other => panic!("unexpected plan {:?}", other),
    }
    assert_eq!(cleanup_plan_now(RecordingRetentionPeriod::Never, 5), Some(CleanupPlan::KeepAll));
    assert_eq!(
        cleanup_plan_now(RecordingRetentionPeriod::PreserveLimit, 5),
        Some(CleanupPlan::KeepNewest { limit: 5 })
    );
}
