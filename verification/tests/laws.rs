use handy::history::{
    finish_page, learn_corrections, new_history_entry, page_query, HistoryEntry, LearnedVocabulary,
    PageQuery, TranscriptCorrection,
};
use handy::live::merge_live_partial;
use handy::stats::{calculate_daily_streak, record_dashboard_dictation, DashboardTotals, SECONDS_PER_DAY};
use handy::text::{count_transcript_words, normalize_transcript_word, normalized_words};
use std::collections::BTreeSet;

#[test]
fn law_word_count_matches_normalized_words_on_examples() {
    for text in ["", "  hello, WORLD -- 42! ", "... ?!", "one two three", "é ß 漢字 -"] {
        assert_eq!(count_transcript_words(text), normalized_words(text).len() as u64);
    }
}

#[test]
fn law_merge_keeps_existing_transcript_on_examples() {
    let merged = merge_live_partial("  first part ", "something else");
    assert!(merged.starts_with("first part"));
    assert_eq!(merge_live_partial(" kept ", "   "), "kept");
    assert_eq!(merge_live_partial("  ", " taken "), "taken");
}

#[test]
fn law_merge_with_itself_on_examples() {
    assert_eq!(merge_live_partial(" a b c ", " a b c "), "a b c");
    assert_eq!(merge_live_partial("Hello, World", "Hello, World"), "Hello, World");
}

#[test]
fn law_merge_ignores_repeated_update_on_examples() {
    assert_eq!(merge_live_partial("one two three four", "TWO three"), "one two three four");
}

#[test]
fn law_recording_today_starts_streak_on_examples() {
    let now = SECONDS_PER_DAY * 42 + 17;
    let mut totals = DashboardTotals::default();
    let mut days: BTreeSet<i64> = [1, 2, 3].into_iter().collect();
    record_dashboard_dictation(&mut totals, &mut days, now, "spoken words");
    assert!(calculate_daily_streak(&days, now) >= 1);
}

#[test]
fn law_streak_countable_on_examples() {
    let days: BTreeSet<i64> = [i64::MIN + 1, i64::MIN + 2, 0].into_iter().collect();
    assert_eq!(calculate_daily_streak(&days, 0), 1);
}

#[test]
fn law_page_holds_at_most_its_size_on_examples() {
    let fetched: Vec<_> = (0..11)
        .map(|i| new_history_entry(i, String::new(), i, String::new(), String::new(), false, None, None))
        .collect();
    let page = finish_page(fetched, Some(10));
    assert_eq!(page.entries.len(), 10);
    assert_eq!(page.entries[0].id, 0);
    assert!(page.has_more);
}

#[test]
fn law_learning_keeps_vocabulary_distinct_on_examples() {
    let c = |f: &str, t: &str| TranscriptCorrection { from: f.to_string(), to: t.to_string() };
    let mut vocab = LearnedVocabulary { learned_corrections: vec![], custom_words: vec![] };
    learn_corrections(&mut vocab, &vec![c("a", "B"), c("A", "b"), c("x", "b"), c("a", "B")]);
    assert_eq!(vocab.learned_corrections.len(), 2);
    assert_eq!(vocab.custom_words, vec!["B".to_string()]);
}

#[test]
fn law_normalized_word_is_normal_on_examples() {
    for w in ["\"Hello,", "--", "ÉCOLE!", "x", "(A1b2C)"] {
        let n = normalize_transcript_word(w);
        assert_eq!(normalize_transcript_word(&n), n);
        assert!(!n.chars().any(|c| c.is_ascii_uppercase()));
        if let Some(first) = n.chars().next() {
            assert!(first.is_alphanumeric() && n.chars().last().unwrap().is_alphanumeric());
        }
    }
}

#[test]
fn law_normalized_words_are_normal_on_examples() {
    for w in normalized_words("  Hello, WORLD -- 42! ") {
        assert!(!w.is_empty());
        assert_eq!(normalize_transcript_word(&w), w);
    }
}

#[test]
fn law_joined_text_words_add_up_on_examples() {
    let (a, b) = ("one, Two ", "-- three");
    let joined = format!("{} {}", a, b);
    let mut both = normalized_words(a);
    both.extend(normalized_words(b));
    assert_eq!(normalized_words(&joined), both);
    assert_eq!(count_transcript_words(&joined), count_transcript_words(a) + count_transcript_words(b));
}

/// What a read of `q` returns from `rows`, which run newest first.
fn run_query(rows: &[HistoryEntry], q: PageQuery) -> Vec<HistoryEntry> {
    match q {
        PageQuery::Before { cursor, fetch } => rows
            .iter()
            .filter(|e| e.id < cursor)
            .take(fetch as usize)
            .cloned()
            .collect(),
        PageQuery::Newest { fetch } => rows.iter().take(fetch as usize).cloned().collect(),
        PageQuery::All => rows.to_vec(),
    }
}

#[test]
fn law_pages_cover_history_once_on_examples() {
    for (count, limit) in [(0i64, 1usize), (5, 1), (5, 2), (6, 3), (7, 10), (250, 100), (250, 500)] {
        let rows: Vec<HistoryEntry> = (1..=count)
            .rev()
            .map(|id| {
                new_history_entry(
                    id * 3,
                    format!("handy-{}.wav", id),
                    id,
                    format!("Recording {}", id),
                    "text".to_string(),
                    false,
                    None,
                    None,
                )
            })
            .collect();
        let mut shown: Vec<i64> = Vec::new();
        let mut cursor: Option<i64> = None;
        let mut reads = 0;
        loop {
            reads += 1;
            let page = finish_page(run_query(&rows, page_query(cursor, Some(limit))), Some(limit));
            shown.extend(page.entries.iter().map(|e| e.id));
            if !page.has_more {
                break;
            }
            cursor = page.entries.last().map(|e| e.id);
        }
        assert_eq!(shown, rows.iter().map(|e| e.id).collect::<Vec<_>>());
        assert!(reads <= count.max(1));
    }
}
