use handy::live::merge_live_partial;

#[test]
fn merge_live_partial_deduplicates_overlapping_words() {
    let merged = merge_live_partial("hello world", "world this is live");

    assert_eq!(merged, "hello world this is live");
}

#[test]
fn merge_live_partial_handles_punctuation_overlap() {
    let merged = merge_live_partial("hello, world", "World this is live");

    assert_eq!(merged, "hello, world this is live");
}

#[test]
fn merge_live_partial_deduplicates_update_starting_inside_recent_tail() {
    let merged = merge_live_partial(
        "I have explained this five times and the live transcript",
        "this five times and the live transcript should keep going",
    );

    assert_eq!(
        merged,
        "I have explained this five times and the live transcript should keep going"
    );
}

#[test]
fn merge_live_partial_skips_update_already_present() {
    let merged = merge_live_partial(
        "this is already in the transcript and should stay",
        "already in the transcript",
    );

    assert_eq!(merged, "this is already in the transcript and should stay");
}

#[test]
fn merge_live_partial_empty_sides_yield_the_other_trimmed() {
    assert_eq!(merge_live_partial("   ", "  new words "), "new words");
    assert_eq!(merge_live_partial(" kept text ", "\t"), "kept text");
    assert_eq!(merge_live_partial("", ""), "");
}

#[test]
fn merge_live_partial_appends_unrelated_update() {
    assert_eq!(
        merge_live_partial("good morning", "see you later"),
        "good morning see you later"
    );
}

#[test]
fn merge_live_partial_full_overlap_keeps_existing() {
    // The update is entirely the tail of the transcript: nothing is left to add.
    assert_eq!(merge_live_partial("one two three", "Two, three!"), "one two three");
}

#[test]
fn merge_live_partial_tail_match_too_far_back_appends_whole_update() {
    let existing = "alpha beta gamma w1 w2 w3 w4 w5 w6 w7 w8 w9 w10 w11 w12 w13";
    let merged = merge_live_partial(existing, "alpha beta gamma delta");
    assert_eq!(
        merged,
        "alpha beta gamma w1 w2 w3 w4 w5 w6 w7 w8 w9 w10 w11 w12 w13 alpha beta gamma delta"
    );
}

#[test]
fn merge_live_partial_punctuation_only_update_words_shift_the_remainder() {
    // "-" has no alphanumeric character, so it is left out of the normalised
    // words but still counts when the rest of the update is taken.
    assert_eq!(
        merge_live_partial("hello world", "- world again"),
        "hello world world again"
    );
}
