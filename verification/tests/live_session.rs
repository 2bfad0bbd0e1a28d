use handy::live::{
    finished_partial, flag_enabled, overlay_dimensions, overlay_placement, OverlayPlacement, is_mouse_within_monitor, live_session_wanted, live_transcript_chunk,
    should_show_overlay, LiveTranscriptPosition, LiveTranscriptProgress, OverlayPosition,
    OverlaySettings, ScreenPosition, ScreenSize, LIVE_TRANSCRIPT_MIN_NEW_SAMPLES,
    LIVE_TRANSCRIPT_MIN_SAMPLES, LIVE_TRANSCRIPT_ROLLING_WINDOW_SAMPLES,
};

#[test]
fn live_transcript_chunk_uses_recent_audio_window() {
    let samples = vec![0.0f32; LIVE_TRANSCRIPT_ROLLING_WINDOW_SAMPLES + 128];
    let chunk = live_transcript_chunk(&samples);

    assert_eq!(chunk.len(), LIVE_TRANSCRIPT_ROLLING_WINDOW_SAMPLES);
}

#[test]
fn live_transcript_chunk_keeps_short_audio_intact() {
    let samples = vec![0.0f32; LIVE_TRANSCRIPT_ROLLING_WINDOW_SAMPLES - 128];
    let chunk = live_transcript_chunk(&samples);

    assert_eq!(chunk.len(), samples.len());
}

#[test]
fn live_transcript_chunk_keeps_the_latest_samples() {
    let samples: Vec<u32> = (0..(LIVE_TRANSCRIPT_ROLLING_WINDOW_SAMPLES as u32 + 5)).collect();
    let chunk = live_transcript_chunk(&samples);
    assert_eq!(chunk[0], 5);
    assert_eq!(*chunk.last().unwrap(), LIVE_TRANSCRIPT_ROLLING_WINDOW_SAMPLES as u32 + 4);
}

fn settings(
    overlay_position: OverlayPosition,
    live_transcript_enabled: bool,
    live_transcript_position: LiveTranscriptPosition,
) -> OverlaySettings {
    OverlaySettings { overlay_position, live_transcript_enabled, live_transcript_position }
}

#[test]
fn overlay_shows_unless_hidden_without_a_separate_live_transcript() {
    assert!(should_show_overlay(&settings(OverlayPosition::Top, false, LiveTranscriptPosition::ExistingOverlay)));
    assert!(should_show_overlay(&settings(OverlayPosition::Bottom, true, LiveTranscriptPosition::NearCursor)));
    assert!(!should_show_overlay(&settings(OverlayPosition::Hidden, false, LiveTranscriptPosition::NearCursor)));
    assert!(!should_show_overlay(&settings(OverlayPosition::Hidden, true, LiveTranscriptPosition::ExistingOverlay)));
    assert!(should_show_overlay(&settings(OverlayPosition::Hidden, true, LiveTranscriptPosition::BottomCenter)));
}

#[test]
fn mouse_within_monitor_includes_near_edges_only() {
    let pos = ScreenPosition { x: -100, y: 0 };
    let size = ScreenSize { width: 200, height: 50 };
    assert!(is_mouse_within_monitor((-100, 0), &pos, &size));
    assert!(is_mouse_within_monitor((99, 49), &pos, &size));
    assert!(!is_mouse_within_monitor((100, 10), &pos, &size));
    assert!(!is_mouse_within_monitor((0, 50), &pos, &size));
    assert!(!is_mouse_within_monitor((-101, 10), &pos, &size));
}

#[test]
fn live_session_needs_live_transcript_and_a_resident_model() {
    assert!(live_session_wanted(true, false));
    assert!(!live_session_wanted(true, true));
    assert!(!live_session_wanted(false, false));
}

#[test]
fn live_progress_waits_for_enough_new_audio() {
    let mut p = LiveTranscriptProgress::new();
    assert!(!p.should_transcribe(LIVE_TRANSCRIPT_MIN_SAMPLES - 1));
    assert!(p.should_transcribe(LIVE_TRANSCRIPT_MIN_SAMPLES));
    assert_eq!(p.last_attempt_sample_len, LIVE_TRANSCRIPT_MIN_SAMPLES);
    assert!(!p.should_transcribe(LIVE_TRANSCRIPT_MIN_SAMPLES + LIVE_TRANSCRIPT_MIN_NEW_SAMPLES - 1));
    assert_eq!(p.last_attempt_sample_len, LIVE_TRANSCRIPT_MIN_SAMPLES);
    assert!(p.should_transcribe(LIVE_TRANSCRIPT_MIN_SAMPLES + LIVE_TRANSCRIPT_MIN_NEW_SAMPLES));
}

#[test]
fn live_progress_shows_each_new_transcript_once() {
    let mut p = LiveTranscriptProgress::new();
    assert_eq!(p.accept_transcription("  "), None);
    assert_eq!(p.accept_transcription(" hello world "), Some("hello world".to_string()));
    assert_eq!(p.accept_transcription("world"), None);
    assert_eq!(
        p.accept_transcription("world this is live"),
        Some("hello world this is live".to_string())
    );
    assert_eq!(p.partial_text, "hello world this is live");
    assert_eq!(p.last_emitted_text, "hello world this is live");
}

#[test]
fn finished_partial_is_trimmed_and_never_blank() {
    assert_eq!(finished_partial("  some text \n"), Some("some text".to_string()));
    assert_eq!(finished_partial(" \t "), None);
}

#[test]
fn flags_are_on_unless_unset_or_falsy() {
    assert!(flag_enabled(Some("1")));
    assert!(flag_enabled(Some(" Yes ")));
    assert!(flag_enabled(Some("TRUE")));
    assert!(!flag_enabled(Some(" OFF ")));
    assert!(!flag_enabled(Some("False")));
    assert!(!flag_enabled(Some("0")));
    assert!(!flag_enabled(Some("no")));
    assert!(!flag_enabled(Some("   ")));
    assert!(!flag_enabled(None));
}

#[test]
fn overlay_size_and_place_follow_the_live_transcript() {
    let live_near = settings(OverlayPosition::Top, true, LiveTranscriptPosition::NearCursor);
    assert_eq!(overlay_dimensions(&live_near), (560, 220));
    assert_eq!(
        overlay_dimensions(&settings(OverlayPosition::Top, false, LiveTranscriptPosition::NearCursor)),
        (172, 36)
    );
    assert_eq!(overlay_placement(&live_near, true), OverlayPlacement::NearCursor);
    assert_eq!(overlay_placement(&live_near, false), OverlayPlacement::Top);
    assert_eq!(
        overlay_placement(
            &settings(OverlayPosition::Top, true, LiveTranscriptPosition::BottomCenter),
            true
        ),
        OverlayPlacement::Bottom
    );
    assert_eq!(
        overlay_placement(
            &settings(OverlayPosition::Hidden, false, LiveTranscriptPosition::ExistingOverlay),
            true
        ),
        OverlayPlacement::Bottom
    );
}
