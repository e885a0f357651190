use tact::diarization::pyannote::{
    count_unique_speakers, long_enough_for_embedding, merge_speaker_segments, SpeakerSegment,
};
use tact::transcription::api_client::TranscriptionSegment;
use tact::transcription::service::require_speech;
use tact::transcription::vad::{
    detect_speech_segments, merge_close_segments, plan_trim, remap_segments, remap_timestamp,
    speech_trim_plan, SampleRange, SpeechSegment, TimestampMapping,
};

fn two_stretches() -> Vec<TimestampMapping> {
    vec![
        TimestampMapping { trimmed_start_ms: 0, original_start_ms: 0, duration_ms: 2000 },
        TimestampMapping { trimmed_start_ms: 2000, original_start_ms: 3000, duration_ms: 2000 },
    ]
}

#[test]
fn remap_never_moves_earlier_nor_swaps() {
    let m = two_stretches();
    let times = [0u64, 1, 1999, 2000, 2001, 3999, 4000, 4001, 9000];
    let mut previous = 0u64;
    for t in times {
        let r = remap_timestamp(t, &m);
        assert!(r >= t);
        assert!(r >= previous);
        previous = r;
    }
    assert_eq!(remap_timestamp(2000, &m), 2000);
    assert_eq!(remap_timestamp(2001, &m), 3001);
}

#[test]
fn remap_without_mappings_keeps_time() {
    assert_eq!(remap_timestamp(1234, &[]), 1234);
}

#[test]
fn remap_past_the_end_extrapolates() {
    // trimmed end is 4000; 1000 ms past it lands 1000 ms past the original end (5000)
    assert_eq!(remap_timestamp(5000, &two_stretches()), 6000);
}

#[test]
fn remap_inside_second_stretch_keeps_offset() {
    let m = two_stretches();
    for d in 1..=2000u64 {
        assert_eq!(remap_timestamp(2000 + d, &m), 3000 + d);
    }
}

#[test]
fn remap_segments_moves_both_bounds() {
    let mut segments = vec![
        TranscriptionSegment { start_ms: 500, end_ms: 1500, text: "a".to_string() },
        TranscriptionSegment { start_ms: 2001, end_ms: 3000, text: "b".to_string() },
    ];
    remap_segments(&mut segments, &two_stretches());
    assert_eq!((segments[0].start_ms, segments[0].end_ms), (500, 1500));
    assert_eq!((segments[1].start_ms, segments[1].end_ms), (3001, 4000));
    assert_eq!(segments[1].text, "b");
}

#[test]
fn merge_close_keeps_far_segments_apart() {
    let segments = vec![
        SpeechSegment { start_ms: 0, end_ms: 100 },
        SpeechSegment { start_ms: 401, end_ms: 500 },
    ];
    assert_eq!(merge_close_segments(&segments, 300).len(), 2);
    let close = vec![
        SpeechSegment { start_ms: 0, end_ms: 100 },
        SpeechSegment { start_ms: 400, end_ms: 500 },
    ];
    let merged = merge_close_segments(&close, 300);
    assert_eq!(merged, vec![SpeechSegment { start_ms: 0, end_ms: 500 }]);
    assert!(merge_close_segments(&[], 300).is_empty());
}

#[test]
fn detect_drops_short_speech_and_runs_to_end() {
    // 512-sample chunks at 16 kHz are 32 ms each.
    let flags = [false, true, true, false, false, true];
    let segments = detect_speech_segments(&flags, 512, 16000, 6 * 512);
    // 32..96 ms lasts 64 ms and is dropped; speech from 160 ms runs to the end (192 ms).
    assert_eq!(segments, vec![SpeechSegment { start_ms: 160, end_ms: 192 }]);
}

#[test]
fn detect_keeps_long_speech() {
    let flags = [true, true, true, true, true, false, false];
    let segments = detect_speech_segments(&flags, 512, 16000, 7 * 512 + 100);
    assert_eq!(segments, vec![SpeechSegment { start_ms: 0, end_ms: 160 }]);
}

#[test]
fn plan_trim_copies_speech_and_maps_it() {
    let segments = vec![
        SpeechSegment { start_ms: 0, end_ms: 1000 },
        SpeechSegment { start_ms: 2000, end_ms: 2500 },
        SpeechSegment { start_ms: 2900, end_ms: 4000 },
    ];
    let plan = plan_trim(&segments, 16000, 48000);
    assert_eq!(
        plan.sample_ranges,
        vec![
            SampleRange { start: 0, end: 16000 },
            SampleRange { start: 32000, end: 40000 },
            SampleRange { start: 46400, end: 48000 },
        ]
    );
    assert_eq!(
        plan.timestamp_mappings,
        vec![
            TimestampMapping { trimmed_start_ms: 0, original_start_ms: 0, duration_ms: 1000 },
            TimestampMapping { trimmed_start_ms: 1000, original_start_ms: 2000, duration_ms: 500 },
            TimestampMapping { trimmed_start_ms: 1500, original_start_ms: 2900, duration_ms: 1100 },
        ]
    );
    assert_eq!(plan.trimmed_duration_ms, 2600);
    // The trimmed timeline maps back onto the speech it came from.
    assert_eq!(remap_timestamp(1200, &plan.timestamp_mappings), 2200);
}

#[test]
fn plan_trim_skips_segments_past_the_recording() {
    let segments = vec![SpeechSegment { start_ms: 5000, end_ms: 6000 }];
    let plan = plan_trim(&segments, 16000, 48000);
    assert!(plan.sample_ranges.is_empty());
    assert_eq!(plan.trimmed_duration_ms, 0);
}

#[test]
fn speech_plan_merges_and_trims() {
    // 40 chunks of 32 ms: speech in chunks 0..10 and 12..20, silence elsewhere.
    let mut flags = vec![false; 40];
    for i in 0..10 {
        flags[i] = true;
    }
    for i in 12..20 {
        flags[i] = true;
    }
    let plan = speech_trim_plan(&flags, 16000, 40 * 512);
    assert_eq!(plan.original_duration_ms, 1280);
    // 0..320 and 384..640 are 64 ms apart and merge into one segment.
    assert_eq!(plan.speech_segments, vec![SpeechSegment { start_ms: 0, end_ms: 640 }]);
    assert_eq!(plan.trim.trimmed_duration_ms, 640);
    assert!(require_speech(&plan).is_ok());
}

#[test]
fn silent_recording_has_no_speech() {
    let flags = vec![false; 10];
    let plan = speech_trim_plan(&flags, 16000, 10 * 512);
    assert!(plan.speech_segments.is_empty());
    assert_eq!(require_speech(&plan), Err("No speech detected in recording".to_string()));
}

#[test]
fn merge_speaker_segments_keeps_far_turns() {
    let segments = vec![
        SpeakerSegment { speaker_id: 0, start_ms: 0, end_ms: 1000 },
        SpeakerSegment { speaker_id: 0, start_ms: 1501, end_ms: 2000 },
        SpeakerSegment { speaker_id: 1, start_ms: 2000, end_ms: 2100 },
        SpeakerSegment { speaker_id: 0, start_ms: 2100, end_ms: 2200 },
    ];
    let merged = merge_speaker_segments(&segments);
    assert_eq!(merged.len(), 4);
}

#[test]
fn count_speakers_counts_distinct_ids() {
    let segments = vec![
        SpeakerSegment { speaker_id: 0, start_ms: 0, end_ms: 1000 },
        SpeakerSegment { speaker_id: 1, start_ms: 1000, end_ms: 2000 },
        SpeakerSegment { speaker_id: 0, start_ms: 2000, end_ms: 3000 },
        SpeakerSegment { speaker_id: 2, start_ms: 3000, end_ms: 4000 },
    ];
    assert_eq!(count_unique_speakers(&segments), 3);
    assert_eq!(count_unique_speakers(&[]), 0);
}

#[test]
fn merging_turns_keeps_speaker_count() {
    let segments = vec![
        SpeakerSegment { speaker_id: 4, start_ms: 0, end_ms: 1000 },
        SpeakerSegment { speaker_id: 4, start_ms: 1100, end_ms: 2000 },
        SpeakerSegment { speaker_id: 9, start_ms: 2100, end_ms: 3000 },
        SpeakerSegment { speaker_id: 4, start_ms: 3000, end_ms: 4000 },
    ];
    let merged = merge_speaker_segments(&segments);
    assert_eq!(merged.len(), 3);
    assert_eq!(count_unique_speakers(&merged), count_unique_speakers(&segments));
}

#[test]
fn embedding_needs_a_quarter_second() {
    assert!(long_enough_for_embedding(4000, 16000));
    assert!(!long_enough_for_embedding(3999, 16000));
}
