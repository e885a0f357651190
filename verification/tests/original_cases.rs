use std::collections::HashMap;
use tact::diarization::pyannote::{merge_speaker_segments, SpeakerSegment};
use tact::output::transcript_merger::{find_best_speaker, merge};
use tact::output::transcript_writer::format_timestamp;
use tact::transcription::api_client::TranscriptionSegment;
use tact::transcription::vad::{merge_close_segments, remap_timestamp, SpeechSegment, TimestampMapping};

fn segment(start: f64, end: f64, text: &str) -> TranscriptionSegment {
    TranscriptionSegment {
        start_ms: (start * 1000.0) as u64,
        end_ms: (end * 1000.0) as u64,
        text: text.to_string(),
    }
}

#[test]
fn test_merge_speaker_segments() {
    let segments = vec![
        SpeakerSegment { speaker_id: 0, start_ms: 0, end_ms: 1000 },
        SpeakerSegment { speaker_id: 0, start_ms: 1100, end_ms: 2000 },
        SpeakerSegment { speaker_id: 1, start_ms: 2500, end_ms: 3500 },
        SpeakerSegment { speaker_id: 1, start_ms: 3600, end_ms: 5000 },
    ];
    let merged = merge_speaker_segments(&segments);
    assert_eq!(merged.len(), 2);
    assert_eq!(merged[0].speaker_id, 0);
    assert_eq!(merged[0].end_ms, 2000);
    assert_eq!(merged[1].speaker_id, 1);
    assert_eq!(merged[1].end_ms, 5000);
}

#[test]
fn test_find_best_speaker() {
    let segment = segment(1.0, 3.0, "Hello world");

    let speaker_segments = vec![
        SpeakerSegment { speaker_id: 0, start_ms: 0, end_ms: 2000 },
        SpeakerSegment { speaker_id: 1, start_ms: 2000, end_ms: 4000 },
    ];

    let mut names = HashMap::new();
    names.insert(0, "Alice".to_string());
    names.insert(1, "Bob".to_string());

    // Both speakers overlap by 1000 ms; the first one found wins.
    let speaker = find_best_speaker(&segment, &speaker_segments, &names);
    assert!(speaker == "Alice" || speaker == "Bob");
}

#[test]
fn test_merge_assigns_speakers() {
    let transcript = vec![segment(0.0, 2.0, "Hello"), segment(2.5, 4.0, "Hi there")];

    let speakers = vec![
        SpeakerSegment { speaker_id: 0, start_ms: 0, end_ms: 2500 },
        SpeakerSegment { speaker_id: 1, start_ms: 2500, end_ms: 5000 },
    ];

    let mut names = HashMap::new();
    names.insert(0, "Alice".to_string());
    names.insert(1, "Bob".to_string());

    let merged = merge(&transcript, &speakers, &names);
    assert_eq!(merged.len(), 2);
    assert_eq!(merged[0].speaker, "Alice");
    assert_eq!(merged[1].speaker, "Bob");
}

#[test]
fn test_format_timestamp() {
    assert_eq!(format_timestamp(0.0f64 as u64), "[00:00:00]");
    assert_eq!(format_timestamp(65.0f64 as u64), "[00:01:05]");
    assert_eq!(format_timestamp(3661.0f64 as u64), "[01:01:01]");
}

#[test]
fn test_merge_close_segments() {
    let segments = vec![
        SpeechSegment { start_ms: 0, end_ms: 1000 },
        SpeechSegment { start_ms: 1200, end_ms: 2000 },
        SpeechSegment { start_ms: 3000, end_ms: 4000 },
    ];
    let merged = merge_close_segments(&segments, 300);
    assert_eq!(merged.len(), 2);
    assert_eq!(merged[0].end_ms, 2000);
    assert_eq!(merged[1].start_ms, 3000);
}

#[test]
fn test_remap_timestamp() {
    let mappings = vec![
        TimestampMapping { trimmed_start_ms: 0, original_start_ms: 0, duration_ms: 2000 },
        TimestampMapping { trimmed_start_ms: 2000, original_start_ms: 3000, duration_ms: 2000 },
    ];

    assert_eq!(remap_timestamp(0, &mappings), 0);
    assert_eq!(remap_timestamp(1000, &mappings), 1000);
    assert_eq!(remap_timestamp(2000, &mappings), 2000); // boundary: end of first mapping
    assert_eq!(remap_timestamp(2001, &mappings), 3001); // just into second mapping
    assert_eq!(remap_timestamp(3000, &mappings), 4000);
}
