use std::collections::HashMap;
use tact::diarization::pyannote::SpeakerSegment;
use tact::diarization::speaker_identifier::{assign_speaker_names, EnrolledSpeaker, SpeakerDatabase};
use tact::output::transcript_merger::{find_best_speaker, format_merged_transcript, MergedSegment};
use tact::output::transcript_writer::{format_timestamp, render_transcript};
use tact::text::{decimal_string, push_decimal2};
use tact::transcription::api_client::TranscriptionSegment;
use tact::transcription::service::{render_labelled_transcript, transcript_file_name};

fn seg(start_ms: u64, end_ms: u64, text: &str) -> TranscriptionSegment {
    TranscriptionSegment { start_ms, end_ms, text: text.to_string() }
}

fn merged(speaker: &str, start_ms: u64, text: &str) -> MergedSegment {
    MergedSegment { speaker: speaker.to_string(), start_ms, end_ms: start_ms + 1000, text: text.to_string() }
}

fn enrolled(name: &str) -> EnrolledSpeaker {
    EnrolledSpeaker {
        id: format!("id-{}", name),
        name: name.to_string(),
        audio_path: format!("/speakers/{}.wav", name),
        created_at: "2024-01-01T00:00:00+00:00".to_string(),
    }
}

#[test]
fn decimal_text() {
    assert_eq!(decimal_string(0), "0");
    assert_eq!(decimal_string(12345), "12345");
    assert_eq!(decimal_string(u64::MAX), u64::MAX.to_string());
    let mut s = String::from("x");
    push_decimal2(&mut s, 7);
    push_decimal2(&mut s, 42);
    push_decimal2(&mut s, 123);
    assert_eq!(s, "x0742123");
}

#[test]
fn timestamps_with_long_hours() {
    assert_eq!(format_timestamp(360000), "[100:00:00]");
    assert_eq!(format_timestamp(3599), "[00:59:59]");
}

#[test]
fn best_speaker_without_overlap_is_unknown() {
    let names = HashMap::new();
    let speakers = vec![SpeakerSegment { speaker_id: 0, start_ms: 5000, end_ms: 6000 }];
    assert_eq!(find_best_speaker(&seg(0, 1000, "x"), &speakers, &names), "Unknown");
    assert_eq!(find_best_speaker(&seg(0, 1000, "x"), &[], &names), "Unknown");
}

#[test]
fn best_speaker_prefers_longest_overlap_then_first() {
    let mut names = HashMap::new();
    names.insert(1u32, "Bob".to_string());
    let speakers = vec![
        SpeakerSegment { speaker_id: 1, start_ms: 0, end_ms: 1000 },
        SpeakerSegment { speaker_id: 3, start_ms: 1000, end_ms: 3000 },
    ];
    // overlaps 500 ms with speaker 1 and 1500 ms with unnamed speaker 3
    assert_eq!(find_best_speaker(&seg(500, 2500, "x"), &speakers, &names), "Speaker 4");
    // equal overlaps: the earlier segment wins
    assert_eq!(find_best_speaker(&seg(0, 2000, "x"), &speakers, &names), "Bob");
}

#[test]
fn labelled_transcript_groups_speakers() {
    let segments = vec![
        merged("Alice", 0, "Hello"),
        merged("Alice", 2000, "again"),
        merged("Bob", 65000, "Hi"),
    ];
    let text = format_merged_transcript(&segments, 66);
    assert_eq!(
        text,
        "**Alice**\n\n[00:00:00] Hello\n\n[00:00:02] again\n\n\n**Bob**\n\n[00:01:05] Hi\n\n---\n*Duration: 66s*\n"
    );
    let doc = render_labelled_transcript("meeting", &segments, 66);
    assert_eq!(doc, format!("# meeting\n\n{}", text));
    assert_eq!(format_merged_transcript(&[], 0), "---\n*Duration: 0s*\n");
}

#[test]
fn plain_transcript_lists_segments_or_text() {
    let segments = vec![seg(1500, 2000, "One"), seg(61000, 62000, "Two")];
    assert_eq!(
        render_transcript("rec", "One Two", &segments, 62),
        "# rec\n\n[00:00:01] One\n\n[00:01:01] Two\n\n---\n*Duration: 62s*\n"
    );
    assert_eq!(
        render_transcript("rec", "Just text", &[], 5),
        "# rec\n\nJust text\n---\n*Duration: 5s*\n"
    );
    assert_eq!(transcript_file_name("2024-01-01_10-00-00"), "2024-01-01_10-00-00.md");
}

#[test]
fn speaker_names_follow_enrollment_then_numbers() {
    let people = vec![enrolled("Ann"), enrolled("Ben"), enrolled("Cid")];
    let names = assign_speaker_names(&[2, 0, 5, 2, 7], &people);
    assert_eq!(names.len(), 4);
    assert_eq!(names[&2], "Cid");
    assert_eq!(names[&0], "Ann");
    assert_eq!(names[&5], "Speaker 1");
    assert_eq!(names[&7], "Speaker 2");
    assert!(assign_speaker_names(&[], &people).is_empty());
}

#[test]
fn speaker_database_adds_and_removes() {
    let mut db = SpeakerDatabase { speakers: vec![] };
    let added = db.add_speaker("Dana".to_string(), "/speakers/d.wav".to_string());
    assert_eq!(added.id.len(), 36);
    assert_eq!(added.name, "Dana");
    assert_eq!(db.speakers.len(), 1);
    let stamp: Vec<char> = db.speakers[0].created_at.chars().collect();
    assert!(stamp.len() >= 25);
    assert_eq!(stamp[4], '-');
    assert_eq!(stamp[7], '-');
    assert_eq!(stamp[10], 'T');
    assert_eq!(stamp[13], ':');
    assert_eq!(stamp[16], ':');
    assert_eq!(stamp[stamp.len() - 3], ':');
    assert!(stamp[stamp.len() - 6] == '+' || stamp[stamp.len() - 6] == '-');
    assert_eq!(added.id.chars().nth(8), Some('-'));
    let missing = db.remove_speaker("nope");
    assert_eq!(missing.err(), Some("Speaker not found".to_string()));
    assert_eq!(db.speakers.len(), 1);
    let removed = db.remove_speaker(&added.id).ok().unwrap();
    assert_eq!(removed.audio_path, "/speakers/d.wav");
    assert!(db.speakers.is_empty());
}
