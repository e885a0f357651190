//! Assigning diarized speakers to transcription segments, and the Markdown
//! transcript with speaker labels.

use vstd::prelude::*;
use std::collections::HashMap;
use crate::diarization::pyannote::SpeakerSegment;
use crate::output::transcript_writer::{
    duration_footer,
    format_timestamp,
    push_duration_footer,
    timestamp_text,
};
use crate::text::{decimal, push_decimal};
use crate::transcription::api_client::TranscriptionSegment;

verus! {

broadcast use vstd::std_specs::hash::group_hash_axioms;

/// A merged segment with speaker label, text, and timestamps in milliseconds.
#[derive(Debug, Clone)]
pub struct MergedSegment {
    pub speaker: String,
    pub start_ms: u64,
    pub end_ms: u64,
    pub text: String,
}

/// How long two time ranges overlap (zero or negative when they do not).
pub open spec fn overlap_ms(start: int, end: int, other_start: int, other_end: int) -> int {
    let lo = if start > other_start { start } else { other_start };
    let hi = if end < other_end { end } else { other_end };
    hi - lo
}

/// The largest positive overlap found so far among the speaker segments, and
/// the speaker of the first segment that reached it.
pub open spec fn best_overlap(start: int, end: int, s: Seq<SpeakerSegment>) -> (int, Option<u32>)
    decreases s.len(),
{
    if s.len() == 0 {
        (0, None)
    } else {
        let prev = best_overlap(start, end, s.drop_last());
        let g = s.last();
        let o = overlap_ms(start, end, g.start_ms as int, g.end_ms as int);
        if o > 0 && o > prev.0 {
            (o, Some(g.speaker_id))
        } else {
            prev
        }
    }
}

/// The label for a speaker: its name where one is known, else `Speaker N`
/// with `N` one more than its id; `Unknown` when no speaker overlapped.
pub open spec fn speaker_label(best: Option<u32>, names: Map<u32, String>) -> Seq<char> {
    match best {
        Some(id) => if names.contains_key(id) {
            names[id]@
        } else {
            "Speaker "@ + decimal((id + 1) as nat)
        },
        None => "Unknown"@,
    }
}

/// The label can be written: an unnamed speaker's number fits in a `u32`.
pub open spec fn label_fits(best: Option<u32>, names: Map<u32, String>) -> bool {
    best matches Some(id) ==> (names.contains_key(id) || id < u32::MAX)
}

proof fn lemma_best_overlap(start: int, end: int, s: Seq<SpeakerSegment>)
    ensures
        best_overlap(start, end, s).0 >= 0,
        best_overlap(start, end, s).1 is None <==> best_overlap(start, end, s).0 == 0,
        forall|j: int|
            0 <= j < s.len() ==> overlap_ms(
                start,
                end,
                (#[trigger] s[j]).start_ms as int,
                s[j].end_ms as int,
            ) <= best_overlap(start, end, s).0,
        best_overlap(start, end, s).1 matches Some(id) ==> exists|j: int|
            0 <= j < s.len() && (#[trigger] s[j]).speaker_id == id && overlap_ms(
                start,
                end,
                s[j].start_ms as int,
                s[j].end_ms as int,
            ) == best_overlap(start, end, s).0 && forall|k: int|
                0 <= k < j ==> overlap_ms(
                    start,
                    end,
                    (#[trigger] s[k]).start_ms as int,
                    s[k].end_ms as int,
                ) < best_overlap(start, end, s).0,
    decreases s.len(),
{
    if s.len() > 0 {
        let p = s.drop_last();
        lemma_best_overlap(start, end, p);
        let prev = best_overlap(start, end, p);
        let g = s.last();
        let o = overlap_ms(start, end, g.start_ms as int, g.end_ms as int);
        assert forall|j: int| 0 <= j < s.len() - 1 implies #[trigger] s[j] == p[j] by {}
        if o > 0 && o > prev.0 {
            let j = s.len() - 1;
            assert(s[j].speaker_id == g.speaker_id);
            assert forall|k: int| 0 <= k < j implies overlap_ms(
                start,
                end,
                (#[trigger] s[k]).start_ms as int,
                s[k].end_ms as int,
            ) < o by {
                assert(s[k] == p[k]);
            }
        } else {
            if prev.1 is Some {
                let id = prev.1->0;
                let j = choose|j: int|
                    0 <= j < p.len() && (#[trigger] p[j]).speaker_id == id && overlap_ms(
                        start,
                        end,
                        p[j].start_ms as int,
                        p[j].end_ms as int,
                    ) == prev.0 && forall|k: int|
                        0 <= k < j ==> overlap_ms(
                            start,
                            end,
                            (#[trigger] p[k]).start_ms as int,
                            p[k].end_ms as int,
                        ) < prev.0;
                assert(s[j] == p[j]);
                assert forall|k: int| 0 <= k < j implies overlap_ms(
                    start,
                    end,
                    (#[trigger] s[k]).start_ms as int,
                    s[k].end_ms as int,
                ) < prev.0 by {
                    assert(s[k] == p[k]);
                }
            }
        }
    }
}

/// The speaker whose diarization segment overlaps the transcription segment
/// the longest (the earliest such segment on a tie) is the one with the
/// largest overlap: no segment overlaps longer, no earlier segment as long,
/// and there is no speaker exactly when no segment overlaps at all.
pub proof fn lemma_best_speaker_overlaps_most(
    segment: TranscriptionSegment,
    speaker_segments: Seq<SpeakerSegment>,
)
    ensures
        ({
            let start = segment.start_ms as int;
            let end = segment.end_ms as int;
            let best = best_overlap(start, end, speaker_segments);
            &&& best.1 is None <==> forall|j: int|
                0 <= j < speaker_segments.len() ==> overlap_ms(
                    start,
                    end,
                    (#[trigger] speaker_segments[j]).start_ms as int,
                    speaker_segments[j].end_ms as int,
                ) <= 0
            &&& best.1 matches Some(id) ==> exists|j: int|
                0 <= j < speaker_segments.len() && (#[trigger] speaker_segments[j]).speaker_id == id
                    && forall|k: int|
                    0 <= k < speaker_segments.len() ==> overlap_ms(
                        start,
                        end,
                        (#[trigger] speaker_segments[k]).start_ms as int,
                        speaker_segments[k].end_ms as int,
                    ) <= overlap_ms(
                        start,
                        end,
                        speaker_segments[j].start_ms as int,
                        speaker_segments[j].end_ms as int,
                    ) && (k < j ==> overlap_ms(
                        start,
                        end,
                        speaker_segments[k].start_ms as int,
                        speaker_segments[k].end_ms as int,
                    ) < overlap_ms(
                        start,
                        end,
                        speaker_segments[j].start_ms as int,
                        speaker_segments[j].end_ms as int,
                    ))
        }),
{
    let start = segment.start_ms as int;
    let end = segment.end_ms as int;
    lemma_best_overlap(start, end, speaker_segments);
    let best = best_overlap(start, end, speaker_segments);
    if best.1 is None {
    } else {
        assert(exists|j: int|
            0 <= j < speaker_segments.len() && overlap_ms(
                start,
                end,
                (#[trigger] speaker_segments[j]).start_ms as int,
                speaker_segments[j].end_ms as int,
            ) > 0);
    }
}

/// The speaker a transcription segment is labelled with, with the overlap of
/// two time ranges written out as the earlier end minus the later start: the
/// label names the speaker of a segment that overlaps the transcription
/// segment by a positive amount, no other segment overlaps it longer and no
/// earlier one as long; and the label is `Unknown` exactly when no segment
/// overlaps it by a positive amount.
pub proof fn lemma_label_is_longest_overlap(
    segment: TranscriptionSegment,
    speaker_segments: Seq<SpeakerSegment>,
    names: Map<u32, String>,
)
    ensures
        ({
            let ov = |g: SpeakerSegment|
                (if segment.end_ms < g.end_ms {
                    segment.end_ms as int
                } else {
                    g.end_ms as int
                }) - (if segment.start_ms > g.start_ms {
                    segment.start_ms as int
                } else {
                    g.start_ms as int
                });
            let best = best_overlap(
                segment.start_ms as int,
                segment.end_ms as int,
                speaker_segments,
            ).1;
            &&& (speaker_label(best, names) == "Unknown"@ && best is None) <==> forall|k: int|
                0 <= k < speaker_segments.len() ==> ov(#[trigger] speaker_segments[k]) <= 0
            &&& best matches Some(id) ==> exists|j: int|
                #![trigger speaker_segments[j]]
                0 <= j < speaker_segments.len() && speaker_segments[j].speaker_id == id && ov(
                    speaker_segments[j],
                ) > 0 && speaker_label(best, names) == (if names.contains_key(id) {
                    names[id]@
                } else {
                    "Speaker "@ + decimal((id + 1) as nat)
                }) && forall|k: int|
                    0 <= k < speaker_segments.len() ==> ov(#[trigger] speaker_segments[k]) <= ov(
                        speaker_segments[j],
                    ) && (k < j ==> ov(speaker_segments[k]) < ov(speaker_segments[j]))
        }),
{
    lemma_best_speaker_overlaps_most(segment, speaker_segments);
    lemma_best_overlap(segment.start_ms as int, segment.end_ms as int, speaker_segments);
}

/// Every speaker of the segments has a writable label: a name, or an id
/// whose successor fits in a `u32`.
pub open spec fn speakers_labelable(s: Seq<SpeakerSegment>, names: Map<u32, String>) -> bool {
    forall|j: int|
        0 <= j < s.len() ==> (#[trigger] s[j]).speaker_id < u32::MAX || names.contains_key(
            s[j].speaker_id,
        )
}

/// Whether every speaker of the segments has a writable label; when it
/// answers yes, `merge` may be called with any transcription segments.
pub fn speaker_labels_fit(speaker_segments: &[SpeakerSegment], speaker_names: &HashMap<u32, String>) -> (ok: bool)
    ensures
        ok == speakers_labelable(speaker_segments@, speaker_names@),
        ok ==> forall|t: Seq<TranscriptionSegment>| labels_fit(t, speaker_segments@, speaker_names@),
{
    let mut i: usize = 0;
    while i < speaker_segments.len()
        invariant
            i <= speaker_segments.len(),
            forall|j: int|
                0 <= j < i ==> (#[trigger] speaker_segments@[j]).speaker_id < u32::MAX
                    || speaker_names@.contains_key(speaker_segments@[j].speaker_id),
        decreases speaker_segments.len() - i,
    {
        let id = speaker_segments[i].speaker_id;
        if id == u32::MAX && !speaker_names.contains_key(&id) {
            return false;
        }
        i = i + 1;
    }
    proof {
        assert forall|t: Seq<TranscriptionSegment>| labels_fit(
            t,
            speaker_segments@,
            speaker_names@,
        ) by {
            assert forall|k: int| 0 <= k < t.len() implies label_fits(
                best_overlap(
                    (#[trigger] t[k]).start_ms as int,
                    t[k].end_ms as int,
                    speaker_segments@,
                ).1,
                speaker_names@,
            ) by {
                lemma_best_overlap(t[k].start_ms as int, t[k].end_ms as int, speaker_segments@);
            }
        }
    }
    true
}

/// Find the speaker with maximum overlap for a given transcription segment.
pub fn find_best_speaker(
    segment: &TranscriptionSegment,
    speaker_segments: &[SpeakerSegment],
    speaker_names: &HashMap<u32, String>,
) -> (label: String)
    requires
        label_fits(
            best_overlap(segment.start_ms as int, segment.end_ms as int, speaker_segments@).1,
            speaker_names@,
        ),
    ensures
        label@ == speaker_label(
            best_overlap(segment.start_ms as int, segment.end_ms as int, speaker_segments@).1,
            speaker_names@,
        ),
{
    let seg_start_ms = segment.start_ms;
    let seg_end_ms = segment.end_ms;
    let mut best: u64 = 0;
    let mut best_speaker_id: Option<u32> = None;
    let mut i: usize = 0;
    assert(speaker_segments@.subrange(0, 0) =~= Seq::<SpeakerSegment>::empty());
    while i < speaker_segments.len()
        invariant
            i <= speaker_segments.len(),
            seg_start_ms == segment.start_ms,
            seg_end_ms == segment.end_ms,
            best as int == best_overlap(
                seg_start_ms as int,
                seg_end_ms as int,
                speaker_segments@.subrange(0, i as int),
            ).0,
            best_speaker_id == best_overlap(
                seg_start_ms as int,
                seg_end_ms as int,
                speaker_segments@.subrange(0, i as int),
            ).1,
        decreases speaker_segments.len() - i,
    {
        let ss = speaker_segments[i];
        proof {
            let p = speaker_segments@.subrange(0, i + 1);
            assert(p.drop_last() =~= speaker_segments@.subrange(0, i as int));
            assert(p.last() == ss);
        }
        let overlap_start = if seg_start_ms > ss.start_ms {
            seg_start_ms
        } else {
            ss.start_ms
        };
        let overlap_end = if seg_end_ms < ss.end_ms {
            seg_end_ms
        } else {
            ss.end_ms
        };
        if overlap_end > overlap_start {
            let overlap = overlap_end - overlap_start;
            if overlap > best {
                best = overlap;
                best_speaker_id = Some(ss.speaker_id);
            }
        }
        i = i + 1;
    }
    assert(speaker_segments@.subrange(0, speaker_segments.len() as int) =~= speaker_segments@);
    match best_speaker_id {
        Some(id) => match speaker_names.get(&id) {
            Some(name) => name.clone(),
            None => {
                let mut label = String::new();
                label.append("Speaker ");
                push_decimal(&mut label, (id + 1) as u64);
                assert(label@ =~= "Speaker "@ + decimal((id + 1) as nat));
                label
            },
        },
        None => {
            proof {
                reveal_strlit("Unknown");
            }
            "Unknown".to_owned()
        },
    }
}

/// A transcription segment together with its speaker's label.
pub open spec fn merged_from(
    ts: TranscriptionSegment,
    speaker_segments: Seq<SpeakerSegment>,
    names: Map<u32, String>,
    m: MergedSegment,
) -> bool {
    &&& m.speaker@ == speaker_label(
        best_overlap(ts.start_ms as int, ts.end_ms as int, speaker_segments).1,
        names,
    )
    &&& m.start_ms == ts.start_ms
    &&& m.end_ms == ts.end_ms
    &&& m.text == ts.text
}

/// Every transcription segment's label can be written.
pub open spec fn labels_fit(
    transcript: Seq<TranscriptionSegment>,
    speaker_segments: Seq<SpeakerSegment>,
    names: Map<u32, String>,
) -> bool {
    forall|i: int|
        0 <= i < transcript.len() ==> label_fits(
            best_overlap(
                (#[trigger] transcript[i]).start_ms as int,
                transcript[i].end_ms as int,
                speaker_segments,
            ).1,
            names,
        )
}

/// Merge API transcription segments with diarization speaker segments.
///
/// For each transcription segment, finds the diarization segment with the
/// maximum time overlap and assigns that speaker.
pub fn merge(
    transcript_segments: &[TranscriptionSegment],
    speaker_segments: &[SpeakerSegment],
    speaker_names: &HashMap<u32, String>,
) -> (merged: Vec<MergedSegment>)
    requires
        labels_fit(transcript_segments@, speaker_segments@, speaker_names@),
    ensures
        merged.len() == transcript_segments.len(),
        forall|i: int|
            0 <= i < merged.len() ==> merged_from(
                #[trigger] transcript_segments@[i],
                speaker_segments@,
                speaker_names@,
                merged@[i],
            ),
{
    let mut merged: Vec<MergedSegment> = Vec::new();
    let mut i: usize = 0;
    while i < transcript_segments.len()
        invariant
            i <= transcript_segments.len(),
            merged.len() == i,
            labels_fit(transcript_segments@, speaker_segments@, speaker_names@),
            forall|j: int|
                0 <= j < i ==> merged_from(
                    #[trigger] transcript_segments@[j],
                    speaker_segments@,
                    speaker_names@,
                    merged@[j],
                ),
        decreases transcript_segments.len() - i,
    {
        let ts = &transcript_segments[i];
        let speaker = find_best_speaker(ts, speaker_segments, speaker_names);
        merged.push(
            MergedSegment {
                speaker,
                start_ms: ts.start_ms,
                end_ms: ts.end_ms,
                text: ts.text.clone(),
            },
        );
        i = i + 1;
    }
    merged
}

/// The labelled transcript body after the given segments, and the last
/// speaker written: a segment whose speaker differs from the previous one
/// opens a paragraph with the speaker's name in bold (after a blank line,
/// unless it is the first); each segment adds its timestamped line.
pub open spec fn labelled_body(segments: Seq<MergedSegment>) -> (Seq<char>, Seq<char>)
    decreases segments.len(),
{
    if segments.len() == 0 {
        (Seq::empty(), Seq::empty())
    } else {
        let prev = labelled_body(segments.drop_last());
        let seg = segments.last();
        let heading = if seg.speaker@ != prev.1 {
            (if prev.1.len() > 0 {
                "\n"@
            } else {
                Seq::empty()
            }) + "**"@ + seg.speaker@ + "**\n\n"@
        } else {
            Seq::empty()
        };
        (
            prev.0 + heading + timestamp_text((seg.start_ms / 1000) as nat) + " "@ + seg.text@
                + "\n\n"@,
            if seg.speaker@ != prev.1 {
                seg.speaker@
            } else {
                prev.1
            },
        )
    }
}

/// The labelled transcript: the body and the duration footer.
pub open spec fn labelled_transcript(segments: Seq<MergedSegment>, duration_secs: nat) -> Seq<
    char,
> {
    labelled_body(segments).0 + duration_footer(duration_secs)
}

proof fn lemma_labelled_body_last_speaker(segments: Seq<MergedSegment>)
    requires
        forall|i: int| 0 <= i < segments.len() ==> (#[trigger] segments[i]).speaker@.len() > 0,
    ensures
        segments.len() == 0 ==> labelled_body(segments).1.len() == 0,
        segments.len() > 0 ==> labelled_body(segments).1 == segments.last().speaker@,
    decreases segments.len(),
{
    if segments.len() > 0 {
        let p = segments.drop_last();
        assert forall|i: int| 0 <= i < p.len() implies (#[trigger] p[i]).speaker@.len() > 0 by {
            assert(p[i] == segments[i]);
        }
        lemma_labelled_body_last_speaker(p);
        if p.len() > 0 {
            assert(p.last() == segments[segments.len() - 2]);
        }
    }
}

/// Writing one more segment after others (all speakers named by non-empty
/// text) appends that segment's timestamped line, preceded by a bold heading
/// with its speaker's name exactly when it is the first segment or its
/// speaker differs from the previous segment's; the heading follows a blank
/// line unless it is the first.
pub proof fn lemma_heading_on_speaker_change(segments: Seq<MergedSegment>, seg: MergedSegment)
    requires
        forall|i: int| 0 <= i < segments.len() ==> (#[trigger] segments[i]).speaker@.len() > 0,
        seg.speaker@.len() > 0,
    ensures
        labelled_body(segments.push(seg)).0 == labelled_body(segments).0 + (if segments.len() == 0 {
            "**"@ + seg.speaker@ + "**\n\n"@
        } else if segments[segments.len() - 1].speaker@ != seg.speaker@ {
            "\n"@ + "**"@ + seg.speaker@ + "**\n\n"@
        } else {
            Seq::empty()
        }) + timestamp_text((seg.start_ms / 1000) as nat) + " "@ + seg.text@ + "\n\n"@,
{
    lemma_labelled_body_last_speaker(segments);
    let all = segments.push(seg);
    assert(all.drop_last() =~= segments);
    assert(all.last() == seg);
    if segments.len() > 0 {
        assert(segments.last() == segments[segments.len() - 1]);
    }
    assert(Seq::<char>::empty() + "**"@ + seg.speaker@ + "**\n\n"@ =~= "**"@ + seg.speaker@ + "**\n\n"@);
}

/// Format merged segments as Markdown with speaker labels.
pub fn format_merged_transcript(segments: &[MergedSegment], duration_secs: u64) -> (content:
    String)
    ensures
        content@ == labelled_transcript(segments@, duration_secs as nat),
{
    let mut content = String::new();
    let mut last_speaker = String::new();
    let mut i: usize = 0;
    assert(segments@.subrange(0, 0) =~= Seq::<MergedSegment>::empty());
    while i < segments.len()
        invariant
            i <= segments.len(),
            content@ == labelled_body(segments@.subrange(0, i as int)).0,
            last_speaker@ == labelled_body(segments@.subrange(0, i as int)).1,
        decreases segments.len() - i,
    {
        let seg = &segments[i];
        let ghost before = content@;
        let ghost prev_speaker = last_speaker@;
        let timestamp = format_timestamp(seg.start_ms / 1000);
        let ghost mut heading: Seq<char> = Seq::empty();
        if !(seg.speaker == last_speaker) {
            if !last_speaker.as_str().is_empty() {
                content.append("\n");
            }
            content.append("**");
            content.append(seg.speaker.as_str());
            content.append("**\n\n");
            last_speaker = seg.speaker.clone();
            proof {
                heading = (if prev_speaker.len() > 0 {
                    "\n"@
                } else {
                    Seq::<char>::empty()
                }) + "**"@ + seg.speaker@ + "**\n\n"@;
                assert(content@ =~= before + heading);
            }
        }
        content.append(timestamp.as_str());
        content.append(" ");
        content.append(seg.text.as_str());
        content.append("\n\n");
        proof {
            let p = segments@.subrange(0, i + 1);
            assert(p.drop_last() =~= segments@.subrange(0, i as int));
            assert(p.last() == segments@[i as int]);
            assert(content@ =~= labelled_body(p).0);
        }
        i = i + 1;
    }
    assert(segments@.subrange(0, segments.len() as int) =~= segments@);
    push_duration_footer(&mut content, duration_secs);
    content
}

} // verus!
