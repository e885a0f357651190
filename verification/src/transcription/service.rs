//! The transcript documents the pipeline writes, and its check that a
//! trimmed recording still holds speech. Decoding, calling the API and
//! writing files are left to the caller.

use vstd::prelude::*;
use crate::output::transcript_merger::{format_merged_transcript, labelled_transcript, MergedSegment};
use crate::transcription::vad::SpeechPlan;

verus! {

/// The transcript's file name for a recording named `stem`.
pub fn transcript_file_name(stem: &str) -> (name: String)
    ensures
        name@ == stem@ + ".md"@,
{
    let mut name = stem.to_owned();
    name.append(".md");
    name
}

/// The transcript with speaker labels under the heading `title`.
pub fn render_labelled_transcript(title: &str, segments: &[MergedSegment], duration_secs: u64) -> (document: String)
    ensures
        document@ == "# "@ + title@ + "\n\n"@ + labelled_transcript(segments@, duration_secs as nat),
{
    let mut document = "# ".to_owned();
    document.append(title);
    document.append("\n\n");
    let content = format_merged_transcript(segments, duration_secs);
    document.append(content.as_str());
    document
}

/// Refuses a trimmed recording without speech: one whose plan copies no
/// samples.
pub fn require_speech(plan: &SpeechPlan) -> (checked: Result<(), String>)
    ensures
        plan.trim.sample_ranges@.len() == 0 ==> (checked matches Err(e) && e@
            == "No speech detected in recording"@),
        plan.trim.sample_ranges@.len() > 0 ==> checked is Ok,
{
    if plan.trim.sample_ranges.len() == 0 {
        proof {
            reveal_strlit("No speech detected in recording");
        }
        Err("No speech detected in recording".to_owned())
    } else {
        Ok(())
    }
}

} // verus!
