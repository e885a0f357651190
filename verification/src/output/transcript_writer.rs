//! The Markdown transcript without speaker labels.

use vstd::prelude::*;
use crate::text::{decimal, decimal2, push_decimal, push_decimal2};
use crate::transcription::api_client::TranscriptionSegment;

verus! {

/// `[HH:MM:SS]` for a time of `secs` whole seconds; hours take more than two
/// digits when needed.
pub open spec fn timestamp_text(secs: nat) -> Seq<char> {
    "["@ + decimal2(secs / 3600) + ":"@ + decimal2((secs % 3600) / 60) + ":"@ + decimal2(secs % 60)
        + "]"@
}

/// The closing line with the recording's length in whole seconds.
pub open spec fn duration_footer(duration_secs: nat) -> Seq<char> {
    "---\n*Duration: "@ + decimal(duration_secs) + "s*\n"@
}

/// One line per segment: its start time, a space, its text and a blank line.
pub open spec fn timed_lines(segments: Seq<TranscriptionSegment>) -> Seq<char>
    decreases segments.len(),
{
    if segments.len() == 0 {
        Seq::empty()
    } else {
        let seg = segments.last();
        timed_lines(segments.drop_last()) + timestamp_text((seg.start_ms / 1000) as nat) + " "@
            + seg.text@ + "\n\n"@
    }
}

/// The whole transcript: a title, then the segments' timed lines (or, when
/// there are none, the full text on a line of its own), then the footer.
pub open spec fn transcript_text(
    title: Seq<char>,
    text: Seq<char>,
    segments: Seq<TranscriptionSegment>,
    duration_secs: nat,
) -> Seq<char> {
    let body = if segments.len() == 0 {
        text + "\n"@
    } else {
        timed_lines(segments)
    };
    "# "@ + title + "\n\n"@ + body + duration_footer(duration_secs)
}

/// Format seconds as [HH:MM:SS]
pub fn format_timestamp(total_secs: u64) -> (s: String)
    ensures
        s@ == timestamp_text(total_secs as nat),
{
    let hours = total_secs / 3600;
    let minutes = (total_secs % 3600) / 60;
    let secs = total_secs % 60;
    let mut s = String::new();
    s.append("[");
    push_decimal2(&mut s, hours);
    s.append(":");
    push_decimal2(&mut s, minutes);
    s.append(":");
    push_decimal2(&mut s, secs);
    s.append("]");
    assert(s@ =~= timestamp_text(total_secs as nat));
    s
}

/// Appends the closing duration line.
pub fn push_duration_footer(content: &mut String, duration_secs: u64)
    ensures
        final(content)@ == old(content)@ + duration_footer(duration_secs as nat),
{
    content.append("---\n*Duration: ");
    push_decimal(content, duration_secs);
    content.append("s*\n");
    assert(final(content)@ =~= old(content)@ + duration_footer(duration_secs as nat));
}

/// The Markdown transcript of a transcription: `title` as heading, a
/// timestamped line per segment (or the full text when there are no
/// segments), and the duration in seconds.
pub fn render_transcript(
    title: &str,
    text: &str,
    segments: &[TranscriptionSegment],
    duration_secs: u64,
) -> (content: String)
    ensures
        content@ == transcript_text(title@, text@, segments@, duration_secs as nat),
{
    let mut content = String::new();
    content.append("# ");
    content.append(title);
    content.append("\n\n");
    let ghost head = content@;
    if segments.len() == 0 {
        content.append(text);
        content.append("\n");
    } else {
        let mut i: usize = 0;
        assert(segments@.subrange(0, 0) =~= Seq::<TranscriptionSegment>::empty());
        while i < segments.len()
            invariant
                i <= segments.len(),
                content@ == head + timed_lines(segments@.subrange(0, i as int)),
            decreases segments.len() - i,
        {
            let ghost before = content@;
            let stamp = format_timestamp(segments[i].start_ms / 1000);
            content.append(stamp.as_str());
            content.append(" ");
            content.append(segments[i].text.as_str());
            content.append("\n\n");
            proof {
                let p = segments@.subrange(0, i + 1);
                assert(p.drop_last() =~= segments@.subrange(0, i as int));
                assert(p.last() == segments@[i as int]);
                assert(content@ =~= head + timed_lines(p));
            }
            i = i + 1;
        }
        assert(segments@.subrange(0, segments.len() as int) =~= segments@);
    }
    push_duration_footer(&mut content, duration_secs);
    assert(content@ =~= transcript_text(title@, text@, segments@, duration_secs as nat));
    content
}

} // verus!
