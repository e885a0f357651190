//! The decisions of the queue commands: whether a recording is transcribed
//! at once, and how a queue item is started and finished. Talking to the
//! keyring, the UI and the transcription pipeline is left to the caller.

use vstd::prelude::*;
use crate::text::same_text;
use crate::transcription::queue::{
    changes_first,
    completed_with,
    failed_with,
    first_with_id,
    lemma_first_with_id_kept,
    QueueItem,
    status_set_to,
    QueueItemStatus,
    TranscriptionQueue,
};

verus! {

/// How processing of a queue item starts.
#[derive(Debug)]
pub enum ProcessStart {
    /// No API key is configured: nothing is transcribed.
    NoApiKey,
    /// The item is now processing; transcribe the recording at this path.
    Begin(String),
}

/// Whether a finished recording is transcribed right away (rather than left
/// queued).
pub fn transcribes_immediately(transcription_timing: &str) -> (now: bool)
    ensures
        now == (transcription_timing@ == "immediately"@),
{
    same_text(transcription_timing, "immediately")
}

/// Starts processing queue item `id` with the stored `api_key`: nothing
/// happens without a key; an unknown item is refused with `Queue item not
/// found`; otherwise the item becomes `Processing` and its recording's path
/// is handed back.
pub fn start_processing(queue: &mut TranscriptionQueue, id: &str, api_key: &str) -> (start: Result<
    ProcessStart,
    String,
>)
    ensures
        api_key@.len() == 0 ==> (start matches Ok(ProcessStart::NoApiKey)) && final(queue).items@
            == old(queue).items@,
        api_key@.len() > 0 ==> match first_with_id(old(queue).items@, id@) {
            Some(k) => {
                &&& start matches Ok(ProcessStart::Begin(path)) && path == old(queue).items@[k].audio_path
                &&& changes_first(
                    old(queue).items@,
                    final(queue).items@,
                    id@,
                    status_set_to(QueueItemStatus::Processing),
                )
            },
            None => {
                &&& start matches Err(e) && e@ == "Queue item not found"@
                &&& final(queue).items@ == old(queue).items@
            },
        },
{
    if api_key.is_empty() {
        return Ok(ProcessStart::NoApiKey);
    }
    match queue.position(id) {
        None => {
            proof {
                reveal_strlit("Queue item not found");
            }
            Err("Queue item not found".to_owned())
        },
        Some(k) => {
            let path = queue.items[k].audio_path.clone();
            queue.update_status(id, QueueItemStatus::Processing);
            Ok(ProcessStart::Begin(path))
        },
    }
}

/// Records how the transcription of queue item `id` ended: completed with
/// its transcript's path and duration (as `f64` bits), or failed with an
/// error message.
pub fn finish_processing(
    queue: &mut TranscriptionQueue,
    id: &str,
    outcome: Result<(String, u64), String>,
)
    ensures
        match outcome {
            Ok((path, duration_bits)) => changes_first(
                old(queue).items@,
                final(queue).items@,
                id@,
                completed_with(path@, duration_bits),
            ),
            Err(e) => changes_first(old(queue).items@, final(queue).items@, id@, failed_with(e@)),
        },
{
    match outcome {
        Ok((path, duration_bits)) => queue.mark_completed(id, path, duration_bits),
        Err(e) => queue.mark_failed(id, e),
    }
}

/// An item that was started and then finished successfully is completed,
/// with its transcript and duration, and otherwise as it was queued; other
/// items are untouched.
pub proof fn lemma_processed_item_completed(
    q0: Seq<QueueItem>,
    q1: Seq<QueueItem>,
    q2: Seq<QueueItem>,
    id: Seq<char>,
    transcript_path: Seq<char>,
    duration_bits: u64,
)
    requires
        changes_first(q0, q1, id, status_set_to(QueueItemStatus::Processing)),
        changes_first(q1, q2, id, completed_with(transcript_path, duration_bits)),
    ensures
        changes_first(q0, q2, id, completed_with(transcript_path, duration_bits)),
{
    match first_with_id(q0, id) {
        Some(k) => {
            assert(q1[k] == QueueItem { status: QueueItemStatus::Processing, ..q0[k] });
            assert forall|j: int| 0 <= j < q0.len() implies (#[trigger] q1[j]).id == q0[j].id by {
                if j != k {
                    assert(q1[j] == q0[j]);
                }
            }
            lemma_first_with_id_kept(q0, q1, id, 0);
        },
        None => {},
    }
}

} // verus!
