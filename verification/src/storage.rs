//! Which old recordings are cleaned up. Listing and deleting files are left
//! to the caller.

use vstd::prelude::*;
use crate::text::same_text;

verus! {

/// The extensions of audio files, which alone are cleaned up.
pub open spec fn audio_extension(ext: Seq<char>) -> bool {
    ||| ext == "wav"@
    ||| ext == "ogg"@
    ||| ext == "opus"@
    ||| ext == "mp3"@
    ||| ext == "m4a"@
    ||| ext == "flac"@
}

/// Whether a file with this extension is a recording that may be cleaned up.
pub fn is_audio_extension(ext: &str) -> (audio: bool)
    ensures
        audio == audio_extension(ext@),
{
    same_text(ext, "wav") || same_text(ext, "ogg") || same_text(ext, "opus") || same_text(ext, "mp3")
        || same_text(ext, "m4a") || same_text(ext, "flac")
}

/// How long recordings are kept, in seconds, for a retention of `days` days.
pub fn retention_secs(days: u32) -> (secs: u64)
    ensures
        secs == days * 86400,
{
    days as u64 * 86400
}

} // verus!
