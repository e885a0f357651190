//! Verified core of the Tact meeting recorder: speech trimming and timestamp
//! remapping, speaker-segment merging, transcript assembly, the transcription
//! queue and the settings lists.

pub mod recording;
pub mod stamp;
pub mod storage;
pub mod text;
pub mod transcription;
pub mod automation;
pub mod commands;
pub mod diarization;
pub mod folders;
pub mod output;
