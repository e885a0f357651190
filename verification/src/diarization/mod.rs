pub mod pyannote;
pub mod speaker_identifier;
