pub mod transcript_merger;
pub mod transcript_writer;
