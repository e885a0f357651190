# tact

The verified core of Tact, a desktop meeting recorder that transcribes
recordings through a Whisper API, labels speakers, and writes Markdown
transcripts.

- `src/` is the library, proved with Verus: voice-activity segmentation and
  the trimmed-audio plan with its timestamp remapping
  (`transcription/vad.rs`), the transcription queue (`transcription/queue.rs`),
  speaker-segment merging and naming (`diarization/`), transcript rendering
  (`output/`), hook and summary decisions (`automation/`), the folder lists
  (`folders.rs`), the recording configuration choice (`recording/`), and the
  queue-processing steps (`commands.rs`). `stamp.rs` and `text.rs` hold the
  calls into `uuid`, `chrono` and the standard library that the proofs rely on.
- `app/` is the Tauri application around it: commands, audio capture and
  decoding, the HTTP clients, the VAD and diarization models, and the files
  on disk.
- The command-line summary tool is the program named by the
  `TACT_SUMMARY_CLI` environment variable; it is looked up on the search
  path and then in its usual install places.
- `tests/` exercises the library on concrete values.
