use tact::commands::{finish_processing, start_processing, transcribes_immediately, ProcessStart};
use tact::folders::{add_favorite_folder, add_recent_folder, remove_favorite_folder, set_output_folder};
use tact::stamp::new_id;
use tact::transcription::queue::{QueueItemStatus, TranscriptionQueue};

#[test]
fn enqueue_adds_a_pending_item() {
    let mut q = TranscriptionQueue::new();
    assert!(!q.has_pending());
    let item = q.enqueue("/rec/a.wav".to_string());
    assert_eq!(item.status, QueueItemStatus::Pending);
    assert_eq!(item.audio_path, "/rec/a.wav");
    assert_eq!(item.id.len(), 36);
    assert_eq!(q.items.len(), 1);
    assert_eq!(q.items[0].id, item.id);
    assert!(q.has_pending());
    assert!(!q.is_processing());
}

#[test]
fn status_changes_touch_only_the_item() {
    let mut q = TranscriptionQueue::new();
    let a = q.enqueue("/rec/a.wav".to_string());
    let b = q.enqueue("/rec/b.wav".to_string());
    q.update_status(&a.id, QueueItemStatus::Processing);
    assert!(q.is_processing());
    assert_eq!(q.items[1].status, QueueItemStatus::Pending);
    q.mark_completed(&a.id, "/out/a.md".to_string(), 12.5f64.to_bits());
    assert_eq!(q.items[0].status, QueueItemStatus::Completed);
    assert!(q.items[0].completed_at.is_some());
    assert_eq!(q.items[0].transcript_path.as_deref(), Some("/out/a.md"));
    assert_eq!(q.items[0].duration_bits.map(f64::from_bits), Some(12.5));
    q.mark_failed(&b.id, "boom".to_string());
    assert_eq!(q.items[1].status, QueueItemStatus::Failed);
    assert_eq!(q.items[1].error_message.as_deref(), Some("boom"));
    assert!(!q.has_pending());
    q.update_status("unknown", QueueItemStatus::Failed);
    assert_eq!(q.items[0].status, QueueItemStatus::Completed);
}

#[test]
fn retry_after_failure_is_pending_again() {
    let mut q = TranscriptionQueue::new();
    let a = q.enqueue("/rec/a.wav".to_string());
    q.mark_failed(&a.id, "network".to_string());
    q.retry(&a.id);
    assert_eq!(q.items[0].status, QueueItemStatus::Pending);
    assert_eq!(q.items[0].error_message, None);
    assert_eq!(q.items[0].audio_path, "/rec/a.wav");
    assert_eq!(q.items[0].created_at, a.created_at);
    let pending = q.pending_items();
    assert_eq!(pending.len(), 1);
    assert_eq!(pending[0].id, a.id);
}

#[test]
fn remove_drops_the_item() {
    let mut q = TranscriptionQueue::new();
    let a = q.enqueue("/rec/a.wav".to_string());
    let b = q.enqueue("/rec/b.wav".to_string());
    q.remove(&a.id);
    assert_eq!(q.items.len(), 1);
    assert_eq!(q.items[0].id, b.id);
    q.remove("missing");
    assert_eq!(q.items.len(), 1);
}

#[test]
fn processing_starts_and_finishes() {
    let mut q = TranscriptionQueue::new();
    let a = q.enqueue("/rec/a.wav".to_string());
    assert!(matches!(start_processing(&mut q, &a.id, ""), Ok(ProcessStart::NoApiKey)));
    assert_eq!(q.items[0].status, QueueItemStatus::Pending);
    match start_processing(&mut q, "other", "key") {
        Err(e) => assert_eq!(e, "Queue item not found"),
        Ok(_) => panic!("unknown item started"),
    }
    match start_processing(&mut q, &a.id, "key") {
        Ok(ProcessStart::Begin(path)) => assert_eq!(path, "/rec/a.wav"),
        _ => panic!("item did not start"),
    }
    assert!(q.is_processing());
    finish_processing(&mut q, &a.id, Ok(("/out/a.md".to_string(), 3.0f64.to_bits())));
    assert_eq!(q.items[0].status, QueueItemStatus::Completed);
    finish_processing(&mut q, &a.id, Err("late failure".to_string()));
    assert_eq!(q.items[0].status, QueueItemStatus::Failed);
    assert!(transcribes_immediately("immediately"));
    assert!(!transcribes_immediately("manual"));
}

#[test]
fn ids_are_fresh() {
    let a = new_id();
    let b = new_id();
    assert_eq!(a.len(), 36);
    assert_ne!(a, b);
    assert_eq!(&a[8..9], "-");
}

#[test]
fn recent_folders_move_to_front_and_keep_five() {
    let mut recent: Vec<String> = ["a", "b", "c", "d", "e"].iter().map(|s| s.to_string()).collect();
    add_recent_folder(&mut recent, "c");
    assert_eq!(recent, vec!["c", "a", "b", "d", "e"]);
    add_recent_folder(&mut recent, "f");
    assert_eq!(recent, vec!["f", "c", "a", "b", "d"]);
    let mut empty: Vec<String> = vec![];
    add_recent_folder(&mut empty, "x");
    assert_eq!(empty, vec!["x"]);
}

#[test]
fn favorites_are_added_once_and_removed() {
    let mut fav: Vec<String> = vec!["/a".to_string()];
    assert_eq!(add_favorite_folder(false, &mut fav, "/b"), Err("Folder does not exist".to_string()));
    assert_eq!(add_favorite_folder(true, &mut fav, "/b"), Ok(true));
    assert_eq!(add_favorite_folder(true, &mut fav, "/b"), Ok(false));
    assert_eq!(fav, vec!["/a", "/b"]);
    remove_favorite_folder(&mut fav, "/a");
    assert_eq!(fav, vec!["/b"]);
}

#[test]
fn output_folder_needs_an_existing_folder() {
    let mut out: Option<String> = None;
    let mut recent: Vec<String> = vec!["/a".to_string(), "/x".to_string(), "/b".to_string()];
    assert_eq!(
        set_output_folder(false, &mut out, &mut recent, "/x"),
        Err("Folder does not exist".to_string())
    );
    assert_eq!(out, None);
    assert_eq!(recent, vec!["/a", "/x", "/b"]);
    assert_eq!(set_output_folder(true, &mut out, &mut recent, "/x"), Ok(()));
    assert_eq!(out.as_deref(), Some("/x"));
    assert_eq!(recent, vec!["/x", "/a", "/b"]);
}

#[test]
fn recent_folders_keep_their_order_without_repeats() {
    let mut recent: Vec<String> = ["a", "b", "c", "d"].iter().map(|s| s.to_string()).collect();
    add_recent_folder(&mut recent, "c");
    assert_eq!(recent, vec!["c", "a", "b", "d"]);
    add_recent_folder(&mut recent, "e");
    add_recent_folder(&mut recent, "f");
    assert_eq!(recent, vec!["f", "e", "c", "a", "b"]);
}

#[test]
fn using_a_recent_folder_twice_changes_nothing_more() {
    let mut recent: Vec<String> = ["a", "b", "c", "d", "e", "f"].iter().map(|s| s.to_string()).collect();
    add_recent_folder(&mut recent, "d");
    let once = recent.clone();
    add_recent_folder(&mut recent, "d");
    assert_eq!(recent, once);
    assert_eq!(once, vec!["d", "a", "b", "c", "e"]);
}
