//! The transcription queue: recordings waiting for, undergoing, or done with
//! transcription, and the status changes the pipeline makes to them. Saving
//! the queue to disk is left to the caller, after each change.

use vstd::prelude::*;
use crate::stamp::{local_now, new_id, LocalTime};

verus! {

#[derive(Debug, Clone, Copy, PartialEq, Eq, Structural)]
pub enum QueueItemStatus {
    Pending,
    Processing,
    Completed,
    Failed,
}

/// A queued recording. Paths are kept as text; the duration in seconds is
/// kept as the bits of its `f64` (`f64::to_bits`), which the queue carries
/// without reading.
#[derive(Debug, Clone)]
pub struct QueueItem {
    pub id: String,
    pub audio_path: String,
    pub status: QueueItemStatus,
    pub created_at: LocalTime,
    pub completed_at: Option<LocalTime>,
    pub transcript_path: Option<String>,
    pub error_message: Option<String>,
    pub duration_bits: Option<u64>,
}

/// The queue, oldest item first.
#[derive(Debug, Clone)]
pub struct TranscriptionQueue {
    pub items: Vec<QueueItem>,
}

/// A freshly queued item for the recording at `audio_path`.
pub open spec fn is_new_item(item: QueueItem, audio_path: Seq<char>) -> bool {
    &&& item.audio_path@ == audio_path
    &&& item.status == QueueItemStatus::Pending
    &&& item.completed_at is None
    &&& item.transcript_path is None
    &&& item.error_message is None
    &&& item.duration_bits is None
    &&& item.id@.len() == 36
}

/// The index of the first item with identifier `id`, from index `i` on.
pub open spec fn first_with_id_from(items: Seq<QueueItem>, id: Seq<char>, i: int) -> Option<int>
    decreases items.len() - i,
{
    if i < 0 || i >= items.len() {
        None
    } else if items[i].id@ == id {
        Some(i)
    } else {
        first_with_id_from(items, id, i + 1)
    }
}

/// The index of the first item with identifier `id`.
pub open spec fn first_with_id(items: Seq<QueueItem>, id: Seq<char>) -> Option<int> {
    first_with_id_from(items, id, 0)
}

/// `after` is `before` with only the first item of identifier `id` changed, and
/// that one by `change`; with no such item nothing changes.
pub open spec fn changes_first(
    before: Seq<QueueItem>,
    after: Seq<QueueItem>,
    id: Seq<char>,
    change: spec_fn(QueueItem, QueueItem) -> bool,
) -> bool {
    &&& after.len() == before.len()
    &&& match first_with_id(before, id) {
        Some(k) => {
            &&& forall|j: int| 0 <= j < before.len() && j != k ==> #[trigger] after[j] == before[j]
            &&& change(before[k], after[k])
        },
        None => after == before,
    }
}

/// Only the status differs, and it is `status`.
pub open spec fn status_set_to(status: QueueItemStatus) -> spec_fn(QueueItem, QueueItem) -> bool {
    |a: QueueItem, b: QueueItem| b == QueueItem { status, ..a }
}

/// Completed, with the given transcript and duration and some completion time.
pub open spec fn completed_with(transcript_path: Seq<char>, duration_bits: u64) -> spec_fn(
    QueueItem,
    QueueItem,
) -> bool {
    |a: QueueItem, b: QueueItem|
        {
            &&& b.completed_at is Some
            &&& b.transcript_path matches Some(p) && p@ == transcript_path
            &&& b == QueueItem {
                status: QueueItemStatus::Completed,
                completed_at: b.completed_at,
                transcript_path: b.transcript_path,
                duration_bits: Some(duration_bits),
                ..a
            }
        }
}

/// Failed, with the given error message.
pub open spec fn failed_with(error: Seq<char>) -> spec_fn(QueueItem, QueueItem) -> bool {
    |a: QueueItem, b: QueueItem|
        {
            &&& b.error_message matches Some(e) && e@ == error
            &&& b == QueueItem {
                status: QueueItemStatus::Failed,
                error_message: b.error_message,
                ..a
            }
        }
}

/// Pending again, with no error message.
pub open spec fn made_pending() -> spec_fn(QueueItem, QueueItem) -> bool {
    |a: QueueItem, b: QueueItem|
        b == QueueItem { status: QueueItemStatus::Pending, error_message: None, ..a }
}

/// The item is waiting to be transcribed.
pub open spec fn is_pending(item: QueueItem) -> bool {
    item.status == QueueItemStatus::Pending
}

/// The items whose identifier is not `id`, in order.
pub open spec fn without_id(items: Seq<QueueItem>, id: Seq<char>) -> Seq<QueueItem> {
    items.filter(|it: QueueItem| it.id@ != id)
}

proof fn lemma_first_with_id_from(items: Seq<QueueItem>, id: Seq<char>, i: int)
    requires
        0 <= i <= items.len(),
        forall|j: int| 0 <= j < i ==> items[j].id@ != id,
    ensures
        first_with_id(items, id) == first_with_id_from(items, id, i),
    decreases i,
{
    if i > 0 {
        lemma_first_with_id_from(items, id, i - 1);
    }
}

impl QueueItem {
    /// A pending item for the recording at `audio_path`, with a fresh id and
    /// the current time as its creation time.
    pub fn new(audio_path: String) -> (item: Self)
        ensures
            is_new_item(item, audio_path@),
    {
        QueueItem {
            id: new_id(),
            audio_path,
            status: QueueItemStatus::Pending,
            created_at: local_now(),
            completed_at: None,
            transcript_path: None,
            error_message: None,
            duration_bits: None,
        }
    }

    /// A copy of this item.
    pub fn duplicate(&self) -> (copy: Self)
        ensures
            copy == *self,
    {
        QueueItem {
            id: self.id.clone(),
            audio_path: self.audio_path.clone(),
            status: self.status,
            created_at: self.created_at,
            completed_at: self.completed_at,
            transcript_path: match &self.transcript_path {
                Some(p) => Some(p.clone()),
                None => None,
            },
            error_message: match &self.error_message {
                Some(e) => Some(e.clone()),
                None => None,
            },
            duration_bits: self.duration_bits,
        }
    }
}

impl Default for TranscriptionQueue {
    fn default() -> (queue: Self)
        ensures
            queue.items@.len() == 0,
    {
        TranscriptionQueue { items: Vec::new() }
    }
}

impl TranscriptionQueue {
    /// An empty queue.
    pub fn new() -> (queue: Self)
        ensures
            queue.items@.len() == 0,
    {
        TranscriptionQueue { items: Vec::new() }
    }

    /// The index of the first item with identifier `id`.
    pub fn position(&self, id: &str) -> (pos: Option<usize>)
        ensures
            match pos {
                Some(k) => k < self.items.len() && first_with_id(self.items@, id@) == Some(
                    k as int,
                ),
                None => first_with_id(self.items@, id@) is None,
            },
    {
        let key = id.to_owned();
        let mut i: usize = 0;
        while i < self.items.len()
            invariant
                i <= self.items.len(),
                key@ == id@,
                forall|j: int| 0 <= j < i ==> self.items@[j].id@ != id@,
            decreases self.items.len() - i,
        {
            if self.items[i].id == key {
                proof {
                    lemma_first_with_id_from(self.items@, id@, i as int);
                }
                return Some(i);
            }
            i = i + 1;
        }
        proof {
            lemma_first_with_id_from(self.items@, id@, i as int);
        }
        None
    }

    /// Queues a new pending item for the recording at `audio_path` and
    /// returns a copy of it.
    pub fn enqueue(&mut self, audio_path: String) -> (item: QueueItem)
        ensures
            is_new_item(item, audio_path@),
            final(self).items@ == old(self).items@.push(item),
    {
        let item = QueueItem::new(audio_path);
        let copy = item.duplicate();
        self.items.push(item);
        copy
    }

    /// Sets the status of the first item with identifier `id`.
    pub fn update_status(&mut self, id: &str, status: QueueItemStatus)
        ensures
            changes_first(old(self).items@, final(self).items@, id@, status_set_to(status)),
    {
        match self.position(id) {
            Some(k) => {
                self.items[k].status = status;
            },
            None => {},
        }
    }

    /// Marks the first item with identifier `id` completed now, with its
    /// transcript path and duration.
    pub fn mark_completed(&mut self, id: &str, transcript_path: String, duration_bits: u64)
        ensures
            changes_first(
                old(self).items@,
                final(self).items@,
                id@,
                completed_with(transcript_path@, duration_bits),
            ),
    {
        match self.position(id) {
            Some(k) => {
                let now = local_now();
                self.items[k].status = QueueItemStatus::Completed;
                self.items[k].completed_at = Some(now);
                self.items[k].transcript_path = Some(transcript_path);
                self.items[k].duration_bits = Some(duration_bits);
            },
            None => {},
        }
    }

    /// Marks the first item with identifier `id` failed, with `error`.
    pub fn mark_failed(&mut self, id: &str, error: String)
        ensures
            changes_first(old(self).items@, final(self).items@, id@, failed_with(error@)),
    {
        match self.position(id) {
            Some(k) => {
                self.items[k].status = QueueItemStatus::Failed;
                self.items[k].error_message = Some(error);
            },
            None => {},
        }
    }

    /// Makes the first item with identifier `id` pending again and clears its
    /// error.
    pub fn retry(&mut self, id: &str)
        ensures
            changes_first(old(self).items@, final(self).items@, id@, made_pending()),
    {
        match self.position(id) {
            Some(k) => {
                self.items[k].status = QueueItemStatus::Pending;
                self.items[k].error_message = None;
            },
            None => {},
        }
    }

    /// Removes every item with identifier `id`.
    pub fn remove(&mut self, id: &str)
        ensures
            final(self).items@ == without_id(old(self).items@, id@),
            forall|j: int|
                0 <= j < final(self).items@.len() ==> (#[trigger] final(self).items@[j]).id@ != id@,
    {
        let key = id.to_owned();
        let ghost pred = |it: QueueItem| it.id@ != id@;
        let mut kept: Vec<QueueItem> = Vec::new();
        let mut old_items: Vec<QueueItem> = Vec::new();
        std::mem::swap(&mut old_items, &mut self.items);
        let mut i: usize = 0;
        assert(old_items@.subrange(0, 0) =~= Seq::<QueueItem>::empty());
        proof {
            reveal(Seq::filter);
        }
        while i < old_items.len()
            invariant
                i <= old_items.len(),
                key@ == id@,
                pred == (|it: QueueItem| it.id@ != id@),
                kept@ == old_items@.subrange(0, i as int).filter(pred),
            decreases old_items.len() - i,
        {
            proof {
                reveal(Seq::filter);
                let p = old_items@.subrange(0, i + 1);
                assert(p.drop_last() =~= old_items@.subrange(0, i as int));
            }
            if !(old_items[i].id == key) {
                kept.push(old_items[i].duplicate());
            }
            i = i + 1;
        }
        assert(old_items@.subrange(0, old_items.len() as int) =~= old_items@);
        proof {
            broadcast use vstd::seq_lib::group_filter_ensures;
            assert forall|j: int| 0 <= j < kept@.len() implies (#[trigger] kept@[j]).id@ != id@ by {
                assert(pred(kept@[j]));
            }
        }
        self.items = kept;
    }

    /// The pending items, in queue order.
    pub fn pending_items(&self) -> (pending: Vec<&QueueItem>)
        ensures
            pending@.len() == self.items@.filter(|it: QueueItem| is_pending(it)).len(),
            forall|j: int|
                0 <= j < pending@.len() ==> *(#[trigger] pending@[j]) == self.items@.filter(
                    |it: QueueItem| is_pending(it),
                )[j],
    {
        let ghost pred = |it: QueueItem| is_pending(it);
        let mut pending: Vec<&QueueItem> = Vec::new();
        let mut i: usize = 0;
        assert(self.items@.subrange(0, 0) =~= Seq::<QueueItem>::empty());
        proof {
            reveal(Seq::filter);
        }
        while i < self.items.len()
            invariant
                i <= self.items.len(),
                pred == (|it: QueueItem| is_pending(it)),
                pending@.len() == self.items@.subrange(0, i as int).filter(pred).len(),
                forall|j: int|
                    0 <= j < pending@.len() ==> *(#[trigger] pending@[j]) == self.items@.subrange(
                        0,
                        i as int,
                    ).filter(pred)[j],
            decreases self.items.len() - i,
        {
            proof {
                reveal(Seq::filter);
                let p = self.items@.subrange(0, i + 1);
                assert(p.drop_last() =~= self.items@.subrange(0, i as int));
            }
            if self.items[i].status == QueueItemStatus::Pending {
                pending.push(&self.items[i]);
            }
            i = i + 1;
        }
        assert(self.items@.subrange(0, self.items.len() as int) =~= self.items@);
        pending
    }

    /// Whether an item has the given status.
    fn any_with_status(&self, status: QueueItemStatus) -> (found: bool)
        ensures
            found == exists|j: int| 0 <= j < self.items@.len() && (#[trigger] self.items@[j]).status == status,
    {
        let mut i: usize = 0;
        while i < self.items.len()
            invariant
                i <= self.items.len(),
                forall|j: int| 0 <= j < i ==> (#[trigger] self.items@[j]).status != status,
            decreases self.items.len() - i,
        {
            if self.items[i].status == status {
                return true;
            }
            i = i + 1;
        }
        false
    }

    /// Whether some item waits to be transcribed.
    pub fn has_pending(&self) -> (found: bool)
        ensures
            found == exists|j: int|
                0 <= j < self.items@.len() && (#[trigger] self.items@[j]).status
                    == QueueItemStatus::Pending,
    {
        self.any_with_status(QueueItemStatus::Pending)
    }

    /// Whether some item is being transcribed.
    pub fn is_processing(&self) -> (found: bool)
        ensures
            found == exists|j: int|
                0 <= j < self.items@.len() && (#[trigger] self.items@[j]).status
                    == QueueItemStatus::Processing,
    {
        self.any_with_status(QueueItemStatus::Processing)
    }
}

/// A change that keeps every item's identifier keeps the position of the
/// first item with a given identifier.
pub(crate) proof fn lemma_first_with_id_kept(
    before: Seq<QueueItem>,
    after: Seq<QueueItem>,
    id: Seq<char>,
    i: int,
)
    requires
        before.len() == after.len(),
        forall|j: int| 0 <= j < before.len() ==> (#[trigger] after[j]).id == before[j].id,
        0 <= i <= before.len(),
    ensures
        first_with_id_from(after, id, i) == first_with_id_from(before, id, i),
    decreases before.len() - i,
{
    if i < before.len() {
        lemma_first_with_id_kept(before, after, id, i + 1);
        assert(after[i].id == before[i].id);
    }
}

/// Retrying an item after it failed leaves it as it was before the failure,
/// only pending and without an error message: the same as retrying it
/// directly. Other items are untouched throughout.
pub proof fn lemma_retry_undoes_failure(
    q0: Seq<QueueItem>,
    q1: Seq<QueueItem>,
    q2: Seq<QueueItem>,
    id: Seq<char>,
    error: Seq<char>,
)
    requires
        changes_first(q0, q1, id, failed_with(error)),
        changes_first(q1, q2, id, made_pending()),
    ensures
        changes_first(q0, q2, id, made_pending()),
{
    match first_with_id(q0, id) {
        Some(k) => {
            assert(q1[k] == QueueItem {
                status: QueueItemStatus::Failed,
                error_message: q1[k].error_message,
                ..q0[k]
            });
            assert forall|j: int| 0 <= j < q0.len() implies (#[trigger] q1[j]).id == q0[j].id by {
                if j != k {
                    assert(q1[j] == q0[j]);
                }
            }
            lemma_first_with_id_kept(q0, q1, id, 0);
            assert(q2[k] == QueueItem {
                status: QueueItemStatus::Pending,
                error_message: None,
                ..q1[k]
            });
        },
        None => {},
    }
}

/// A queued recording is pending, so a queue that was just added to has a
/// pending item, the one added last.
pub proof fn lemma_enqueued_is_pending(
    before: Seq<QueueItem>,
    after: Seq<QueueItem>,
    item: QueueItem,
    audio_path: Seq<char>,
)
    requires
        after == before.push(item),
        is_new_item(item, audio_path),
    ensures
        is_pending(after.last()),
        exists|j: int| 0 <= j < after.len() && (#[trigger] after[j]).status
            == QueueItemStatus::Pending,
{
    assert(after[after.len() - 1] == item);
}

} // verus!
