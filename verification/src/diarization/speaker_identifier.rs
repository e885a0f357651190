//! Enrolled speakers and the names given to diarized speakers. Saving the
//! database and deleting audio files are left to the caller.

use vstd::prelude::*;
use std::collections::HashMap;
use crate::stamp::{is_rfc3339_text, local_now_rfc3339, new_id};
use crate::text::{decimal, push_decimal};

verus! {

broadcast use vstd::std_specs::hash::group_hash_axioms;

/// An enrolled speaker with a name and the recording they enrolled with.
#[derive(Debug, Clone)]
pub struct EnrolledSpeaker {
    pub id: String,
    pub name: String,
    pub audio_path: String,
    pub created_at: String,
}

/// Speaker enrollment database.
#[derive(Debug, Clone)]
pub struct SpeakerDatabase {
    pub speakers: Vec<EnrolledSpeaker>,
}

impl EnrolledSpeaker {
    /// A copy of this record.
    pub fn duplicate(&self) -> (copy: Self)
        ensures
            copy == *self,
    {
        EnrolledSpeaker {
            id: self.id.clone(),
            name: self.name.clone(),
            audio_path: self.audio_path.clone(),
            created_at: self.created_at.clone(),
        }
    }
}

/// The names given so far, and how many unnamed speakers were numbered: each
/// speaker id, the first time it occurs, takes the name of the enrolled
/// speaker at that index, or else the next `Speaker N`.
pub open spec fn names_so_far(ids: Seq<u32>, enrolled: Seq<EnrolledSpeaker>) -> (
    Map<u32, Seq<char>>,
    nat,
)
    decreases ids.len(),
{
    if ids.len() == 0 {
        (Map::empty(), 0)
    } else {
        let prev = names_so_far(ids.drop_last(), enrolled);
        let id = ids.last();
        if prev.0.contains_key(id) {
            prev
        } else if id < enrolled.len() {
            (prev.0.insert(id, enrolled[id as int].name@), prev.1)
        } else {
            (prev.0.insert(id, "Speaker "@ + decimal(prev.1 + 1)), prev.1 + 1)
        }
    }
}

/// The map holds exactly the names of `spec`.
pub open spec fn names_match(names: Map<u32, String>, spec: Map<u32, Seq<char>>) -> bool {
    &&& names.dom() == spec.dom()
    &&& forall|k: u32| #[trigger] names.contains_key(k) ==> names[k]@ == spec[k]
}

/// The index of the first speaker with identifier `id`, from index `i` on.
pub open spec fn first_speaker_from(s: Seq<EnrolledSpeaker>, id: Seq<char>, i: int) -> Option<int>
    decreases s.len() - i,
{
    if i < 0 || i >= s.len() {
        None
    } else if s[i].id@ == id {
        Some(i)
    } else {
        first_speaker_from(s, id, i + 1)
    }
}

proof fn lemma_first_speaker_from(s: Seq<EnrolledSpeaker>, id: Seq<char>, i: int)
    requires
        0 <= i <= s.len(),
        forall|j: int| 0 <= j < i ==> s[j].id@ != id,
    ensures
        first_speaker_from(s, id, 0) == first_speaker_from(s, id, i),
    decreases i,
{
    if i > 0 {
        lemma_first_speaker_from(s, id, i - 1);
    }
}

impl Default for SpeakerDatabase {
    fn default() -> (db: Self)
        ensures
            db.speakers@.len() == 0,
    {
        SpeakerDatabase { speakers: Vec::new() }
    }
}

impl SpeakerDatabase {
    /// The index of the first speaker with identifier `id`.
    pub fn position(&self, id: &str) -> (pos: Option<usize>)
        ensures
            match pos {
                Some(k) => k < self.speakers.len() && first_speaker_from(self.speakers@, id@, 0)
                    == Some(k as int),
                None => first_speaker_from(self.speakers@, id@, 0) is None,
            },
    {
        let key = id.to_owned();
        let mut i: usize = 0;
        while i < self.speakers.len()
            invariant
                i <= self.speakers.len(),
                key@ == id@,
                forall|j: int| 0 <= j < i ==> self.speakers@[j].id@ != id@,
            decreases self.speakers.len() - i,
        {
            if self.speakers[i].id == key {
                proof {
                    lemma_first_speaker_from(self.speakers@, id@, i as int);
                }
                return Some(i);
            }
            i = i + 1;
        }
        proof {
            lemma_first_speaker_from(self.speakers@, id@, i as int);
        }
        None
    }

    /// Enrolls a speaker under a fresh id, stamped with the current time, and
    /// returns a copy of the record.
    pub fn add_speaker(&mut self, name: String, audio_path: String) -> (speaker: EnrolledSpeaker)
        ensures
            final(self).speakers@ == old(self).speakers@.push(speaker),
            speaker.name == name,
            speaker.audio_path == audio_path,
            speaker.id@.len() == 36,
            speaker.id@[8] == '-' && speaker.id@[13] == '-' && speaker.id@[18] == '-'
                && speaker.id@[23] == '-',
            is_rfc3339_text(speaker.created_at@),
    {
        let speaker = EnrolledSpeaker {
            id: new_id(),
            name,
            audio_path,
            created_at: local_now_rfc3339(),
        };
        let copy = speaker.duplicate();
        self.speakers.push(speaker);
        copy
    }

    /// Removes every speaker with identifier `id` and returns the first of
    /// them, whose audio file the caller deletes; `Speaker not found` when
    /// there is none.
    pub fn remove_speaker(&mut self, id: &str) -> (removed: Result<EnrolledSpeaker, String>)
        ensures
            match first_speaker_from(old(self).speakers@, id@, 0) {
                Some(k) => {
                    &&& removed matches Ok(s) && s == old(self).speakers@[k]
                    &&& final(self).speakers@ == old(self).speakers@.filter(
                        |s: EnrolledSpeaker| s.id@ != id@,
                    )
                },
                None => {
                    &&& removed matches Err(e) && e@ == "Speaker not found"@
                    &&& final(self).speakers@ == old(self).speakers@
                },
            },
    {
        let found = self.position(id);
        match found {
            None => {
                proof {
                    reveal_strlit("Speaker not found");
                }
                Err("Speaker not found".to_owned())
            },
            Some(k) => {
                let key = id.to_owned();
                let removed = self.speakers[k].duplicate();
                let ghost pred = |s: EnrolledSpeaker| s.id@ != id@;
                let mut old_speakers: Vec<EnrolledSpeaker> = Vec::new();
                std::mem::swap(&mut old_speakers, &mut self.speakers);
                let mut kept: Vec<EnrolledSpeaker> = Vec::new();
                let mut j: usize = 0;
                assert(old_speakers@.subrange(0, 0) =~= Seq::<EnrolledSpeaker>::empty());
                proof {
                    reveal(Seq::filter);
                }
                while j < old_speakers.len()
                    invariant
                        j <= old_speakers.len(),
                        key@ == id@,
                        pred == (|s: EnrolledSpeaker| s.id@ != id@),
                        kept@ == old_speakers@.subrange(0, j as int).filter(pred),
                    decreases old_speakers.len() - j,
                {
                    proof {
                        reveal(Seq::filter);
                        let p = old_speakers@.subrange(0, j + 1);
                        assert(p.drop_last() =~= old_speakers@.subrange(0, j as int));
                    }
                    if !(old_speakers[j].id == key) {
                        kept.push(old_speakers[j].duplicate());
                    }
                    j = j + 1;
                }
                assert(old_speakers@.subrange(0, old_speakers.len() as int) =~= old_speakers@);
                self.speakers = kept;
                Ok(removed)
            },
        }
    }
}

/// Assign speaker names to diarization results using enrolled speakers.
///
/// Each speaker id, where it first occurs, is named after the enrolled speaker
/// at that index, or else numbered `Speaker 1`, `Speaker 2`, ... in order.
pub fn assign_speaker_names(speaker_ids: &[u32], enrolled: &[EnrolledSpeaker]) -> (names:
    HashMap<u32, String>)
    requires
        names_so_far(speaker_ids@, enrolled@).1 <= i32::MAX,
    ensures
        names_match(names@, names_so_far(speaker_ids@, enrolled@).0),
{
    let mut names: HashMap<u32, String> = HashMap::new();
    let mut unnamed_count: u64 = 0;
    let mut i: usize = 0;
    assert(speaker_ids@.subrange(0, 0) =~= Seq::<u32>::empty());
    proof {
        lemma_names_count_grows(speaker_ids@, enrolled@);
    }
    while i < speaker_ids.len()
        invariant
            i <= speaker_ids.len(),
            names_so_far(speaker_ids@, enrolled@).1 <= i32::MAX,
            forall|k: int|
                0 <= k <= speaker_ids@.len() ==> #[trigger] names_so_far(
                    speaker_ids@.subrange(0, k),
                    enrolled@,
                ).1 <= names_so_far(speaker_ids@, enrolled@).1,
            names_match(names@, names_so_far(speaker_ids@.subrange(0, i as int), enrolled@).0),
            unnamed_count as int == names_so_far(speaker_ids@.subrange(0, i as int), enrolled@).1,
        decreases speaker_ids.len() - i,
    {
        let id = speaker_ids[i];
        let ghost prev = names_so_far(speaker_ids@.subrange(0, i as int), enrolled@);
        proof {
            let p = speaker_ids@.subrange(0, i + 1);
            assert(p.drop_last() =~= speaker_ids@.subrange(0, i as int));
            assert(p.last() == id);
            assert(names_so_far(p, enrolled@).1 <= i32::MAX);
        }
        if !names.contains_key(&id) {
            if (id as usize) < enrolled.len() {
                let name = enrolled[id as usize].name.clone();
                names.insert(id, name);
                proof {
                    assert(names@.dom() =~= prev.0.insert(id, enrolled@[id as int].name@).dom());
                }
            } else {
                unnamed_count = unnamed_count + 1;
                let mut label = String::new();
                label.append("Speaker ");
                push_decimal(&mut label, unnamed_count);
                names.insert(id, label);
                proof {
                    assert(names@.dom() =~= prev.0.insert(
                        id,
                        "Speaker "@ + decimal(prev.1 + 1),
                    ).dom());
                }
            }
        }
        i = i + 1;
    }
    assert(speaker_ids@.subrange(0, speaker_ids.len() as int) =~= speaker_ids@);
    names
}

proof fn lemma_names_count_grows(ids: Seq<u32>, enrolled: Seq<EnrolledSpeaker>)
    ensures
        forall|k: int|
            0 <= k <= ids.len() ==> #[trigger] names_so_far(ids.subrange(0, k), enrolled).1
                <= names_so_far(ids, enrolled).1,
    decreases ids.len(),
{
    if ids.len() > 0 {
        lemma_names_count_grows(ids.drop_last(), enrolled);
        assert forall|k: int| 0 <= k <= ids.len() implies #[trigger] names_so_far(
            ids.subrange(0, k),
            enrolled,
        ).1 <= names_so_far(ids, enrolled).1 by {
            if k < ids.len() {
                assert(ids.subrange(0, k) =~= ids.drop_last().subrange(0, k));
            } else {
                assert(ids.subrange(0, k) =~= ids);
            }
        }
    } else {
        assert forall|k: int| 0 <= k <= ids.len() implies #[trigger] names_so_far(
            ids.subrange(0, k),
            enrolled,
        ).1 <= names_so_far(ids, enrolled).1 by {
            assert(ids.subrange(0, k) =~= ids);
        }
    }
}

/// Every diarized speaker gets a name, and a speaker whose id indexes an
/// enrolled speaker gets that speaker's name.
pub proof fn lemma_every_speaker_named(ids: Seq<u32>, enrolled: Seq<EnrolledSpeaker>)
    ensures
        forall|i: int|
            0 <= i < ids.len() ==> names_so_far(ids, enrolled).0.contains_key(#[trigger] ids[i]),
        forall|i: int|
            0 <= i < ids.len() && ids[i] < enrolled.len() ==> names_so_far(ids, enrolled).0[#[trigger] ids[i]]
                == enrolled[ids[i] as int].name@,
        forall|k: u32|
            #[trigger] names_so_far(ids, enrolled).0.contains_key(k) ==> ids.contains(k),
    decreases ids.len(),
{
    if ids.len() > 0 {
        let p = ids.drop_last();
        lemma_every_speaker_named(p, enrolled);
        assert forall|i: int| 0 <= i < ids.len() implies names_so_far(ids, enrolled).0.contains_key(
            #[trigger] ids[i],
        ) by {
            if i < p.len() {
                assert(ids[i] == p[i]);
            }
        }
        assert forall|i: int|
            0 <= i < ids.len() && ids[i] < enrolled.len() implies names_so_far(ids, enrolled).0[#[trigger] ids[i]]
            == enrolled[ids[i] as int].name@ by {
            let id = ids[i];
            let prev = names_so_far(p, enrolled).0;
            if i < p.len() {
                assert(id == p[i]);
                assert(prev.contains_key(id));
                assert(prev[id] == enrolled[id as int].name@);
                assert(names_so_far(ids, enrolled).0[id] == prev[id]);
            } else if prev.contains_key(id) {
                assert(p.contains(id));
                let j = choose|j: int| 0 <= j < p.len() && p[j] == id;
                assert(prev[p[j]] == enrolled[p[j] as int].name@);
            }
        }
        assert forall|k: u32| #[trigger] names_so_far(ids, enrolled).0.contains_key(k) implies ids.contains(
            k,
        ) by {
            if names_so_far(p, enrolled).0.contains_key(k) {
                let j = choose|j: int| 0 <= j < p.len() && p[j] == k;
                assert(ids[j] == k);
            } else {
                assert(ids[ids.len() - 1] == k);
            }
        }
    }
}

/// No more speakers are numbered than there are speaker ids, so the count
/// `assign_speaker_names` needs to fit in an `i32` does whenever the ids do.
pub proof fn lemma_numbered_at_most_ids(ids: Seq<u32>, enrolled: Seq<EnrolledSpeaker>)
    ensures
        names_so_far(ids, enrolled).1 <= ids.len(),
    decreases ids.len(),
{
    if ids.len() > 0 {
        lemma_numbered_at_most_ids(ids.drop_last(), enrolled);
    }
}

/// The distinct speaker ids among `ids` that no enrolled speaker stands for.
pub open spec fn unenrolled_ids(ids: Seq<u32>, enrolled_count: nat) -> Set<u32> {
    ids.to_set().filter(|x: u32| x >= enrolled_count)
}

/// As many speakers are numbered as there are distinct ids that no enrolled
/// speaker stands for.
pub proof fn lemma_numbered_distinct_unenrolled(ids: Seq<u32>, enrolled: Seq<EnrolledSpeaker>)
    ensures
        unenrolled_ids(ids, enrolled.len()).finite(),
        names_so_far(ids, enrolled).1 == unenrolled_ids(ids, enrolled.len()).len(),
    decreases ids.len(),
{
    broadcast use vstd::set::group_set_axioms, vstd::seq_lib::seq_to_set_is_finite;

    let n = enrolled.len();
    if ids.len() == 0 {
        assert(unenrolled_ids(ids, n) =~= Set::<u32>::empty());
    } else {
        let p = ids.drop_last();
        let x = ids.last();
        assert(ids == p.push(x));
        lemma_numbered_distinct_unenrolled(p, enrolled);
        lemma_every_speaker_named(p, enrolled);
        p.lemma_push_to_set_commute(x);
        let before = unenrolled_ids(p, n);
        let after = unenrolled_ids(ids, n);
        if p.contains(x) {
            let j = choose|j: int| 0 <= j < p.len() && p[j] == x;
            assert(names_so_far(p, enrolled).0.contains_key(p[j]));
            assert(p.to_set().contains(x));
            assert(after =~= before);
        } else {
            assert(!names_so_far(p, enrolled).0.contains_key(x));
            if x < n {
                assert(after =~= before);
            } else {
                assert(after =~= before.insert(x));
                assert(!before.contains(x));
            }
        }
    }
}

/// A speaker id that already occurred changes no name when it occurs again:
/// each id is named at its first occurrence.
pub proof fn lemma_repeated_speaker_keeps_names(
    ids: Seq<u32>,
    enrolled: Seq<EnrolledSpeaker>,
    x: u32,
)
    requires
        ids.contains(x),
    ensures
        names_so_far(ids.push(x), enrolled) == names_so_far(ids, enrolled),
{
    lemma_every_speaker_named(ids, enrolled);
    let j = choose|j: int| 0 <= j < ids.len() && ids[j] == x;
    assert(names_so_far(ids, enrolled).0.contains_key(ids[j]));
    assert(ids.push(x).drop_last() =~= ids);
}

/// A speaker id that did not occur before is added with a name and no other
/// name changes: the enrolled speaker's name when its id stands for one,
/// else `Speaker N` where `N` is one more than the number of distinct
/// unenrolled ids seen before it.
pub proof fn lemma_new_speaker_named(ids: Seq<u32>, enrolled: Seq<EnrolledSpeaker>, x: u32)
    requires
        !ids.contains(x),
    ensures
        names_so_far(ids.push(x), enrolled).0 == names_so_far(ids, enrolled).0.insert(
            x,
            if x < enrolled.len() {
                enrolled[x as int].name@
            } else {
                "Speaker "@ + decimal(unenrolled_ids(ids, enrolled.len()).len() + 1)
            },
        ),
{
    lemma_every_speaker_named(ids, enrolled);
    lemma_numbered_distinct_unenrolled(ids, enrolled);
    assert(!names_so_far(ids, enrolled).0.contains_key(x));
    assert(ids.push(x).drop_last() =~= ids);
}

} // verus!
