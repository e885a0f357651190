//! Speaker segments from diarization: merging consecutive turns of one speaker
//! and counting the distinct speakers.

use vstd::prelude::*;
use std::collections::HashSet;

verus! {

broadcast use vstd::std_specs::hash::group_hash_axioms;

/// A speaker segment from diarization: which speaker was talking when.
#[derive(Debug, Clone, Copy, PartialEq, Eq)]
pub struct SpeakerSegment {
    pub speaker_id: u32,
    pub start_ms: u64,
    pub end_ms: u64,
}

/// Result of diarization: speaker segments and number of detected speakers.
#[derive(Debug, Clone)]
pub struct DiarizationResult {
    pub segments: Vec<SpeakerSegment>,
    pub speaker_count: u32,
}

/// The largest pause, in milliseconds, across which two turns of one speaker
/// are joined.
pub const MAX_SAME_SPEAKER_GAP_MS: u64 = 500;

/// Segments taken in order; a segment extends the last merged one when it has
/// the same speaker and starts no more than 500 ms after that one ends (or
/// before it ends); otherwise it starts a new merged segment.
pub open spec fn merged_turns(s: Seq<SpeakerSegment>) -> Seq<SpeakerSegment>
    decreases s.len(),
{
    if s.len() <= 1 {
        s
    } else {
        let m = merged_turns(s.drop_last());
        let seg = s.last();
        let last = m.last();
        if seg.speaker_id == last.speaker_id && seg.start_ms <= last.end_ms + MAX_SAME_SPEAKER_GAP_MS {
            m.update(
                m.len() - 1,
                SpeakerSegment {
                    speaker_id: last.speaker_id,
                    start_ms: last.start_ms,
                    end_ms: seg.end_ms,
                },
            )
        } else {
            m.push(seg)
        }
    }
}

/// The speaker of each segment, in order.
pub open spec fn speaker_ids(s: Seq<SpeakerSegment>) -> Seq<u32> {
    s.map_values(|g: SpeakerSegment| g.speaker_id)
}

/// The speakers that occur in the segments.
pub open spec fn speakers_of(s: Seq<SpeakerSegment>) -> Set<u32> {
    speaker_ids(s).to_set()
}

/// Neighbouring segments belong to different speakers or are more than 500 ms
/// apart.
pub open spec fn turns_separated(s: Seq<SpeakerSegment>) -> bool {
    forall|i: int|
        0 <= i < s.len() - 1 ==> (#[trigger] s[i + 1]).speaker_id != s[i].speaker_id || s[i
            + 1].start_ms > s[i].end_ms + MAX_SAME_SPEAKER_GAP_MS
}

proof fn lemma_speakers_push(s: Seq<SpeakerSegment>, g: SpeakerSegment)
    ensures
        speakers_of(s.push(g)) == speakers_of(s).insert(g.speaker_id),
{
    assert(speaker_ids(s.push(g)) =~= speaker_ids(s).push(g.speaker_id));
    speaker_ids(s).lemma_push_to_set_commute(g.speaker_id);
}

proof fn lemma_merged_turns(s: Seq<SpeakerSegment>)
    ensures
        s.len() >= 1 ==> merged_turns(s).len() >= 1,
        merged_turns(s).len() <= s.len(),
        turns_separated(merged_turns(s)),
        speakers_of(merged_turns(s)) == speakers_of(s),
    decreases s.len(),
{
    if s.len() == 1 {
    } else if s.len() > 1 {
        let p = s.drop_last();
        lemma_merged_turns(p);
        let m = merged_turns(p);
        let r = merged_turns(s);
        let seg = s.last();
        assert(s == p.push(seg));
        lemma_speakers_push(p, seg);
        assert forall|i: int| 0 <= i < r.len() - 1 implies (#[trigger] r[i + 1]).speaker_id
            != r[i].speaker_id || r[i + 1].start_ms > r[i].end_ms + MAX_SAME_SPEAKER_GAP_MS by {
            if i + 1 < m.len() {
                assert(r[i + 1].start_ms == m[i + 1].start_ms);
                assert(r[i + 1].speaker_id == m[i + 1].speaker_id);
                assert(r[i].end_ms == m[i].end_ms);
                assert(r[i].speaker_id == m[i].speaker_id);
            }
        }
        let last = m.last();
        if seg.speaker_id == last.speaker_id && seg.start_ms <= last.end_ms + MAX_SAME_SPEAKER_GAP_MS {
            let upd = SpeakerSegment {
                speaker_id: last.speaker_id,
                start_ms: last.start_ms,
                end_ms: seg.end_ms,
            };
            let front = m.drop_last();
            assert(m == front.push(last));
            assert(r == front.push(upd));
            lemma_speakers_push(front, last);
            lemma_speakers_push(front, upd);
            assert(speakers_of(m).contains(seg.speaker_id));
            assert(speakers_of(s) =~= speakers_of(m));
        } else {
            lemma_speakers_push(m, seg);
        }
    }
}

/// Segments in time order: each ends no earlier than it starts, and every
/// later one starts no earlier than it ends.
pub open spec fn in_time_order(s: Seq<SpeakerSegment>) -> bool {
    &&& forall|i: int| 0 <= i < s.len() ==> #[trigger] s[i].start_ms <= s[i].end_ms
    &&& forall|i: int, j: int|
        0 <= i < j < s.len() ==> (#[trigger] s[i]).end_ms <= (#[trigger] s[j]).start_ms
}

/// Some turn of `r` is of the same speaker as segment `g` and spans all of it.
#[verifier::opaque]
pub open spec fn spanned_by_a_turn(r: Seq<SpeakerSegment>, g: SpeakerSegment) -> bool {
    exists|j: int|
        0 <= j < r.len() && (#[trigger] r[j]).speaker_id == g.speaker_id && r[j].start_ms
            <= g.start_ms && g.end_ms <= r[j].end_ms
}

/// Some segment of `s` has the speaker of turn `t` and starts where it does.
#[verifier::opaque]
pub open spec fn starts_with_a_segment(s: Seq<SpeakerSegment>, t: SpeakerSegment) -> bool {
    exists|i: int|
        0 <= i < s.len() && (#[trigger] s[i]).start_ms == t.start_ms && s[i].speaker_id
            == t.speaker_id
}

/// Some segment of `s` ends where turn `t` does.
#[verifier::opaque]
pub open spec fn ends_with_a_segment(s: Seq<SpeakerSegment>, t: SpeakerSegment) -> bool {
    exists|i: int| 0 <= i < s.len() && (#[trigger] s[i]).end_ms == t.end_ms
}

proof fn lemma_spanned_at(r: Seq<SpeakerSegment>, j: int, g: SpeakerSegment)
    requires
        0 <= j < r.len(),
        r[j].speaker_id == g.speaker_id && r[j].start_ms <= g.start_ms && g.end_ms <= r[j].end_ms,
    ensures
        spanned_by_a_turn(r, g),
{
    reveal(spanned_by_a_turn);
}

proof fn lemma_starts_at(s: Seq<SpeakerSegment>, i: int, t: SpeakerSegment)
    requires
        0 <= i < s.len(),
        s[i].start_ms == t.start_ms && s[i].speaker_id == t.speaker_id,
    ensures
        starts_with_a_segment(s, t),
{
    reveal(starts_with_a_segment);
}

proof fn lemma_ends_at(s: Seq<SpeakerSegment>, i: int, t: SpeakerSegment)
    requires
        0 <= i < s.len(),
        s[i].end_ms == t.end_ms,
    ensures
        ends_with_a_segment(s, t),
{
    reveal(ends_with_a_segment);
}

proof fn lemma_spanned_kept(r: Seq<SpeakerSegment>, r2: Seq<SpeakerSegment>, g: SpeakerSegment, k: int)
    requires
        spanned_by_a_turn(r, g),
        0 <= k < r.len(),
        r2.len() >= r.len(),
        forall|j: int| 0 <= j < r.len() && j != k ==> r2[j] == r[j],
        r2[k].speaker_id == r[k].speaker_id && r2[k].start_ms <= r[k].start_ms && r[k].end_ms
            <= r2[k].end_ms,
    ensures
        spanned_by_a_turn(r2, g),
{
    reveal(spanned_by_a_turn);
    let j = choose|j: int|
        0 <= j < r.len() && (#[trigger] r[j]).speaker_id == g.speaker_id && r[j].start_ms
            <= g.start_ms && g.end_ms <= r[j].end_ms;
    if j == k {
        assert(r2[k].speaker_id == g.speaker_id);
    } else {
        assert(r2[j] == r[j]);
    }
}

proof fn lemma_starts_kept(p: Seq<SpeakerSegment>, s: Seq<SpeakerSegment>, t: SpeakerSegment)
    requires
        starts_with_a_segment(p, t),
        p.len() <= s.len(),
        forall|i: int| 0 <= i < p.len() ==> s[i] == p[i],
    ensures
        starts_with_a_segment(s, t),
{
    reveal(starts_with_a_segment);
    let i = choose|i: int|
        0 <= i < p.len() && (#[trigger] p[i]).start_ms == t.start_ms && p[i].speaker_id
            == t.speaker_id;
    assert(s[i] == p[i]);
}

proof fn lemma_ends_kept(p: Seq<SpeakerSegment>, s: Seq<SpeakerSegment>, t: SpeakerSegment)
    requires
        ends_with_a_segment(p, t),
        p.len() <= s.len(),
        forall|i: int| 0 <= i < p.len() ==> s[i] == p[i],
    ensures
        ends_with_a_segment(s, t),
{
    reveal(ends_with_a_segment);
    let i = choose|i: int| 0 <= i < p.len() && (#[trigger] p[i]).end_ms == t.end_ms;
    assert(s[i] == p[i]);
}

/// The cover facts of `r` as the merged turns of `s`.
pub open spec fn turns_cover(s: Seq<SpeakerSegment>, r: Seq<SpeakerSegment>) -> bool {
    &&& forall|i: int| 0 <= i < s.len() ==> spanned_by_a_turn(r, #[trigger] s[i])
    &&& forall|j: int|
        0 <= j < r.len() ==> starts_with_a_segment(s, #[trigger] r[j]) && ends_with_a_segment(s, r[j])
            && r[j].start_ms <= r[j].end_ms
    &&& s.len() > 0 ==> r.len() > 0 && r.last().end_ms == s.last().end_ms
}

proof fn lemma_cover_step(p: Seq<SpeakerSegment>, seg: SpeakerSegment, m: Seq<SpeakerSegment>, r: Seq<SpeakerSegment>)
    requires
        p.len() > 0,
        in_time_order(p.push(seg)),
        turns_cover(p, m),
        r == (if seg.speaker_id == m.last().speaker_id && seg.start_ms <= m.last().end_ms
            + MAX_SAME_SPEAKER_GAP_MS {
            m.update(
                m.len() - 1,
                SpeakerSegment {
                    speaker_id: m.last().speaker_id,
                    start_ms: m.last().start_ms,
                    end_ms: seg.end_ms,
                },
            )
        } else {
            m.push(seg)
        }),
    ensures
        turns_cover(p.push(seg), r),
{
    let s = p.push(seg);
    let n = p.len() as int;
    assert(s[n] == seg);
    assert forall|i: int| 0 <= i < p.len() implies #[trigger] s[i] == p[i] by {}
    let last = m.last();
    let k = m.len() - 1;
    assert(m[k] == last);
    assert(p.last() == s[n - 1]);
    assert(s[n].start_ms >= s[n - 1].end_ms);
    assert(seg.start_ms <= seg.end_ms);
    assert(last.start_ms <= last.end_ms);
    if seg.speaker_id == last.speaker_id && seg.start_ms <= last.end_ms + MAX_SAME_SPEAKER_GAP_MS {
        assert(r[k].start_ms == last.start_ms && r[k].end_ms == seg.end_ms);
        assert forall|i: int| 0 <= i < s.len() implies spanned_by_a_turn(r, #[trigger] s[i]) by {
            if i == n {
                lemma_spanned_at(r, k, seg);
            } else {
                assert(spanned_by_a_turn(m, p[i]));
                lemma_spanned_kept(m, r, s[i], k);
            }
        }
        assert forall|j: int| 0 <= j < r.len() implies starts_with_a_segment(s, #[trigger] r[j])
            && ends_with_a_segment(s, r[j]) && r[j].start_ms <= r[j].end_ms by {
            assert(starts_with_a_segment(p, m[j]));
            lemma_starts_kept(p, s, m[j]);
            if j == k {
                assert(r[j].start_ms == m[j].start_ms && r[j].speaker_id == m[j].speaker_id);
                assert(starts_with_a_segment(s, r[j])) by {
                    reveal(starts_with_a_segment);
                }
                lemma_ends_at(s, n, r[j]);
            } else {
                assert(r[j] == m[j]);
                lemma_ends_kept(p, s, m[j]);
            }
        }
    } else {
        assert(r[m.len() as int] == seg);
        assert forall|i: int| 0 <= i < s.len() implies spanned_by_a_turn(r, #[trigger] s[i]) by {
            if i == n {
                lemma_spanned_at(r, m.len() as int, seg);
            } else {
                assert(spanned_by_a_turn(m, p[i]));
                lemma_spanned_kept(m, r, s[i], k);
            }
        }
        assert forall|j: int| 0 <= j < r.len() implies starts_with_a_segment(s, #[trigger] r[j])
            && ends_with_a_segment(s, r[j]) && r[j].start_ms <= r[j].end_ms by {
            if j == m.len() {
                lemma_starts_at(s, n, r[j]);
                lemma_ends_at(s, n, r[j]);
            } else {
                assert(r[j] == m[j]);
                assert(starts_with_a_segment(p, m[j]));
                lemma_starts_kept(p, s, m[j]);
                lemma_ends_kept(p, s, m[j]);
            }
        }
    }
}

/// Merging turns of segments in time order only joins them: every segment
/// lies inside a merged turn of its own speaker, and every merged turn starts
/// where one of the segments of its speaker starts and ends where one of the
/// segments ends (and so no earlier than it starts); the last turn ends with
/// the last segment.
pub proof fn lemma_merged_turns_cover_segments(s: Seq<SpeakerSegment>)
    requires
        in_time_order(s),
    ensures
        forall|i: int|
            0 <= i < s.len() ==> spanned_by_a_turn(merged_turns(s), #[trigger] s[i]),
        forall|j: int|
            0 <= j < merged_turns(s).len() ==> starts_with_a_segment(s, #[trigger] merged_turns(s)[j])
                && ends_with_a_segment(s, merged_turns(s)[j]) && merged_turns(s)[j].start_ms
                <= merged_turns(s)[j].end_ms,
        s.len() > 0 ==> merged_turns(s).len() > 0 && merged_turns(s).last().end_ms
            == s.last().end_ms,
    decreases s.len(),
{
    let r = merged_turns(s);
    if s.len() == 1 {
        assert(r[0] == s[0]);
        lemma_spanned_at(r, 0, s[0]);
        lemma_starts_at(s, 0, r[0]);
        lemma_ends_at(s, 0, r[0]);
    } else if s.len() > 1 {
        let p = s.drop_last();
        assert(s == p.push(s.last()));
        assert(in_time_order(p)) by {
            assert forall|i: int| 0 <= i < p.len() implies #[trigger] p[i].start_ms <= p[i].end_ms by {
                assert(s[i] == p[i]);
            }
            assert forall|i: int, j: int| 0 <= i < j < p.len() implies (#[trigger] p[i]).end_ms
                <= (#[trigger] p[j]).start_ms by {
                assert(s[i] == p[i] && s[j] == p[j]);
            }
        }
        lemma_merged_turns_cover_segments(p);
        lemma_cover_step(p, s.last(), merged_turns(p), r);
    }
}

/// Merges consecutive segments of one speaker that are at most 500 ms apart.
pub fn merge_speaker_segments(segments: &[SpeakerSegment]) -> (merged: Vec<SpeakerSegment>)
    ensures
        merged@ == merged_turns(segments@),
        merged.len() <= segments.len(),
        turns_separated(merged@),
        speakers_of(merged@) == speakers_of(segments@),
{
    proof {
        lemma_merged_turns(segments@);
    }
    if segments.len() == 0 {
        let empty: Vec<SpeakerSegment> = Vec::new();
        assert(empty@ =~= merged_turns(segments@));
        return empty;
    }
    let mut merged: Vec<SpeakerSegment> = Vec::new();
    merged.push(segments[0]);
    assert(merged@ =~= merged_turns(segments@.subrange(0, 1)));
    let mut i: usize = 1;
    while i < segments.len()
        invariant
            1 <= i <= segments.len(),
            merged@ == merged_turns(segments@.subrange(0, i as int)),
            merged.len() >= 1,
        decreases segments.len() - i,
    {
        let seg = segments[i];
        let n = merged.len();
        let last = merged[n - 1];
        proof {
            assert(segments@.subrange(0, i + 1).drop_last() =~= segments@.subrange(0, i as int));
            lemma_merged_turns(segments@.subrange(0, i as int));
        }
        if seg.speaker_id == last.speaker_id && seg.start_ms.saturating_sub(last.end_ms)
            <= MAX_SAME_SPEAKER_GAP_MS {
            merged.set(
                n - 1,
                SpeakerSegment {
                    speaker_id: last.speaker_id,
                    start_ms: last.start_ms,
                    end_ms: seg.end_ms,
                },
            );
        } else {
            merged.push(seg);
        }
        i = i + 1;
    }
    assert(segments@.subrange(0, segments.len() as int) =~= segments@);
    merged
}

/// The number of distinct speakers among the segments.
pub fn count_unique_speakers(segments: &[SpeakerSegment]) -> (count: u32)
    ensures
        count == speakers_of(segments@).len() as u32,
{
    let mut seen: HashSet<u32> = HashSet::new();
    let mut i: usize = 0;
    assert(speakers_of(segments@.subrange(0, 0)) =~= Set::<u32>::empty());
    while i < segments.len()
        invariant
            i <= segments.len(),
            seen@ == speakers_of(segments@.subrange(0, i as int)),
        decreases segments.len() - i,
    {
        proof {
            assert(segments@.subrange(0, i + 1) =~= segments@.subrange(0, i as int).push(
                segments@[i as int],
            ));
            lemma_speakers_push(segments@.subrange(0, i as int), segments@[i as int]);
        }
        seen.insert(segments[i].speaker_id);
        i = i + 1;
    }
    assert(segments@.subrange(0, segments.len() as int) =~= segments@);
    seen.len() as u32
}

/// Whether a segment of `sample_count` samples is long enough (a quarter of a
/// second or more) to compute a speaker embedding from.
pub fn long_enough_for_embedding(sample_count: usize, sample_rate: u32) -> (long_enough: bool)
    ensures
        long_enough == (sample_count >= sample_rate / 4),
{
    sample_count >= (sample_rate / 4) as usize
}

/// Merging consecutive turns never changes how many speakers are counted.
pub proof fn lemma_merge_keeps_speaker_count(segments: Seq<SpeakerSegment>)
    ensures
        speakers_of(merged_turns(segments)).len() == speakers_of(segments).len(),
{
    lemma_merged_turns(segments);
}

} // verus!
