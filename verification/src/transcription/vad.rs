//! Voice-activity segmentation: turning per-chunk speech decisions into speech
//! segments, merging segments separated by short pauses, planning the trimmed
//! audio, and mapping trimmed-audio timestamps back onto the original recording.

use vstd::prelude::*;
use vstd::arithmetic::div_mod::lemma_div_is_ordered;
use vstd::arithmetic::mul::lemma_mul_inequality;
use crate::transcription::api_client::TranscriptionSegment;

verus! {

/// A detected speech segment with start/end in milliseconds.
#[derive(Debug, Clone, Copy, PartialEq, Eq)]
pub struct SpeechSegment {
    pub start_ms: u64,
    pub end_ms: u64,
}

/// Where a stretch of the trimmed audio came from in the original recording.
#[derive(Debug, Clone, Copy, PartialEq, Eq)]
pub struct TimestampMapping {
    pub trimmed_start_ms: u64,
    pub original_start_ms: u64,
    pub duration_ms: u64,
}

// ---------------------------------------------------------------------------
// Merging segments separated by short pauses
// ---------------------------------------------------------------------------

/// Segments taken in order; each one either extends the last merged segment
/// (when it starts no more than `gap` ms after that segment ends, or before
/// it ends) or starts a new one.
pub open spec fn merged_close(s: Seq<SpeechSegment>, gap: u64) -> Seq<SpeechSegment>
    decreases s.len(),
{
    if s.len() <= 1 {
        s
    } else {
        let m = merged_close(s.drop_last(), gap);
        let seg = s.last();
        let last = m.last();
        if seg.start_ms <= last.end_ms + gap {
            m.update(m.len() - 1, SpeechSegment { start_ms: last.start_ms, end_ms: seg.end_ms })
        } else {
            m.push(seg)
        }
    }
}

/// Consecutive segments are separated by a pause longer than `gap` ms.
pub open spec fn separated_by_more_than(s: Seq<SpeechSegment>, gap: u64) -> bool {
    forall|i: int| 0 <= i < s.len() - 1 ==> #[trigger] s[i + 1].start_ms > s[i].end_ms + gap
}

proof fn lemma_merged_close(s: Seq<SpeechSegment>, gap: u64)
    ensures
        s.len() >= 1 ==> merged_close(s, gap).len() >= 1,
        merged_close(s, gap).len() <= s.len(),
        separated_by_more_than(merged_close(s, gap), gap),
        s.len() >= 1 ==> merged_close(s, gap)[0].start_ms == s[0].start_ms,
        s.len() >= 1 ==> merged_close(s, gap).last().end_ms == s.last().end_ms,
        ordered_segments(s) ==> ordered_segments(merged_close(s, gap)),
    decreases s.len(),
{
    if s.len() > 1 {
        lemma_merged_close(s.drop_last(), gap);
        let m = merged_close(s.drop_last(), gap);
        let r = merged_close(s, gap);
        if ordered_segments(s) {
            assert(ordered_segments(s.drop_last())) by {
                assert forall|i: int| 0 <= i < s.len() - 2 implies #[trigger] s.drop_last()[i].end_ms
                    <= s.drop_last()[i + 1].start_ms by {
                    assert(s[i].end_ms <= s[i + 1].start_ms);
                }
            }
            assert(s[s.len() - 2].end_ms <= s.last().start_ms);
            assert forall|i: int| 0 <= i < r.len() implies #[trigger] r[i].start_ms <= r[i].end_ms by {
                if i < m.len() - 1 {
                    assert(r[i] == m[i]);
                } else if i == m.len() - 1 {
                    assert(m[i].start_ms <= m[i].end_ms);
                }
            }
            assert forall|i: int| 0 <= i < r.len() - 1 implies #[trigger] r[i].end_ms <= r[i
                + 1].start_ms by {
                assert(r[i + 1].start_ms > r[i].end_ms + gap);
            }
        }
        assert forall|i: int| 0 <= i < r.len() - 1 implies #[trigger] r[i + 1].start_ms > r[i].end_ms
            + gap by {
            if i + 1 < m.len() {
                assert(r[i + 1].start_ms == m[i + 1].start_ms);
                assert(r[i].end_ms == m[i].end_ms);
            }
        }
    }
}

/// Some segment of `r` spans all of segment `g`.
#[verifier::opaque]
pub open spec fn spanned_by_a_segment(r: Seq<SpeechSegment>, g: SpeechSegment) -> bool {
    exists|j: int|
        0 <= j < r.len() && (#[trigger] r[j]).start_ms <= g.start_ms && g.end_ms <= r[j].end_ms
}

/// Some segment of `s` starts where `t` starts.
#[verifier::opaque]
pub open spec fn starts_with_one_of(s: Seq<SpeechSegment>, t: SpeechSegment) -> bool {
    exists|i: int| 0 <= i < s.len() && (#[trigger] s[i]).start_ms == t.start_ms
}

/// Some segment of `s` ends where `t` ends.
#[verifier::opaque]
pub open spec fn ends_with_one_of(s: Seq<SpeechSegment>, t: SpeechSegment) -> bool {
    exists|i: int| 0 <= i < s.len() && (#[trigger] s[i]).end_ms == t.end_ms
}

/// The cover facts of `r` as the merged segments of `s`.
pub open spec fn segments_cover(s: Seq<SpeechSegment>, r: Seq<SpeechSegment>) -> bool {
    &&& forall|i: int| 0 <= i < s.len() ==> spanned_by_a_segment(r, #[trigger] s[i])
    &&& forall|j: int|
        0 <= j < r.len() ==> starts_with_one_of(s, #[trigger] r[j]) && ends_with_one_of(s, r[j])
            && r[j].start_ms <= r[j].end_ms
    &&& s.len() > 0 ==> r.len() > 0 && r.last().end_ms == s.last().end_ms
}

proof fn lemma_spanned_seg_at(r: Seq<SpeechSegment>, j: int, g: SpeechSegment)
    requires
        0 <= j < r.len(),
        r[j].start_ms <= g.start_ms && g.end_ms <= r[j].end_ms,
    ensures
        spanned_by_a_segment(r, g),
{
    reveal(spanned_by_a_segment);
}

proof fn lemma_starts_one_at(s: Seq<SpeechSegment>, i: int, t: SpeechSegment)
    requires
        0 <= i < s.len(),
        s[i].start_ms == t.start_ms,
    ensures
        starts_with_one_of(s, t),
{
    reveal(starts_with_one_of);
}

proof fn lemma_ends_one_at(s: Seq<SpeechSegment>, i: int, t: SpeechSegment)
    requires
        0 <= i < s.len(),
        s[i].end_ms == t.end_ms,
    ensures
        ends_with_one_of(s, t),
{
    reveal(ends_with_one_of);
}

proof fn lemma_spanned_seg_kept(r: Seq<SpeechSegment>, r2: Seq<SpeechSegment>, g: SpeechSegment, k: int)
    requires
        spanned_by_a_segment(r, g),
        0 <= k < r.len(),
        r2.len() >= r.len(),
        forall|j: int| 0 <= j < r.len() && j != k ==> r2[j] == r[j],
        r2[k].start_ms <= r[k].start_ms && r[k].end_ms <= r2[k].end_ms,
    ensures
        spanned_by_a_segment(r2, g),
{
    reveal(spanned_by_a_segment);
    let j = choose|j: int|
        0 <= j < r.len() && (#[trigger] r[j]).start_ms <= g.start_ms && g.end_ms <= r[j].end_ms;
    if j != k {
        assert(r2[j] == r[j]);
    }
}

proof fn lemma_one_of_kept(p: Seq<SpeechSegment>, s: Seq<SpeechSegment>, t: SpeechSegment)
    requires
        p.len() <= s.len(),
        forall|i: int| 0 <= i < p.len() ==> s[i] == p[i],
    ensures
        starts_with_one_of(p, t) ==> starts_with_one_of(s, t),
        ends_with_one_of(p, t) ==> ends_with_one_of(s, t),
{
    reveal(starts_with_one_of);
    reveal(ends_with_one_of);
    if starts_with_one_of(p, t) {
        let i = choose|i: int| 0 <= i < p.len() && (#[trigger] p[i]).start_ms == t.start_ms;
        assert(s[i] == p[i]);
    }
    if ends_with_one_of(p, t) {
        let i = choose|i: int| 0 <= i < p.len() && (#[trigger] p[i]).end_ms == t.end_ms;
        assert(s[i] == p[i]);
    }
}

proof fn lemma_close_step(
    p: Seq<SpeechSegment>,
    seg: SpeechSegment,
    m: Seq<SpeechSegment>,
    r: Seq<SpeechSegment>,
    gap: u64,
)
    requires
        p.len() > 0,
        seg.start_ms <= seg.end_ms,
        p.last().end_ms <= seg.start_ms,
        segments_cover(p, m),
        r == (if seg.start_ms <= m.last().end_ms + gap {
            m.update(m.len() - 1, SpeechSegment { start_ms: m.last().start_ms, end_ms: seg.end_ms })
        } else {
            m.push(seg)
        }),
    ensures
        segments_cover(p.push(seg), r),
{
    let s = p.push(seg);
    let n = p.len() as int;
    assert(s[n] == seg);
    assert forall|i: int| 0 <= i < p.len() implies #[trigger] s[i] == p[i] by {}
    let last = m.last();
    let k = m.len() - 1;
    assert(m[k] == last);
    assert(last.start_ms <= last.end_ms);
    if seg.start_ms <= last.end_ms + gap {
        assert(r[k].start_ms == last.start_ms && r[k].end_ms == seg.end_ms);
        assert forall|i: int| 0 <= i < s.len() implies spanned_by_a_segment(r, #[trigger] s[i]) by {
            if i == n {
                lemma_spanned_seg_at(r, k, seg);
            } else {
                assert(spanned_by_a_segment(m, p[i]));
                lemma_spanned_seg_kept(m, r, s[i], k);
            }
        }
        assert forall|j: int| 0 <= j < r.len() implies starts_with_one_of(s, #[trigger] r[j])
            && ends_with_one_of(s, r[j]) && r[j].start_ms <= r[j].end_ms by {
            assert(starts_with_one_of(p, m[j]) && ends_with_one_of(p, m[j]));
            lemma_one_of_kept(p, s, m[j]);
            if j == k {
                assert(starts_with_one_of(s, r[j])) by {
                    reveal(starts_with_one_of);
                }
                lemma_ends_one_at(s, n, r[j]);
            } else {
                assert(r[j] == m[j]);
            }
        }
    } else {
        assert(r[m.len() as int] == seg);
        assert forall|i: int| 0 <= i < s.len() implies spanned_by_a_segment(r, #[trigger] s[i]) by {
            if i == n {
                lemma_spanned_seg_at(r, m.len() as int, seg);
            } else {
                assert(spanned_by_a_segment(m, p[i]));
                lemma_spanned_seg_kept(m, r, s[i], k);
            }
        }
        assert forall|j: int| 0 <= j < r.len() implies starts_with_one_of(s, #[trigger] r[j])
            && ends_with_one_of(s, r[j]) && r[j].start_ms <= r[j].end_ms by {
            if j == m.len() {
                lemma_starts_one_at(s, n, r[j]);
                lemma_ends_one_at(s, n, r[j]);
            } else {
                assert(r[j] == m[j]);
                assert(starts_with_one_of(p, m[j]) && ends_with_one_of(p, m[j]));
                lemma_one_of_kept(p, s, m[j]);
            }
        }
    }
}

/// Merging ordered speech segments only joins them: every segment lies
/// inside a merged segment, so no speech is lost, and every merged segment
/// starts where one of the segments starts and ends where one of them ends
/// (and so no earlier than it starts); the last one ends with the last
/// segment.
pub proof fn lemma_merged_close_covers(s: Seq<SpeechSegment>, gap: u64)
    requires
        ordered_segments(s),
    ensures
        forall|i: int|
            0 <= i < s.len() ==> spanned_by_a_segment(merged_close(s, gap), #[trigger] s[i]),
        forall|j: int|
            0 <= j < merged_close(s, gap).len() ==> starts_with_one_of(
                s,
                #[trigger] merged_close(s, gap)[j],
            ) && ends_with_one_of(s, merged_close(s, gap)[j]) && merged_close(s, gap)[j].start_ms
                <= merged_close(s, gap)[j].end_ms,
        s.len() > 0 ==> merged_close(s, gap).len() > 0 && merged_close(s, gap).last().end_ms
            == s.last().end_ms,
    decreases s.len(),
{
    let r = merged_close(s, gap);
    if s.len() == 1 {
        assert(r[0] == s[0]);
        lemma_spanned_seg_at(r, 0, s[0]);
        lemma_starts_one_at(s, 0, r[0]);
        lemma_ends_one_at(s, 0, r[0]);
    } else if s.len() > 1 {
        let p = s.drop_last();
        assert(s == p.push(s.last()));
        assert(ordered_segments(p)) by {
            assert forall|i: int| 0 <= i < p.len() implies #[trigger] p[i].start_ms <= p[i].end_ms by {
                assert(s[i] == p[i]);
            }
            assert forall|i: int| 0 <= i < p.len() - 1 implies #[trigger] p[i].end_ms <= p[i
                + 1].start_ms by {
                assert(s[i].end_ms <= s[i + 1].start_ms);
            }
        }
        assert(s[s.len() - 2].end_ms <= s[s.len() - 1].start_ms);
        assert(s.last().start_ms <= s.last().end_ms);
        lemma_merged_close_covers(p, gap);
        lemma_close_step(p, s.last(), merged_close(p, gap), r, gap);
    }
}

/// Merges segments whose pause to the previous merged segment is at most
/// `max_gap_ms` milliseconds.
pub fn merge_close_segments(segments: &[SpeechSegment], max_gap_ms: u64) -> (merged: Vec<
    SpeechSegment,
>)
    ensures
        merged@ == merged_close(segments@, max_gap_ms),
        merged.len() <= segments.len(),
        segments.len() > 0 ==> merged.len() > 0,
        separated_by_more_than(merged@, max_gap_ms),
        ordered_segments(segments@) ==> ordered_segments(merged@),
{
    proof {
        lemma_merged_close(segments@, max_gap_ms);
    }
    if segments.len() == 0 {
        let empty: Vec<SpeechSegment> = Vec::new();
        assert(empty@ =~= merged_close(segments@, max_gap_ms));
        return empty;
    }
    let mut merged: Vec<SpeechSegment> = Vec::new();
    merged.push(segments[0]);
    assert(merged@ =~= merged_close(segments@.subrange(0, 1), max_gap_ms));
    let mut i: usize = 1;
    while i < segments.len()
        invariant
            1 <= i <= segments.len(),
            merged@ == merged_close(segments@.subrange(0, i as int), max_gap_ms),
            merged.len() >= 1,
        decreases segments.len() - i,
    {
        let seg = segments[i];
        let n = merged.len();
        let last = merged[n - 1];
        proof {
            assert(segments@.subrange(0, i + 1).drop_last() =~= segments@.subrange(0, i as int));
        }
        if seg.start_ms.saturating_sub(last.end_ms) <= max_gap_ms {
            merged.set(n - 1, SpeechSegment { start_ms: last.start_ms, end_ms: seg.end_ms });
        } else {
            merged.push(seg);
        }
        i = i + 1;
    }
    assert(segments@.subrange(0, segments.len() as int) =~= segments@);
    merged
}

// ---------------------------------------------------------------------------
// Remapping trimmed timestamps onto the original timeline
// ---------------------------------------------------------------------------

/// The millisecond where a mapping's stretch ends on the trimmed timeline.
pub open spec fn trimmed_end(m: TimestampMapping) -> int {
    m.trimmed_start_ms + m.duration_ms
}

/// Remapping scanned from mapping `i` on: the first mapping whose trimmed
/// stretch (ends included) holds `t` places it; past all of them the time is
/// extrapolated from the end of the last mapping; with no mappings it is kept.
pub open spec fn remap_from(t: int, m: Seq<TimestampMapping>, i: int) -> int
    decreases m.len() - i,
{
    if i < 0 || i >= m.len() {
        if m.len() == 0 {
            t
        } else {
            let last = m.last();
            let overshoot = if t > trimmed_end(last) { t - trimmed_end(last) } else { 0 };
            last.original_start_ms + last.duration_ms + overshoot
        }
    } else if m[i].trimmed_start_ms <= t <= trimmed_end(m[i]) {
        m[i].original_start_ms + (t - m[i].trimmed_start_ms)
    } else {
        remap_from(t, m, i + 1)
    }
}

/// Where trimmed time `t` lies on the original timeline.
pub open spec fn remapped(t: int, m: Seq<TimestampMapping>) -> int {
    remap_from(t, m, 0)
}

/// The scan from mapping `i` on reads only mappings whose trimmed end fits in
/// a `u64`.
pub open spec fn scan_fits_from(t: int, m: Seq<TimestampMapping>, i: int) -> bool
    decreases m.len() - i,
{
    if i < 0 || i >= m.len() {
        true
    } else {
        &&& trimmed_end(m[i]) <= u64::MAX
        &&& (m[i].trimmed_start_ms <= t <= trimmed_end(m[i]) || scan_fits_from(t, m, i + 1))
    }
}

/// Remapping `t` neither overflows while scanning nor in its result.
pub open spec fn remap_fits(t: int, m: Seq<TimestampMapping>) -> bool {
    &&& scan_fits_from(t, m, 0)
    &&& (m.len() > 0 ==> trimmed_end(m.last()) <= u64::MAX)
    &&& remapped(t, m) <= u64::MAX
}

/// Re-map a timestamp from trimmed-audio timeline to original timeline.
pub fn remap_timestamp(trimmed_time_ms: u64, mappings: &[TimestampMapping]) -> (r: u64)
    requires
        remap_fits(trimmed_time_ms as int, mappings@),
    ensures
        r == remapped(trimmed_time_ms as int, mappings@),
{
    let t = trimmed_time_ms;
    let mut i: usize = 0;
    while i < mappings.len()
        invariant
            i <= mappings.len(),
            t == trimmed_time_ms,
            scan_fits_from(t as int, mappings@, i as int),
            remap_fits(t as int, mappings@),
            remapped(t as int, mappings@) == remap_from(t as int, mappings@, i as int),
        decreases mappings.len() - i,
    {
        let mapping = mappings[i];
        let end = mapping.trimmed_start_ms + mapping.duration_ms;
        if t >= mapping.trimmed_start_ms && t <= end {
            let offset = t - mapping.trimmed_start_ms;
            return mapping.original_start_ms + offset;
        }
        i = i + 1;
    }
    if mappings.len() > 0 {
        let last = mappings[mappings.len() - 1];
        let end = last.trimmed_start_ms + last.duration_ms;
        let overshoot = t.saturating_sub(end);
        return last.original_start_ms + last.duration_ms + overshoot;
    }
    t
}

/// Every segment bound can be remapped without overflow.
pub open spec fn segments_remap_fit(s: Seq<TranscriptionSegment>, m: Seq<TimestampMapping>) -> bool {
    forall|i: int|
        0 <= i < s.len() ==> remap_fits(#[trigger] s[i].start_ms as int, m) && remap_fits(
            s[i].end_ms as int,
            m,
        )
}

/// A quarter of the `u64` range: times and mappings below it can always be
/// remapped.
pub const REMAP_SAFE_MS: u64 = 0x3fff_ffff_ffff_ffff;

/// Every field of every mapping is at most `REMAP_SAFE_MS`.
pub open spec fn mappings_small(m: Seq<TimestampMapping>) -> bool {
    forall|k: int|
        0 <= k < m.len() ==> (#[trigger] m[k]).trimmed_start_ms <= REMAP_SAFE_MS
            && m[k].original_start_ms <= REMAP_SAFE_MS && m[k].duration_ms <= REMAP_SAFE_MS
}

proof fn lemma_remap_bounded(t: int, m: Seq<TimestampMapping>, i: int)
    requires
        mappings_small(m),
        0 <= t <= REMAP_SAFE_MS,
        0 <= i <= m.len(),
    ensures
        scan_fits_from(t, m, i),
        remap_from(t, m, i) <= 3 * (REMAP_SAFE_MS as int),
    decreases m.len() - i,
{
    if i < m.len() {
        assert(m[i].trimmed_start_ms <= REMAP_SAFE_MS);
        lemma_remap_bounded(t, m, i + 1);
    } else if m.len() > 0 {
        assert(m[m.len() - 1].duration_ms <= REMAP_SAFE_MS);
    }
}

/// Whether every segment bound and mapping field is small enough that
/// remapping cannot overflow; when it answers yes, `remap_segments` may be
/// called.
pub fn timestamps_in_range(segments: &[TranscriptionSegment], mappings: &[TimestampMapping]) -> (ok: bool)
    ensures
        ok == (mappings_small(mappings@) && forall|i: int|
            0 <= i < segments@.len() ==> (#[trigger] segments@[i]).start_ms <= REMAP_SAFE_MS
                && segments@[i].end_ms <= REMAP_SAFE_MS),
        ok ==> segments_remap_fit(segments@, mappings@),
{
    let mut k: usize = 0;
    while k < mappings.len()
        invariant
            k <= mappings.len(),
            forall|j: int|
                0 <= j < k ==> (#[trigger] mappings@[j]).trimmed_start_ms <= REMAP_SAFE_MS
                    && mappings@[j].original_start_ms <= REMAP_SAFE_MS && mappings@[j].duration_ms
                    <= REMAP_SAFE_MS,
        decreases mappings.len() - k,
    {
        let m = mappings[k];
        if m.trimmed_start_ms > REMAP_SAFE_MS || m.original_start_ms > REMAP_SAFE_MS
            || m.duration_ms > REMAP_SAFE_MS {
            return false;
        }
        k = k + 1;
    }
    let mut i: usize = 0;
    while i < segments.len()
        invariant
            i <= segments.len(),
            mappings_small(mappings@),
            forall|j: int|
                0 <= j < i ==> (#[trigger] segments@[j]).start_ms <= REMAP_SAFE_MS
                    && segments@[j].end_ms <= REMAP_SAFE_MS,
        decreases segments.len() - i,
    {
        if segments[i].start_ms > REMAP_SAFE_MS || segments[i].end_ms > REMAP_SAFE_MS {
            return false;
        }
        i = i + 1;
    }
    proof {
        assert forall|j: int| 0 <= j < segments@.len() implies remap_fits(
            #[trigger] segments@[j].start_ms as int,
            mappings@,
        ) && remap_fits(segments@[j].end_ms as int, mappings@) by {
            lemma_remap_bounded(segments@[j].start_ms as int, mappings@, 0);
            lemma_remap_bounded(segments@[j].end_ms as int, mappings@, 0);
            if mappings@.len() > 0 {
                assert(mappings@[mappings@.len() - 1].duration_ms <= REMAP_SAFE_MS);
            }
        }
    }
    true
}

/// Re-map all segment timestamps from trimmed to original timeline.
pub fn remap_segments(segments: &mut [TranscriptionSegment], mappings: &[TimestampMapping])
    requires
        segments_remap_fit(old(segments)@, mappings@),
    ensures
        final(segments)@.len() == old(segments)@.len(),
        forall|i: int|
            0 <= i < old(segments)@.len() ==> {
                &&& #[trigger] final(segments)@[i].start_ms == remapped(
                    old(segments)@[i].start_ms as int,
                    mappings@,
                )
                &&& final(segments)@[i].end_ms == remapped(old(segments)@[i].end_ms as int, mappings@)
                &&& final(segments)@[i].text == old(segments)@[i].text
            },
{
    let ghost original = segments@;
    let mut i: usize = 0;
    while i < segments.len()
        invariant
            segments@.len() == original.len(),
            i <= segments@.len(),
            segments_remap_fit(original, mappings@),
            forall|j: int|
                0 <= j < i ==> {
                    &&& #[trigger] segments@[j].start_ms == remapped(
                        original[j].start_ms as int,
                        mappings@,
                    )
                    &&& segments@[j].end_ms == remapped(original[j].end_ms as int, mappings@)
                    &&& segments@[j].text == original[j].text
                },
            forall|j: int| i <= j < segments@.len() ==> #[trigger] segments@[j] == original[j],
        decreases segments@.len() - i,
    {
        let start = remap_timestamp(segments[i].start_ms, mappings);
        let end = remap_timestamp(segments[i].end_ms, mappings);
        let text = segments[i].text.clone();
        segments[i] = TranscriptionSegment { start_ms: start, end_ms: end, text };
        i = i + 1;
    }
}

// ---------------------------------------------------------------------------
// Speech detection from per-chunk decisions
// ---------------------------------------------------------------------------

/// The millisecond at which chunk `i` starts: its first sample over the
/// number of samples per millisecond, truncated.
pub open spec fn chunk_start_ms(i: int, chunk_size: int, sample_rate: int) -> int {
    (i * chunk_size * 1000) / sample_rate
}

/// The length of `sample_count` samples in milliseconds, truncated.
pub open spec fn duration_ms(sample_count: int, sample_rate: int) -> int {
    (sample_count * 1000) / sample_rate
}

/// The detector state after the given chunk decisions: the closed segments,
/// whether speech is ongoing, and where the ongoing (or last) speech began.
/// Speech starts at the first speech chunk after silence and ends at the first
/// silent chunk after speech; a stretch of 100 ms or less is dropped.
pub open spec fn detector_state(speech: Seq<bool>, chunk_size: int, sample_rate: int) -> (
    Seq<SpeechSegment>,
    bool,
    int,
)
    decreases speech.len(),
{
    if speech.len() == 0 {
        (Seq::empty(), false, 0)
    } else {
        let prev = detector_state(speech.drop_last(), chunk_size, sample_rate);
        let cur = chunk_start_ms(speech.len() - 1, chunk_size, sample_rate);
        if speech.last() && !prev.1 {
            (prev.0, true, cur)
        } else if !speech.last() && prev.1 {
            if cur - prev.2 > 100 {
                (
                    prev.0.push(SpeechSegment { start_ms: prev.2 as u64, end_ms: cur as u64 }),
                    false,
                    prev.2,
                )
            } else {
                (prev.0, false, prev.2)
            }
        } else {
            prev
        }
    }
}

/// The speech segments of a recording of `sample_count` samples whose complete
/// chunks were judged `speech`; speech still ongoing at the last chunk runs to
/// the end of the recording.
pub open spec fn detected_segments(
    speech: Seq<bool>,
    chunk_size: int,
    sample_rate: int,
    sample_count: int,
) -> Seq<SpeechSegment> {
    let st = detector_state(speech, chunk_size, sample_rate);
    if st.1 {
        st.0.push(
            SpeechSegment {
                start_ms: st.2 as u64,
                end_ms: duration_ms(sample_count, sample_rate) as u64,
            },
        )
    } else {
        st.0
    }
}

proof fn lemma_chunk_start_ordered(i: int, j: int, chunk_size: int, sample_rate: int)
    requires
        0 <= i <= j,
        chunk_size >= 0,
        sample_rate > 0,
    ensures
        0 <= chunk_start_ms(i, chunk_size, sample_rate) <= chunk_start_ms(j, chunk_size, sample_rate),
{
    lemma_mul_inequality(i, j, chunk_size);
    lemma_mul_inequality(i * chunk_size, j * chunk_size, 1000);
    lemma_mul_inequality(0, i, chunk_size);
    lemma_mul_inequality(0, i * chunk_size, 1000);
    lemma_div_is_ordered(i * chunk_size * 1000, j * chunk_size * 1000, sample_rate);
    lemma_div_is_ordered(0, i * chunk_size * 1000, sample_rate);
}

proof fn lemma_chunk_within_recording(i: int, n_chunks: int, chunk_size: int, sample_rate: int, sample_count: int)
    requires
        0 <= i <= n_chunks,
        chunk_size >= 0,
        sample_rate > 0,
        n_chunks * chunk_size <= sample_count,
    ensures
        i * chunk_size <= sample_count,
        chunk_start_ms(i, chunk_size, sample_rate) <= duration_ms(sample_count, sample_rate),
{
    lemma_mul_inequality(i, n_chunks, chunk_size);
    lemma_mul_inequality(i * chunk_size, sample_count, 1000);
    lemma_div_is_ordered(i * chunk_size * 1000, sample_count * 1000, sample_rate);
}

proof fn lemma_detector_start(speech: Seq<bool>, chunk_size: int, sample_rate: int)
    requires
        chunk_size >= 0,
        sample_rate > 0,
    ensures
        0 <= detector_state(speech, chunk_size, sample_rate).2 <= chunk_start_ms(
            speech.len() as int,
            chunk_size,
            sample_rate,
        ),
    decreases speech.len(),
{
    if speech.len() > 0 {
        lemma_detector_start(speech.drop_last(), chunk_size, sample_rate);
        lemma_chunk_start_ordered(speech.len() - 1, speech.len() as int, chunk_size, sample_rate);
    }
}

/// Segments that each start no later than they end, in order, without overlap.
pub open spec fn ordered_segments(s: Seq<SpeechSegment>) -> bool {
    &&& forall|i: int| 0 <= i < s.len() ==> #[trigger] s[i].start_ms <= s[i].end_ms
    &&& forall|i: int| 0 <= i < s.len() - 1 ==> #[trigger] s[i].end_ms <= s[i + 1].start_ms
}

proof fn lemma_detector_ordered(speech: Seq<bool>, chunk_size: int, sample_rate: int)
    requires
        chunk_size >= 0,
        sample_rate > 0,
        chunk_start_ms(speech.len() as int, chunk_size, sample_rate) <= u64::MAX,
    ensures
        ({
            let st = detector_state(speech, chunk_size, sample_rate);
            &&& ordered_segments(st.0)
            &&& forall|i: int| 0 <= i < st.0.len() ==> #[trigger] st.0[i].end_ms - st.0[i].start_ms > 100
            &&& st.0.len() > 0 ==> st.0.last().end_ms <= chunk_start_ms(
                speech.len() as int,
                chunk_size,
                sample_rate,
            )
            &&& st.1 && st.0.len() > 0 ==> st.0.last().end_ms <= st.2
        }),
    decreases speech.len(),
{
    if speech.len() > 0 {
        let k = speech.len() - 1;
        lemma_chunk_start_ordered(k, speech.len() as int, chunk_size, sample_rate);
        lemma_detector_ordered(speech.drop_last(), chunk_size, sample_rate);
        lemma_detector_start(speech.drop_last(), chunk_size, sample_rate);
        let prev = detector_state(speech.drop_last(), chunk_size, sample_rate);
        let st = detector_state(speech, chunk_size, sample_rate);
        let cur = chunk_start_ms(k, chunk_size, sample_rate);
        if !speech.last() && prev.1 && cur - prev.2 > 100 {
            let seg = SpeechSegment { start_ms: prev.2 as u64, end_ms: cur as u64 };
            assert(st.0 == prev.0.push(seg));
            assert forall|i: int| 0 <= i < st.0.len() - 1 implies #[trigger] st.0[i].end_ms
                <= st.0[i + 1].start_ms by {
                if i + 1 < prev.0.len() {
                    assert(st.0[i + 1] == prev.0[i + 1]);
                }
            }
            assert forall|i: int| 0 <= i < st.0.len() implies #[trigger] st.0[i].start_ms
                <= st.0[i].end_ms by {
                if i < prev.0.len() {
                    assert(st.0[i] == prev.0[i]);
                }
            }
            assert forall|i: int| 0 <= i < st.0.len() implies #[trigger] st.0[i].end_ms
                - st.0[i].start_ms > 100 by {
                if i < prev.0.len() {
                    assert(st.0[i] == prev.0[i]);
                }
            }
        }
    }
}

/// Speech segments from the decisions made on each complete chunk of
/// `chunk_size` samples of a recording of `sample_count` samples.
pub fn detect_speech_segments(
    is_speech: &[bool],
    chunk_size: u64,
    sample_rate: u32,
    sample_count: u64,
) -> (segments: Vec<SpeechSegment>)
    requires
        sample_rate > 0,
        is_speech@.len() * chunk_size <= sample_count,
        duration_ms(sample_count as int, sample_rate as int) <= u64::MAX,
    ensures
        segments@ == detected_segments(
            is_speech@,
            chunk_size as int,
            sample_rate as int,
            sample_count as int,
        ),
        ordered_segments(segments@),
{
    let ghost cs = chunk_size as int;
    let ghost rate = sample_rate as int;
    let mut segments: Vec<SpeechSegment> = Vec::new();
    let mut in_speech = false;
    let mut speech_start_ms: u64 = 0;
    let mut i: usize = 0;
    assert(is_speech@.subrange(0, 0) =~= Seq::<bool>::empty());
    while i < is_speech.len()
        invariant
            i <= is_speech@.len(),
            sample_rate > 0,
            is_speech@.len() * chunk_size <= sample_count,
            duration_ms(sample_count as int, sample_rate as int) <= u64::MAX,
            cs == chunk_size as int,
            rate == sample_rate as int,
            segments@ == detector_state(is_speech@.subrange(0, i as int), cs, rate).0,
            in_speech == detector_state(is_speech@.subrange(0, i as int), cs, rate).1,
            speech_start_ms as int == detector_state(is_speech@.subrange(0, i as int), cs, rate).2,
        decreases is_speech@.len() - i,
    {
        let ghost prefix = is_speech@.subrange(0, i as int);
        let ghost next = is_speech@.subrange(0, i + 1);
        proof {
            assert(next.drop_last() =~= prefix);
            lemma_chunk_within_recording(i as int, is_speech@.len() as int, cs, rate, sample_count as int);
            lemma_detector_start(prefix, cs, rate);
        }
        let first_sample: u128 = i as u128 * chunk_size as u128;
        let current_ms: u64 = ((first_sample * 1000) / sample_rate as u128) as u64;
        assert(current_ms as int == chunk_start_ms(i as int, cs, rate));
        let p = is_speech[i];
        if p && !in_speech {
            in_speech = true;
            speech_start_ms = current_ms;
        } else if !p && in_speech {
            in_speech = false;
            let end_ms = current_ms;
            if end_ms - speech_start_ms > 100 {
                segments.push(SpeechSegment { start_ms: speech_start_ms, end_ms });
            }
        }
        i = i + 1;
    }
    assert(is_speech@.subrange(0, is_speech@.len() as int) =~= is_speech@);
    proof {
        lemma_chunk_within_recording(
            is_speech@.len() as int,
            is_speech@.len() as int,
            cs,
            rate,
            sample_count as int,
        );
        lemma_detector_ordered(is_speech@, cs, rate);
        lemma_detector_start(is_speech@, cs, rate);
    }
    if in_speech {
        proof {
            lemma_detector_start(is_speech@, cs, rate);
            lemma_chunk_within_recording(
                is_speech@.len() as int,
                is_speech@.len() as int,
                cs,
                rate,
                sample_count as int,
            );
        }
        let total_ms: u64 = ((sample_count as u128 * 1000) / sample_rate as u128) as u64;
        segments.push(SpeechSegment { start_ms: speech_start_ms, end_ms: total_ms });
    }
    segments
}

// ---------------------------------------------------------------------------
// Planning the trimmed audio
// ---------------------------------------------------------------------------

/// A half-open range of sample indices of the original recording.
#[derive(Debug, Clone, Copy, PartialEq, Eq)]
pub struct SampleRange {
    pub start: usize,
    pub end: usize,
}

/// What the trimmed audio is made of: the sample ranges to copy, in order,
/// and where each stretch of the result came from.
#[derive(Debug, Clone)]
pub struct TrimPlan {
    pub sample_ranges: Vec<SampleRange>,
    pub timestamp_mappings: Vec<TimestampMapping>,
    pub trimmed_duration_ms: u64,
}

/// The sample at millisecond `ms`, truncated.
pub open spec fn sample_at(ms: int, sample_rate: int) -> int {
    (ms * sample_rate) / 1000
}

/// The plan for the given speech segments, in order: a segment whose sample
/// range (its end capped at the recording's length) is not empty contributes
/// that range and a mapping that places it right after the stretches before
/// it; the third component is the total trimmed length in milliseconds.
pub open spec fn trim_plan(s: Seq<SpeechSegment>, sample_rate: int, sample_count: int) -> (
    Seq<SampleRange>,
    Seq<TimestampMapping>,
    int,
)
    decreases s.len(),
{
    if s.len() == 0 {
        (Seq::empty(), Seq::empty(), 0)
    } else {
        let prev = trim_plan(s.drop_last(), sample_rate, sample_count);
        let seg = s.last();
        let first = sample_at(seg.start_ms as int, sample_rate);
        let stop = if sample_at(seg.end_ms as int, sample_rate) < sample_count {
            sample_at(seg.end_ms as int, sample_rate)
        } else {
            sample_count
        };
        if first < stop {
            (
                prev.0.push(SampleRange { start: first as usize, end: stop as usize }),
                prev.1.push(
                    TimestampMapping {
                        trimmed_start_ms: prev.2 as u64,
                        original_start_ms: seg.start_ms,
                        duration_ms: (seg.end_ms - seg.start_ms) as u64,
                    },
                ),
                prev.2 + (seg.end_ms - seg.start_ms),
            )
        } else {
            prev
        }
    }
}

/// Mappings laid end to end on the trimmed timeline, starting at 0.
pub open spec fn contiguous(m: Seq<TimestampMapping>) -> bool {
    &&& m.len() > 0 ==> m[0].trimmed_start_ms == 0
    &&& forall|i: int|
        0 <= i < m.len() - 1 ==> #[trigger] m[i + 1].trimmed_start_ms == trimmed_end(m[i])
}

/// Mappings whose stretches follow one another on the original timeline
/// too, each starting no earlier than the one before it ends.
pub open spec fn originals_in_order(m: Seq<TimestampMapping>) -> bool {
    forall|i: int|
        0 <= i < m.len() - 1 ==> #[trigger] m[i + 1].original_start_ms >= m[i].original_start_ms
            + m[i].duration_ms
}

/// The trimmed length that mappings laid end to end cover.
pub open spec fn covered_ms(m: Seq<TimestampMapping>) -> int {
    if m.len() == 0 {
        0
    } else {
        trimmed_end(m.last())
    }
}

proof fn lemma_sample_at_ordered(a: int, b: int, sample_rate: int)
    requires
        0 <= a <= b,
        sample_rate >= 0,
    ensures
        0 <= sample_at(a, sample_rate) <= sample_at(b, sample_rate),
{
    lemma_mul_inequality(a, b, sample_rate);
    lemma_mul_inequality(0, a, sample_rate);
    lemma_div_is_ordered(a * sample_rate, b * sample_rate, 1000);
    lemma_div_is_ordered(0, a * sample_rate, 1000);
}

proof fn lemma_trim_plan(s: Seq<SpeechSegment>, sample_rate: int, sample_count: int)
    requires
        sample_rate >= 0,
        0 <= sample_count <= usize::MAX,
        trim_plan(s, sample_rate, sample_count).2 <= u64::MAX,
    ensures
        ({
            let p = trim_plan(s, sample_rate, sample_count);
            &&& p.2 >= 0
            &&& p.0.len() == p.1.len()
            &&& contiguous(p.1)
            &&& covered_ms(p.1) == p.2
            &&& forall|k: int|
                0 <= k < p.0.len() ==> #[trigger] p.0[k].start < p.0[k].end <= sample_count
            &&& forall|k: int|
                0 <= k <= s.len() ==> #[trigger] trim_plan(s.subrange(0, k), sample_rate, sample_count).2
                    <= p.2
        }),
    decreases s.len(),
{
    let p = trim_plan(s, sample_rate, sample_count);
    if s.len() > 0 {
        let prev = trim_plan(s.drop_last(), sample_rate, sample_count);
        let seg = s.last();
        if seg.start_ms > seg.end_ms {
            lemma_sample_at_ordered(seg.end_ms as int, seg.start_ms as int, sample_rate);
        }
        lemma_sample_at_ordered(0, seg.start_ms as int, sample_rate);
        lemma_trim_plan(s.drop_last(), sample_rate, sample_count);
        assert forall|k: int| 0 <= k <= s.len() implies #[trigger] trim_plan(
            s.subrange(0, k),
            sample_rate,
            sample_count,
        ).2 <= p.2 by {
            if k < s.len() {
                assert(s.subrange(0, k) =~= s.drop_last().subrange(0, k));
            } else {
                assert(s.subrange(0, k) =~= s);
            }
        }
        let first = sample_at(seg.start_ms as int, sample_rate);
        let stop = if sample_at(seg.end_ms as int, sample_rate) < sample_count {
            sample_at(seg.end_ms as int, sample_rate)
        } else {
            sample_count
        };
        if first < stop {
            let m = TimestampMapping {
                trimmed_start_ms: prev.2 as u64,
                original_start_ms: seg.start_ms,
                duration_ms: (seg.end_ms - seg.start_ms) as u64,
            };
            let r = SampleRange { start: first as usize, end: stop as usize };
            assert(p.1 == prev.1.push(m));
            assert(p.0 == prev.0.push(r));
            assert forall|i: int| 0 <= i < p.1.len() - 1 implies #[trigger] p.1[i + 1].trimmed_start_ms
                == trimmed_end(p.1[i]) by {
                if i + 1 < prev.1.len() {
                    assert(p.1[i + 1] == prev.1[i + 1]);
                    assert(p.1[i] == prev.1[i]);
                } else {
                    assert(p.1[i] == prev.1.last());
                }
            }
            assert forall|k: int| 0 <= k < p.0.len() implies #[trigger] p.0[k].start < p.0[k].end
                <= sample_count by {
                if k < prev.0.len() {
                    assert(p.0[k] == prev.0[k]);
                }
            }
        }
    } else {
        assert forall|k: int| 0 <= k <= s.len() implies #[trigger] trim_plan(
            s.subrange(0, k),
            sample_rate,
            sample_count,
        ).2 <= p.2 by {
            assert(s.subrange(0, k) =~= s);
        }
    }
}

/// Plans the trimmed audio for the merged speech segments of a recording of
/// `sample_count` samples at `sample_rate` Hz.
pub fn plan_trim(segments: &[SpeechSegment], sample_rate: u32, sample_count: usize) -> (plan:
    TrimPlan)
    requires
        trim_plan(segments@, sample_rate as int, sample_count as int).2 <= u64::MAX,
    ensures
        plan.sample_ranges@ == trim_plan(segments@, sample_rate as int, sample_count as int).0,
        plan.timestamp_mappings@ == trim_plan(segments@, sample_rate as int, sample_count as int).1,
        plan.trimmed_duration_ms == trim_plan(segments@, sample_rate as int, sample_count as int).2,
        contiguous(plan.timestamp_mappings@),
        covered_ms(plan.timestamp_mappings@) == plan.trimmed_duration_ms,
        plan.sample_ranges@.len() == plan.timestamp_mappings@.len(),
        forall|k: int|
            0 <= k < plan.sample_ranges@.len() ==> #[trigger] plan.sample_ranges@[k].start
                < plan.sample_ranges@[k].end <= sample_count,
{
    let ghost rate = sample_rate as int;
    let ghost n = sample_count as int;
    proof {
        lemma_trim_plan(segments@, rate, n);
    }
    let mut ranges: Vec<SampleRange> = Vec::new();
    let mut mappings: Vec<TimestampMapping> = Vec::new();
    let mut offset: u64 = 0;
    let mut i: usize = 0;
    assert(segments@.subrange(0, 0) =~= Seq::<SpeechSegment>::empty());
    while i < segments.len()
        invariant
            i <= segments@.len(),
            rate == sample_rate as int,
            n == sample_count as int,
            trim_plan(segments@, rate, n).2 <= u64::MAX,
            forall|k: int|
                0 <= k <= segments@.len() ==> #[trigger] trim_plan(segments@.subrange(0, k), rate, n).2
                    <= trim_plan(segments@, rate, n).2,
            ranges@ == trim_plan(segments@.subrange(0, i as int), rate, n).0,
            mappings@ == trim_plan(segments@.subrange(0, i as int), rate, n).1,
            offset as int == trim_plan(segments@.subrange(0, i as int), rate, n).2,
        decreases segments@.len() - i,
    {
        let seg = segments[i];
        proof {
            assert(segments@.subrange(0, i + 1).drop_last() =~= segments@.subrange(0, i as int));
            assert(trim_plan(segments@.subrange(0, i + 1), rate, n).2 <= trim_plan(segments@, rate, n).2);
            lemma_sample_at_ordered(0, seg.start_ms as int, rate);
            lemma_sample_at_ordered(0, seg.end_ms as int, rate);
            if seg.start_ms > seg.end_ms {
                lemma_sample_at_ordered(seg.end_ms as int, seg.start_ms as int, rate);
            }
        }
        proof {
            lemma_mul_inequality(seg.start_ms as int, u64::MAX as int, sample_rate as int);
            lemma_mul_inequality(seg.end_ms as int, u64::MAX as int, sample_rate as int);
            lemma_mul_inequality(sample_rate as int, u32::MAX as int, u64::MAX as int);
        }
        let first: u128 = (seg.start_ms as u128 * sample_rate as u128) / 1000;
        let capped: u128 = (seg.end_ms as u128 * sample_rate as u128) / 1000;
        let stop: u128 = if capped < sample_count as u128 {
            capped
        } else {
            sample_count as u128
        };
        if first < stop {
            let duration_ms = seg.end_ms - seg.start_ms;
            ranges.push(SampleRange { start: first as usize, end: stop as usize });
            mappings.push(
                TimestampMapping {
                    trimmed_start_ms: offset,
                    original_start_ms: seg.start_ms,
                    duration_ms,
                },
            );
            offset = offset + duration_ms;
        }
        i = i + 1;
    }
    assert(segments@.subrange(0, segments@.len() as int) =~= segments@);
    TrimPlan { sample_ranges: ranges, timestamp_mappings: mappings, trimmed_duration_ms: offset }
}

// ---------------------------------------------------------------------------
// From chunk decisions to the trimmed audio
// ---------------------------------------------------------------------------

/// How many samples the detector judges at a time.
pub const CHUNK_SIZE: u64 = 512;

/// Speech segments separated by at most this many milliseconds are merged.
pub const MAX_MERGE_GAP_MS: u64 = 300;

/// The speech found in a recording and how to trim it to that speech.
#[derive(Debug, Clone)]
pub struct SpeechPlan {
    pub speech_segments: Vec<SpeechSegment>,
    pub trim: TrimPlan,
    pub original_duration_ms: u64,
}

proof fn lemma_trim_total_bounded(s: Seq<SpeechSegment>, sample_rate: int, sample_count: int)
    requires
        ordered_segments(s),
        sample_rate >= 0,
        sample_count >= 0,
    ensures
        s.len() > 0 ==> trim_plan(s, sample_rate, sample_count).2 <= s.last().end_ms - s[0].start_ms,
        s.len() == 0 ==> trim_plan(s, sample_rate, sample_count).2 == 0,
    decreases s.len(),
{
    if s.len() > 0 {
        let p = s.drop_last();
        assert(ordered_segments(p)) by {
            assert forall|i: int| 0 <= i < p.len() - 1 implies #[trigger] p[i].end_ms <= p[i
                + 1].start_ms by {
                assert(s[i].end_ms <= s[i + 1].start_ms);
            }
        }
        lemma_trim_total_bounded(p, sample_rate, sample_count);
        let seg = s.last();
        assert(seg.start_ms <= seg.end_ms);
        if p.len() > 0 {
            assert(p.last().end_ms <= seg.start_ms);
            assert(s[0] == p[0]);
        }
        if seg.start_ms > seg.end_ms {
            lemma_sample_at_ordered(seg.end_ms as int, seg.start_ms as int, sample_rate);
        }
    }
}

/// Speech of a recording of `sample_count` samples at `sample_rate` Hz, from
/// the decisions made on its complete chunks of 512 samples: the speech
/// segments, merged across pauses of at most 300 ms, and the plan of the
/// audio trimmed to them.
pub fn speech_trim_plan(is_speech: &[bool], sample_rate: u32, sample_count: usize) -> (plan:
    SpeechPlan)
    requires
        sample_rate > 0,
        is_speech@.len() * CHUNK_SIZE <= sample_count,
        duration_ms(sample_count as int, sample_rate as int) <= u64::MAX,
    ensures
        plan.original_duration_ms == duration_ms(sample_count as int, sample_rate as int),
        plan.speech_segments@ == merged_close(
            detected_segments(
                is_speech@,
                CHUNK_SIZE as int,
                sample_rate as int,
                sample_count as int,
            ),
            MAX_MERGE_GAP_MS,
        ),
        ordered_segments(plan.speech_segments@),
        separated_by_more_than(plan.speech_segments@, MAX_MERGE_GAP_MS),
        plan.trim.sample_ranges@ == trim_plan(
            plan.speech_segments@,
            sample_rate as int,
            sample_count as int,
        ).0,
        plan.trim.timestamp_mappings@ == trim_plan(
            plan.speech_segments@,
            sample_rate as int,
            sample_count as int,
        ).1,
        plan.trim.trimmed_duration_ms == trim_plan(
            plan.speech_segments@,
            sample_rate as int,
            sample_count as int,
        ).2,
        contiguous(plan.trim.timestamp_mappings@),
        originals_in_order(plan.trim.timestamp_mappings@),
        covered_ms(plan.trim.timestamp_mappings@) == plan.trim.trimmed_duration_ms,
{
    let detected = detect_speech_segments(is_speech, CHUNK_SIZE, sample_rate, sample_count as u64);
    let merged = merge_close_segments(detected.as_slice(), MAX_MERGE_GAP_MS);
    proof {
        lemma_trim_total_bounded(merged@, sample_rate as int, sample_count as int);
    }
    let trim = plan_trim(merged.as_slice(), sample_rate, sample_count);
    proof {
        lemma_trim_plan_in_order(merged@, sample_rate as int, sample_count as int);
    }
    let total: u64 = ((sample_count as u128 * 1000) / sample_rate as u128) as u64;
    SpeechPlan { speech_segments: merged, trim, original_duration_ms: total }
}

// ---------------------------------------------------------------------------
// Laws
// ---------------------------------------------------------------------------

proof fn lemma_contiguous_starts_ordered(m: Seq<TimestampMapping>, j: int, i: int)
    requires
        contiguous(m),
        0 <= j <= i < m.len(),
    ensures
        m[j].trimmed_start_ms <= m[i].trimmed_start_ms,
        j < i ==> trimmed_end(m[j]) <= m[i].trimmed_start_ms,
    decreases i - j,
{
    if j < i {
        lemma_contiguous_starts_ordered(m, j + 1, i);
        assert(m[j + 1].trimmed_start_ms == trimmed_end(m[j]));
    }
}

proof fn lemma_remap_skips(t: int, m: Seq<TimestampMapping>, j: int, i: int)
    requires
        0 <= j <= i < m.len(),
        forall|k: int| j <= k < i ==> t > trimmed_end(#[trigger] m[k]),
    ensures
        remap_from(t, m, j) == remap_from(t, m, i),
    decreases i - j,
{
    if j < i {
        lemma_remap_skips(t, m, j + 1, i);
    }
}

proof fn lemma_trim_plan_in_order(s: Seq<SpeechSegment>, sample_rate: int, sample_count: int)
    requires
        ordered_segments(s),
    ensures
        originals_in_order(trim_plan(s, sample_rate, sample_count).1),
        s.len() > 0 ==> forall|k: int|
            0 <= k < trim_plan(s, sample_rate, sample_count).1.len() ==> #[trigger] trim_plan(
                s,
                sample_rate,
                sample_count,
            ).1[k].original_start_ms + trim_plan(s, sample_rate, sample_count).1[k].duration_ms
                <= s.last().end_ms,
    decreases s.len(),
{
    if s.len() > 0 {
        let d = s.drop_last();
        assert(ordered_segments(d)) by {
            assert forall|i: int| 0 <= i < d.len() implies #[trigger] d[i].start_ms <= d[i].end_ms by {
                assert(d[i] == s[i]);
            }
            assert forall|i: int| 0 <= i < d.len() - 1 implies #[trigger] d[i].end_ms <= d[i
                + 1].start_ms by {
                assert(d[i] == s[i] && d[i + 1] == s[i + 1]);
            }
        }
        lemma_trim_plan_in_order(d, sample_rate, sample_count);
        let prev = trim_plan(d, sample_rate, sample_count).1;
        let m = trim_plan(s, sample_rate, sample_count).1;
        let seg = s.last();
        assert(seg.start_ms <= seg.end_ms);
        if d.len() > 0 {
            assert(d.last() == s[s.len() - 2]);
            assert(s[s.len() - 2].end_ms <= s[s.len() - 1].start_ms);
        }
        if m.len() > prev.len() {
            assert(m == prev.push(m.last()));
            assert(m.last().original_start_ms == seg.start_ms);
            assert(m.last().duration_ms == seg.end_ms - seg.start_ms);
            assert forall|i: int| 0 <= i < m.len() - 1 implies #[trigger] m[i + 1].original_start_ms
                >= m[i].original_start_ms + m[i].duration_ms by {
                assert(m[i] == prev[i]);
                if i + 1 < prev.len() {
                    assert(m[i + 1] == prev[i + 1]);
                } else {
                    assert(prev[i].original_start_ms + prev[i].duration_ms <= d.last().end_ms);
                }
            }
            assert forall|k: int| 0 <= k < m.len() implies #[trigger] m[k].original_start_ms
                + m[k].duration_ms <= s.last().end_ms by {
                if k < prev.len() {
                    assert(m[k] == prev[k]);
                    assert(prev[k].original_start_ms + prev[k].duration_ms <= d.last().end_ms);
                }
            }
        } else {
            assert(m == prev);
            assert forall|k: int| 0 <= k < m.len() implies #[trigger] m[k].original_start_ms
                + m[k].duration_ms <= s.last().end_ms by {
                assert(prev[k].original_start_ms + prev[k].duration_ms <= d.last().end_ms);
            }
        }
    }
}

proof fn lemma_originals_past_trimmed(m: Seq<TimestampMapping>, i: int)
    requires
        contiguous(m),
        originals_in_order(m),
        0 <= i < m.len(),
    ensures
        m[i].original_start_ms >= m[i].trimmed_start_ms,
    decreases i,
{
    if i > 0 {
        let j = i - 1;
        lemma_originals_past_trimmed(m, j);
        assert(m[j + 1].trimmed_start_ms == trimmed_end(m[j]));
        assert(m[j + 1].original_start_ms >= m[j].original_start_ms + m[j].duration_ms);
    }
}

proof fn lemma_remap_from_ordered(m: Seq<TimestampMapping>, i: int, t1: int, t2: int)
    requires
        contiguous(m),
        originals_in_order(m),
        0 <= i < m.len(),
        m[i].trimmed_start_ms <= t1 <= t2,
    ensures
        remap_from(t1, m, i) <= remap_from(t2, m, i),
        remap_from(t1, m, i) >= m[i].original_start_ms + (t1 - m[i].trimmed_start_ms),
    decreases m.len() - i,
{
    reveal_with_fuel(remap_from, 2);
    let e = trimmed_end(m[i]);
    if i + 1 < m.len() {
        assert(m[i + 1].trimmed_start_ms == e);
        assert(m[i + 1].original_start_ms >= m[i].original_start_ms + m[i].duration_ms);
        if t1 > e {
            lemma_remap_from_ordered(m, i + 1, t1, t2);
        } else if t2 > e {
            lemma_remap_from_ordered(m, i + 1, t2, t2);
        }
    } else {
        assert(m.last() == m[i]);
    }
}

/// For mappings laid end to end on the trimmed timeline and in order on the
/// original one, as a trim plan makes them, remapping never moves a time
/// earlier and never swaps two times.
pub proof fn lemma_remap_monotone(m: Seq<TimestampMapping>, t1: int, t2: int)
    requires
        contiguous(m),
        originals_in_order(m),
        0 <= t1 <= t2,
    ensures
        remapped(t1, m) <= remapped(t2, m),
        remapped(t1, m) >= t1,
{
    if m.len() > 0 {
        lemma_remap_from_ordered(m, 0, t1, t2);
        lemma_originals_past_trimmed(m, 0);
    }
}

/// For mappings laid end to end, as a trim plan makes them, a trimmed time in
/// the stretch of mapping `i` (past that stretch's first millisecond, unless
/// `i` is the first mapping) lies the same distance past the stretch's start
/// on the original timeline. A time on the boundary of two stretches belongs
/// to the earlier one.
pub proof fn lemma_remap_within_stretch(m: Seq<TimestampMapping>, i: int, t: int)
    requires
        contiguous(m),
        0 <= i < m.len(),
        m[i].trimmed_start_ms <= t <= trimmed_end(m[i]),
        i == 0 || t > m[i].trimmed_start_ms,
    ensures
        remapped(t, m) == m[i].original_start_ms + (t - m[i].trimmed_start_ms),
{
    assert forall|k: int| 0 <= k < i implies t > trimmed_end(#[trigger] m[k]) by {
        lemma_contiguous_starts_ordered(m, k, i);
    }
    lemma_remap_skips(t, m, 0, i);
}

/// Every stretch of a trim plan places its trimmed milliseconds (past its
/// first one, unless it is the first stretch) at the same offset past the
/// start of the speech segment it came from.
pub proof fn lemma_plan_remaps_back(
    segments: Seq<SpeechSegment>,
    sample_rate: u32,
    sample_count: usize,
    i: int,
    d: int,
)
    requires
        trim_plan(segments, sample_rate as int, sample_count as int).2 <= u64::MAX,
        0 <= i < trim_plan(segments, sample_rate as int, sample_count as int).1.len(),
        0 <= d <= trim_plan(segments, sample_rate as int, sample_count as int).1[i].duration_ms,
        i == 0 || d > 0,
    ensures
        ({
            let m = trim_plan(segments, sample_rate as int, sample_count as int).1;
            remapped(m[i].trimmed_start_ms + d, m) == m[i].original_start_ms + d
        }),
{
    lemma_trim_plan(segments, sample_rate as int, sample_count as int);
    let m = trim_plan(segments, sample_rate as int, sample_count as int).1;
    lemma_remap_within_stretch(m, i, m[i].trimmed_start_ms + d);
}

} // verus!
