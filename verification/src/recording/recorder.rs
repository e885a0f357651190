//! Choosing the input stream configuration for recording. Opening the device
//! and capturing samples are left to the caller.

use vstd::prelude::*;

verus! {

/// The sample rate asked of the input device.
pub const TARGET_SAMPLE_RATE: u32 = 48000;

/// A range of stream configurations an input device supports.
#[derive(Debug, Clone, Copy, PartialEq, Eq)]
pub struct ConfigRange {
    pub channels: u16,
    /// Whether the samples are 32-bit floats.
    pub is_f32: bool,
    pub min_sample_rate: u32,
    pub max_sample_rate: u32,
}

/// The stream configuration to record with.
#[derive(Debug, Clone, Copy, PartialEq, Eq)]
pub struct RecordingConfig {
    pub channels: u16,
    pub sample_rate: u32,
}

/// The best range so far: the first 32-bit float range, replaced by a later
/// one only when that one has fewer channels.
pub open spec fn best_range(s: Seq<ConfigRange>) -> Option<ConfigRange>
    decreases s.len(),
{
    if s.len() == 0 {
        None
    } else {
        let prev = best_range(s.drop_last());
        let cfg = s.last();
        if !cfg.is_f32 {
            prev
        } else {
            match prev {
                None => Some(cfg),
                Some(cur) => if cfg.channels < cur.channels {
                    Some(cfg)
                } else {
                    prev
                },
            }
        }
    }
}

/// 48 kHz, raised to the range's minimum and then lowered to its maximum.
pub open spec fn clamped_rate(r: ConfigRange) -> u32 {
    let raised = if TARGET_SAMPLE_RATE > r.min_sample_rate {
        TARGET_SAMPLE_RATE
    } else {
        r.min_sample_rate
    };
    if raised < r.max_sample_rate {
        raised
    } else {
        r.max_sample_rate
    }
}

/// Picks the configuration: among 32-bit float ranges the first with the
/// fewest channels, at 48 kHz clamped to its supported rates; refused when
/// the device offers no 32-bit float range.
pub fn pick_config(supported: &[ConfigRange]) -> (config: Result<RecordingConfig, String>)
    ensures
        match best_range(supported@) {
            Some(r) => config == Ok::<RecordingConfig, String>(
                RecordingConfig { channels: r.channels, sample_rate: clamped_rate(r) },
            ),
            None => config matches Err(e) && e@ == "No suitable audio config found"@,
        },
{
    let mut best: Option<ConfigRange> = None;
    let mut i: usize = 0;
    assert(supported@.subrange(0, 0) =~= Seq::<ConfigRange>::empty());
    while i < supported.len()
        invariant
            i <= supported.len(),
            best == best_range(supported@.subrange(0, i as int)),
        decreases supported.len() - i,
    {
        let cfg = supported[i];
        proof {
            let p = supported@.subrange(0, i + 1);
            assert(p.drop_last() =~= supported@.subrange(0, i as int));
            assert(p.last() == cfg);
        }
        if cfg.is_f32 {
            match best {
                None => {
                    best = Some(cfg);
                },
                Some(current) => {
                    if cfg.channels < current.channels {
                        best = Some(cfg);
                    }
                },
            }
        }
        i = i + 1;
    }
    assert(supported@.subrange(0, supported.len() as int) =~= supported@);
    match best {
        None => {
            proof {
                reveal_strlit("No suitable audio config found");
            }
            Err("No suitable audio config found".to_owned())
        },
        Some(range) => {
            let raised = if TARGET_SAMPLE_RATE > range.min_sample_rate {
                TARGET_SAMPLE_RATE
            } else {
                range.min_sample_rate
            };
            let rate = if raised < range.max_sample_rate {
                raised
            } else {
                range.max_sample_rate
            };
            Ok(RecordingConfig { channels: range.channels, sample_rate: rate })
        },
    }
}

/// The configuration picked is a 32-bit float range of the device with no
/// fewer channels than any other such range, and no earlier such range has
/// as few; there is none exactly when the device has no 32-bit float range.
pub proof fn lemma_best_range_fewest_channels(s: Seq<ConfigRange>)
    ensures
        best_range(s) is None <==> forall|j: int| 0 <= j < s.len() ==> !(#[trigger] s[j]).is_f32,
        best_range(s) matches Some(r) ==> exists|j: int|
            0 <= j < s.len() && #[trigger] s[j] == r && r.is_f32 && forall|k: int|
                0 <= k < s.len() && (#[trigger] s[k]).is_f32 ==> r.channels <= s[k].channels && (k
                    < j ==> r.channels < s[k].channels),
    decreases s.len(),
{
    if s.len() > 0 {
        let p = s.drop_last();
        lemma_best_range_fewest_channels(p);
        assert forall|j: int| 0 <= j < p.len() implies #[trigger] s[j] == p[j] by {}
        let cfg = s.last();
        let last = s.len() - 1;
        match best_range(p) {
            None => {
                if cfg.is_f32 {
                    assert(s[last] == cfg);
                    assert forall|k: int| 0 <= k < s.len() && (#[trigger] s[k]).is_f32 implies cfg.channels
                        <= s[k].channels && (k < last ==> cfg.channels < s[k].channels) by {
                        if k < last {
                            assert(s[k] == p[k]);
                        }
                    }
                }
            },
            Some(cur) => {
                let j = choose|j: int|
                    0 <= j < p.len() && #[trigger] p[j] == cur && cur.is_f32 && forall|k: int|
                        0 <= k < p.len() && (#[trigger] p[k]).is_f32 ==> cur.channels
                            <= p[k].channels && (k < j ==> cur.channels < p[k].channels);
                assert(s[j] == cur);
                if cfg.is_f32 && cfg.channels < cur.channels {
                    assert(s[last] == cfg);
                    assert forall|k: int| 0 <= k < s.len() && (#[trigger] s[k]).is_f32 implies cfg.channels
                        <= s[k].channels && (k < last ==> cfg.channels < s[k].channels) by {
                        if k < last {
                            assert(s[k] == p[k]);
                        }
                    }
                } else {
                    assert forall|k: int| 0 <= k < s.len() && (#[trigger] s[k]).is_f32 implies cur.channels
                        <= s[k].channels && (k < j ==> cur.channels < s[k].channels) by {
                        if k < last {
                            assert(s[k] == p[k]);
                        }
                    }
                }
            },
        }
    }
}

/// The rate picked lies in the range the device supports.
pub proof fn lemma_rate_supported(r: ConfigRange)
    requires
        r.min_sample_rate <= r.max_sample_rate,
    ensures
        r.min_sample_rate <= clamped_rate(r) <= r.max_sample_rate,
        r.min_sample_rate <= TARGET_SAMPLE_RATE <= r.max_sample_rate ==> clamped_rate(r)
            == TARGET_SAMPLE_RATE,
{
}

} // verus!
