//! Brightness histograms: merging region histograms into one, and the
//! percentile levels that bound the brightness range of a region.
use vstd::prelude::*;

verus! {

/// Number of pixels counted in the first `n` levels of `h`.
pub open spec fn cumulative(h: Seq<u32>, n: int) -> nat
    decreases n,
{
    if n <= 0 {
        0
    } else {
        cumulative(h, n - 1) + h[n - 1] as nat
    }
}

/// Number of pixels counted in a histogram.
pub open spec fn total_count(h: Seq<u32>) -> nat {
    cumulative(h, 256)
}

/// The level that `percentile_level` picks: 0 for an empty histogram, else
/// the first level at which the cumulative count reaches `target` (taken as
/// at least 1), or 255 when no level does.
pub open spec fn is_percentile_level(h: Seq<u32>, target: u64, level: int) -> bool {
    let t = if target < 1 { 1 } else { target as int };
    if total_count(h) == 0 {
        level == 0
    } else {
        &&& 0 <= level <= 255
        &&& forall|l: int| 0 <= l < level ==> #[trigger] cumulative(h, l + 1) < t
        &&& level < 255 ==> cumulative(h, level + 1) >= t
    }
}

/// The percentile level of `h` for `target` (see `is_percentile_level`).
pub open spec fn percentile_of(h: Seq<u32>, target: u64) -> int {
    choose|level: int| is_percentile_level(h, target, level)
}

/// Sum over the first `n` histograms of the count at `level`.
pub open spec fn level_sum(hs: Seq<[u32; 256]>, n: int, level: int) -> nat
    decreases n,
{
    if n <= 0 {
        0
    } else {
        level_sum(hs, n - 1, level) + hs[n - 1]@[level] as nat
    }
}

/// Whether merging the histograms keeps every level's count within `u32`.
pub open spec fn merge_fits(hs: Seq<[u32; 256]>) -> bool {
    forall|level: int| 0 <= level < 256 ==> #[trigger] level_sum(hs, hs.len() as int, level) <= u32::MAX
}

/// Darkest and brightest percentile levels of a histogram; `p_low <= p_high`.
#[derive(Clone, Copy)]
pub struct RegionStats {
    pub p_low: u8,
    pub p_high: u8,
}

proof fn lemma_level_sum_bound(hs: Seq<[u32; 256]>, k: int, n: int, level: int)
    requires
        0 <= k <= n,
    ensures
        level_sum(hs, k, level) <= level_sum(hs, n, level),
    decreases n - k,
{
    if k < n {
        lemma_level_sum_bound(hs, k, n - 1, level);
    }
}

/// Total number of pixels counted in `histogram`.
pub fn histogram_total(histogram: &[u32; 256]) -> (r: u64)
    ensures
        r == total_count(histogram@),
{
    let mut total: u64 = 0;
    let mut level: usize = 0;
    while level < 256
        invariant
            level <= 256,
            total == cumulative(histogram@, level as int),
            total <= level * u32::MAX,
        decreases 256 - level,
    {
        total = total + histogram[level] as u64;
        level = level + 1;
    }
    total
}

/// The percentile level of `histogram` for `target` pixels: the first level
/// at which the cumulative count reaches `target` (at least 1); 0 for an
/// empty histogram; 255 when no level reaches the target.
pub fn percentile_level(histogram: &[u32; 256], target: u64) -> (r: u8)
    ensures
        is_percentile_level(histogram@, target, r as int),
        r == percentile_of(histogram@, target),
{
    let total = histogram_total(histogram);
    if total == 0 {
        proof {
            assert(is_percentile_level(histogram@, target, 0));
            law_percentile_unique(histogram@, target, 0, percentile_of(histogram@, target));
        }
        return 0;
    }
    let goal = if target < 1 {
        1
    } else {
        target
    };
    let mut cumulative_count: u64 = 0;
    let mut level: usize = 0;
    while level < 256
        invariant
            level <= 256,
            total == total_count(histogram@),
            total > 0,
            cumulative_count == cumulative(histogram@, level as int),
            cumulative_count <= level * u32::MAX,
            goal == (if target < 1 { 1 } else { target }),
            forall|l: int| 0 <= l < level ==> #[trigger] cumulative(histogram@, l + 1) < goal,
        decreases 256 - level,
    {
        cumulative_count = cumulative_count + histogram[level] as u64;
        assert(cumulative_count == cumulative(histogram@, level + 1));
        if cumulative_count >= goal {
            proof {
                assert(is_percentile_level(histogram@, target, level as int));
                law_percentile_unique(histogram@, target, level as int, percentile_of(histogram@, target));
            }
            return level as u8;
        }
        level = level + 1;
    }
    proof {
        assert(is_percentile_level(histogram@, target, 255));
        law_percentile_unique(histogram@, target, 255, percentile_of(histogram@, target));
    }
    255
}

/// The brightest level that goes with darkest level `p_low` and percentile
/// level `high`: at least one level above the darkest, or the darkest itself
/// when that is already 255.
pub open spec fn paired_high(p_low: int, high: int) -> int {
    let floor = if p_low < 255 { p_low + 1 } else { p_low };
    if high < floor { floor } else { high }
}

/// The darkest and brightest levels of a histogram: the percentile levels
/// for `low_target` and `high_target` pixels, the brightest kept at least
/// one level above the darkest (a region that is all white keeps 255 for
/// both).
pub fn luma_stats(histogram: &[u32; 256], low_target: u64, high_target: u64) -> (r: RegionStats)
    ensures
        r.p_low == percentile_of(histogram@, low_target),
        r.p_high == paired_high(r.p_low as int, percentile_of(histogram@, high_target)),
        r.p_low <= r.p_high,
        r.p_low < 255 ==> r.p_low < r.p_high,
{
    let p_low = percentile_level(histogram, low_target);
    let high = percentile_level(histogram, high_target);
    let floor = if p_low < 255 {
        p_low + 1
    } else {
        p_low
    };
    let p_high = if high < floor {
        floor
    } else {
        high
    };
    RegionStats { p_low, p_high }
}

/// Sum of the region histograms, level by level: the histogram of the whole
/// image when the regions cover every pixel once.
pub fn merge_histograms(region_histograms: &Vec<[u32; 256]>) -> (r: [u32; 256])
    requires
        merge_fits(region_histograms@),
    ensures
        forall|level: int|
            0 <= level < 256 ==> #[trigger] r@[level] == level_sum(
                region_histograms@,
                region_histograms@.len() as int,
                level,
            ),
{
    let ghost hs = region_histograms@;
    let mut histogram = [0u32; 256];
    let mut i: usize = 0;
    while i < region_histograms.len()
        invariant
            hs == region_histograms@,
            merge_fits(hs),
            i <= hs.len(),
            forall|level: int|
                0 <= level < 256 ==> #[trigger] histogram@[level] == level_sum(hs, i as int, level),
        decreases hs.len() - i,
    {
        let region = &region_histograms[i];
        let mut level: usize = 0;
        while level < 256
            invariant
                hs == region_histograms@,
                merge_fits(hs),
                i < hs.len(),
                *region == hs[i as int],
                level <= 256,
                forall|l: int|
                    0 <= l < level ==> #[trigger] histogram@[l] == level_sum(hs, i + 1, l),
                forall|l: int|
                    level <= l < 256 ==> #[trigger] histogram@[l] == level_sum(hs, i as int, l),
            decreases 256 - level,
        {
            proof {
                lemma_level_sum_bound(hs, i + 1, hs.len() as int, level as int);
                assert(level_sum(hs, hs.len() as int, level as int) <= u32::MAX);
            }
            histogram[level] = histogram[level] + region[level];
            level = level + 1;
        }
        i = i + 1;
    }
    histogram
}

/// A larger target never gives a darker percentile level.
pub proof fn law_percentile_monotone(h: Seq<u32>, t1: u64, t2: u64, l1: int, l2: int)
    requires
        h.len() == 256,
        t1 <= t2,
        is_percentile_level(h, t1, l1),
        is_percentile_level(h, t2, l2),
    ensures
        l1 <= l2,
{
    if total_count(h) > 0 && l2 < l1 {
        // l2 reaches t2 >= t1, yet every level below l1 stays under t1.
        assert(cumulative(h, l2 + 1) < (if t1 < 1 { 1 } else { t1 as int }));
    }
}

/// The percentile level is unique: one histogram and one target give one level.
pub proof fn law_percentile_unique(h: Seq<u32>, t: u64, l1: int, l2: int)
    requires
        is_percentile_level(h, t, l1),
        is_percentile_level(h, t, l2),
    ensures
        l1 == l2,
{
    if total_count(h) > 0 {
        if l1 < l2 {
            assert(cumulative(h, l1 + 1) < (if t < 1 { 1 } else { t as int }));
        } else if l2 < l1 {
            assert(cumulative(h, l2 + 1) < (if t < 1 { 1 } else { t as int }));
        }
    }
}

} // verus!
