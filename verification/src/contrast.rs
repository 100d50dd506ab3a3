//! Contrast stretching of spectrogram heatmaps.
//!
//! A heatmap is a sequence of 8-bit intensities. Stretching finds the 70th
//! percentile of the non-zero intensities (the "floor"), silences everything at
//! or below it, and maps the rest onto the full 8-bit range through a gamma
//! curve with exponent 3/5.

use vstd::prelude::*;

verus! {

/// Percentile of the non-zero intensities below which everything is silenced.
pub const CONTRAST_FLOOR_PERCENT: u64 = 70;

// ---------------------------------------------------------------------------
// Counting over intensity sequences
// ---------------------------------------------------------------------------

/// Number of entries `x` of `s` with `0 < x <= t`.
pub open spec fn count_nonzero_le(s: Seq<u8>, t: int) -> nat
    decreases s.len(),
{
    if s.len() == 0 {
        0
    } else {
        count_nonzero_le(s.drop_last(), t) + (if 0 < s.last() && s.last() <= t {
            1nat
        } else {
            0nat
        })
    }
}

/// Number of non-zero entries of `s`.
pub open spec fn count_nonzero(s: Seq<u8>) -> nat {
    count_nonzero_le(s, 255)
}

/// Largest entry of `s` (0 for the empty sequence).
pub open spec fn max_intensity(s: Seq<u8>) -> u8
    decreases s.len(),
{
    if s.len() == 0 {
        0
    } else {
        let m = max_intensity(s.drop_last());
        if s.last() > m {
            s.last()
        } else {
            m
        }
    }
}

/// Rank (0-based) of the `percent`-th percentile among `n` sorted values:
/// `(n - 1) * percent / 100`, rounded half up.
pub open spec fn percentile_rank(n: nat, percent: nat) -> nat {
    if n == 0 {
        0
    } else {
        (((n - 1) * percent + 50) / 100) as nat
    }
}

/// Smallest level `v >= from` (up to 255) that more than `target` non-zero
/// entries of `s` do not exceed; 255 when there is none.
pub open spec fn level_above_rank(s: Seq<u8>, target: int, from: int) -> int
    decreases 256 - from,
{
    if from >= 256 {
        255
    } else if count_nonzero_le(s, from) > target {
        from
    } else {
        level_above_rank(s, target, from + 1)
    }
}

/// The silencing floor of a heatmap: the 70th percentile of its non-zero
/// intensities (at least 1).
pub open spec fn contrast_floor(s: Seq<u8>) -> int {
    let raw = level_above_rank(s, percentile_rank(count_nonzero(s), 70) as int, 0);
    if raw < 1 {
        1
    } else {
        raw
    }
}

/// The top of the stretched range: the largest intensity, or one above the
/// floor when that is larger (saturating at 255).
pub open spec fn contrast_ceiling(s: Seq<u8>) -> int {
    let f = contrast_floor(s);
    let above = if f + 1 > 255 {
        255
    } else {
        f + 1
    };
    if max_intensity(s) > above {
        max_intensity(s) as int
    } else {
        above
    }
}

// ---------------------------------------------------------------------------
// The gamma curve
// ---------------------------------------------------------------------------

pub open spec fn pow3(x: int) -> int {
    x * x * x
}

pub open spec fn pow5(x: int) -> int {
    x * x * x * x * x
}

/// Whether `y - 1/2 <= 255 * (d / r)^(3/5)`, for `y >= 1`, stated without
/// roots: `((2y - 1) / 510)^5 <= (d / r)^3`.
pub open spec fn gamma_reaches(y: int, d: int, r: int) -> bool {
    pow5(2 * y - 1) * pow3(r) <= pow5(510) * pow3(d)
}

/// Largest `y` in `from..=255` reached by the curve, searching upward from `from`.
pub open spec fn gamma_level_from(d: int, r: int, from: int) -> int
    decreases 255 - from,
{
    if from >= 255 || !gamma_reaches(from + 1, d, r) {
        from
    } else {
        gamma_level_from(d, r, from + 1)
    }
}

/// `255 * (d / r)^(3/5)` rounded to the nearest integer (halves up): the
/// largest `y <= 255` with `y - 1/2 <= 255 * (d / r)^(3/5)`.
pub open spec fn gamma_level(d: int, r: int) -> int {
    gamma_level_from(d, r, 0)
}

/// The stretched value of one intensity, given the floor and the ceiling.
pub open spec fn stretched(v: int, floor: int, ceiling: int) -> int {
    if v <= floor {
        0
    } else {
        let range = if ceiling - floor < 1 {
            1
        } else {
            ceiling - floor
        };
        gamma_level(v - floor, range)
    }
}

proof fn lemma_gamma_level_bounds(d: int, r: int, from: int)
    requires
        0 <= from <= 255,
    ensures
        from <= gamma_level_from(d, r, from) <= 255,
    decreases 255 - from,
{
    if from < 255 && gamma_reaches(from + 1, d, r) {
        lemma_gamma_level_bounds(d, r, from + 1);
    }
}

proof fn lemma_pow_bounds(a: u128, r: u128, d: u128)
    requires
        a <= 509,
        r <= 255,
        d <= 255,
    ensures
        a * a <= 509 * 509,
        a * a * a <= 509 * 509 * 509,
        a * a * a * a <= 509 * 509 * 509 * 509,
        a * a * a * a * a <= 509 * 509 * 509 * 509 * 509,
        r * r <= 255 * 255,
        d * d <= 255 * 255,
        r * r * r <= 255 * 255 * 255,
        d * d * d <= 255 * 255 * 255,
        (a * a * a * a * a) * (r * r * r) <= (509 * 509 * 509 * 509 * 509) * (255 * 255 * 255),
        (510u128 * 510 * 510 * 510 * 510) * (d * d * d) <= (510 * 510 * 510 * 510 * 510) * (255 * 255 * 255),
{
    assert(a * a <= 509 * 509) by (nonlinear_arith)
        requires
            a <= 509,
    ;
    assert(a * a * a <= 509 * 509 * 509) by (nonlinear_arith)
        requires
            a * a <= 509 * 509,
            a <= 509,
    ;
    assert(a * a * a * a <= 509 * 509 * 509 * 509) by (nonlinear_arith)
        requires
            a * a * a <= 509 * 509 * 509,
            a <= 509,
    ;
    assert(a * a * a * a * a <= 509 * 509 * 509 * 509 * 509) by (nonlinear_arith)
        requires
            a * a * a * a <= 509 * 509 * 509 * 509,
            a <= 509,
    ;
    assert(r * r <= 255 * 255) by (nonlinear_arith)
        requires
            r <= 255,
    ;
    assert(r * r * r <= 255 * 255 * 255) by (nonlinear_arith)
        requires
            r <= 255,
    ;
    assert(d * d <= 255 * 255) by (nonlinear_arith)
        requires
            d <= 255,
    ;
    assert(d * d * d <= 255 * 255 * 255) by (nonlinear_arith)
        requires
            d <= 255,
    ;
    assert((a * a * a * a * a) * (r * r * r) <= (509 * 509 * 509 * 509 * 509) * (255 * 255
        * 255)) by (nonlinear_arith)
        requires
            a * a * a * a * a <= 509 * 509 * 509 * 509 * 509,
            r * r * r <= 255 * 255 * 255,
    ;
    assert((510u128 * 510 * 510 * 510 * 510) * (d * d * d) <= (510 * 510 * 510 * 510 * 510) * (
    255 * 255 * 255)) by (nonlinear_arith)
        requires
            d * d * d <= 255 * 255 * 255,
    ;
}

/// Decides `gamma_reaches(y, d, r)` in 128-bit arithmetic.
fn gamma_reaches_exec(y: u64, d: u64, r: u64) -> (b: bool)
    requires
        1 <= y <= 255,
        d <= 255,
        r <= 255,
    ensures
        b == gamma_reaches(y as int, d as int, r as int),
{
    let a: u128 = (2 * y - 1) as u128;
    let r128: u128 = r as u128;
    let d128: u128 = d as u128;
    proof {
        lemma_pow_bounds(a, r128, d128);
    }
    let a5: u128 = a * a * a * a * a;
    let r3: u128 = r128 * r128 * r128;
    let d3: u128 = d128 * d128 * d128;
    assert(a5 <= 34165588961549);
    assert(r3 <= 16581375);
    assert(d3 <= 16581375);
    proof {
        assert(a5 * r3 <= 34165588961549 * 16581375) by (nonlinear_arith)
            requires
                a5 <= 34165588961549,
                r3 <= 16581375,
        ;
        assert(34502525100000 * d3 <= 34502525100000 * 16581375) by (nonlinear_arith)
            requires
                d3 <= 16581375,
        ;
    }
    let lhs: u128 = a5 * r3;
    let rhs: u128 = 34502525100000u128 * d3;
    lhs <= rhs
}

/// `255 * (d / r)^(3/5)`, rounded to the nearest integer.
pub fn gamma_level_exec(d: u64, r: u64) -> (y: u8)
    requires
        d <= 255,
        r <= 255,
    ensures
        y as int == gamma_level(d as int, r as int),
{
    let mut y: u64 = 0;
    while y < 255 && gamma_reaches_exec(y + 1, d, r)
        invariant
            0 <= y <= 255,
            d <= 255,
            r <= 255,
            gamma_level_from(d as int, r as int, y as int) == gamma_level(d as int, r as int),
        decreases 255 - y,
    {
        y = y + 1;
    }
    y as u8
}

// ---------------------------------------------------------------------------
// Histograms
// ---------------------------------------------------------------------------

/// Sum of the first `k` buckets of a histogram.
pub open spec fn hist_sum(h: Seq<usize>, k: int) -> int
    decreases k,
{
    if k <= 0 {
        0
    } else {
        hist_sum(h, k - 1) + h[k - 1]
    }
}

/// Smallest bucket `v >= from` whose running total exceeds `target`; 255 when
/// there is none.
pub open spec fn hist_level_from(h: Seq<usize>, target: int, from: int) -> int
    decreases 256 - from,
{
    if from >= 256 {
        255
    } else if hist_sum(h, from + 1) > target {
        from
    } else {
        hist_level_from(h, target, from + 1)
    }
}

proof fn lemma_hist_sum_update(h: Seq<usize>, v: int, x: usize, k: int)
    requires
        0 <= v < h.len(),
        0 <= k <= h.len(),
    ensures
        hist_sum(h.update(v, x), k) == hist_sum(h, k) + (if v < k {
            x - h[v]
        } else {
            0
        }),
    decreases k,
{
    if k > 0 {
        lemma_hist_sum_update(h, v, x, k - 1);
    }
}

proof fn lemma_hist_sum_monotone(h: Seq<usize>, j: int, k: int)
    requires
        0 <= j <= k <= h.len(),
    ensures
        hist_sum(h, j) <= hist_sum(h, k),
    decreases k - j,
{
    if j < k {
        lemma_hist_sum_monotone(h, j, k - 1);
    }
}

/// The value at the `percent`-th percentile of a histogram of `total_count`
/// samples: the smallest bucket whose running total exceeds the percentile's
/// rank; 0 when the histogram is empty.
pub fn percentile_from_histogram(histogram: &Vec<usize>, total_count: usize, percent: u64) -> (r:
    u8)
    requires
        histogram@.len() == 256,
        hist_sum(histogram@, 256) <= usize::MAX,
    ensures
        total_count == 0 ==> r == 0,
        total_count > 0 ==> r as int == hist_level_from(
            histogram@,
            percentile_rank(total_count as nat, if percent > 100 {
                100
            } else {
                percent as nat
            }) as int,
            0,
        ),
{
    if total_count == 0 {
        return 0;
    }
    let p: u64 = if percent > 100 {
        100
    } else {
        percent
    };
    let n: u128 = (total_count - 1) as u128;
    proof {
        assert(n * (p as u128) <= n * 100) by (nonlinear_arith)
            requires
                p <= 100,
        ;
    }
    let target128: u128 = (n * (p as u128) + 50) / 100;
    assert(target128 <= n);
    let target: usize = target128 as usize;
    let ghost t = target as int;
    assert(t == percentile_rank(total_count as nat, p as nat));
    let mut cumulative: usize = 0;
    let mut value: usize = 0;
    while value < 256
        invariant
            histogram@.len() == 256,
            hist_sum(histogram@, 256) <= usize::MAX,
            0 <= value <= 256,
            cumulative as int == hist_sum(histogram@, value as int),
            cumulative <= t,
            total_count > 0,
            t == target,
            t == percentile_rank(total_count as nat, if percent > 100 {
                100
            } else {
                percent as nat
            }),
            hist_level_from(histogram@, t, value as int) == hist_level_from(histogram@, t, 0),
        decreases 256 - value,
    {
        proof {
            lemma_hist_sum_monotone(histogram@, value + 1, 256);
        }
        cumulative = cumulative + histogram[value];
        if cumulative > target {
            return value as u8;
        }
        value = value + 1;
    }
    255
}

// ---------------------------------------------------------------------------
// Contrast stretching
// ---------------------------------------------------------------------------

proof fn lemma_count_nonzero_le_zero(s: Seq<u8>)
    ensures
        count_nonzero_le(s, 0) == 0,
    decreases s.len(),
{
    if s.len() > 0 {
        lemma_count_nonzero_le_zero(s.drop_last());
    }
}

proof fn lemma_count_bounded(s: Seq<u8>, t: int)
    ensures
        count_nonzero_le(s, t) <= s.len(),
    decreases s.len(),
{
    if s.len() > 0 {
        lemma_count_bounded(s.drop_last(), t);
    }
}

proof fn lemma_levels_agree(s: Seq<u8>, h: Seq<usize>, target: int, from: int)
    requires
        h.len() == 256,
        0 <= from <= 256,
        forall|v: int| 1 <= v <= 256 ==> #[trigger] hist_sum(h, v) == count_nonzero_le(s, v - 1),
    ensures
        hist_level_from(h, target, from) == level_above_rank(s, target, from),
    decreases 256 - from,
{
    if from < 256 {
        assert(hist_sum(h, from + 1) == count_nonzero_le(s, from + 1 - 1));
        lemma_levels_agree(s, h, target, from + 1);
    }
}

/// Stretches the contrast of a spectrogram heatmap in place.
///
/// Every intensity at or below the 70th percentile of the non-zero intensities
/// becomes 0; every intensity above it is mapped onto `1..=255` by the gamma
/// curve `255 * ((v - floor) / (ceiling - floor))^(3/5)`, rounded to nearest.
/// A heatmap without non-zero intensities is left as it is.
pub fn enhance_spectrogram_contrast(intensities: &mut Vec<u8>)
    ensures
        final(intensities)@.len() == old(intensities)@.len(),
        count_nonzero(old(intensities)@) == 0 ==> final(intensities)@ == old(intensities)@,
        count_nonzero(old(intensities)@) > 0 ==> forall|i: int|
            0 <= i < old(intensities)@.len() ==> #[trigger] final(intensities)@[i] as int
                == stretched(
                old(intensities)@[i] as int,
                contrast_floor(old(intensities)@),
                contrast_ceiling(old(intensities)@),
            ),
{
    let ghost s = intensities@;
    let len = intensities.len();
    if len == 0 {
        return;
    }
    // Histogram of the non-zero values.

    let mut histogram: Vec<usize> = vec![0usize; 256];
    let mut nonzero_count: usize = 0;
    let mut max_value: u8 = 0;
    let mut i: usize = 0;
    proof {
        assert forall|v: int| 1 <= v <= 256 implies #[trigger] hist_sum(histogram@, v)
            == count_nonzero_le(s.take(0), v - 1) by {
            assert(s.take(0) =~= Seq::<u8>::empty());
            lemma_hist_zero(histogram@, v);
        }
        assert(s.take(0) =~= Seq::<u8>::empty());
    }
    while i < len
        invariant
            len == s.len(),
            intensities@ == s,
            0 <= i <= len,
            histogram@.len() == 256,
            histogram@[0] == 0,
            nonzero_count as int == count_nonzero(s.take(i as int)),
            max_value == max_intensity(s.take(i as int)),
            forall|v: int|
                1 <= v <= 256 ==> #[trigger] hist_sum(histogram@, v) == count_nonzero_le(
                    s.take(i as int),
                    v - 1,
                ),
        decreases len - i,
    {
        let value = intensities[i];
        proof {
            assert(s.take(i + 1).drop_last() =~= s.take(i as int));
            lemma_count_bounded(s.take(i as int), 255);
        }
        if value > 0 {
            let ghost old_h = histogram@;
            proof {
                lemma_count_bounded(s.take(i as int), (value - 1) as int);
                assert(hist_sum(old_h, value as int + 1) == hist_sum(old_h, value as int)
                    + old_h[value as int]);
                assert(hist_sum(old_h, value as int) == count_nonzero_le(
                    s.take(i as int),
                    value - 1,
                ));
                assert(hist_sum(old_h, 256) == count_nonzero_le(s.take(i as int), 256 - 1));
                lemma_hist_sum_monotone(old_h, value as int + 1, 256);
            }
            let c = histogram[value as usize];
            histogram.set(value as usize, c + 1);
            nonzero_count = nonzero_count + 1;
            if value > max_value {
                max_value = value;
            }
            proof {
                assert forall|v: int| 1 <= v <= 256 implies #[trigger] hist_sum(histogram@, v)
                    == count_nonzero_le(s.take(i + 1), v - 1) by {
                    lemma_hist_sum_update(old_h, value as int, (c + 1) as usize, v);
                }
            }
        } else {
            proof {
                assert forall|v: int| 1 <= v <= 256 implies #[trigger] hist_sum(histogram@, v)
                    == count_nonzero_le(s.take(i + 1), v - 1) by {}
            }
        }
        i = i + 1;
    }
    proof {
        assert(s.take(len as int) =~= s);
    }
    if nonzero_count == 0 {
        return;
    }
    proof {
        lemma_count_nonzero_le_zero(s);
        lemma_count_bounded(s, 255);
        assert(hist_sum(histogram@, 256) == count_nonzero_le(s, 256 - 1));
    }
    let raw_floor = percentile_from_histogram(&histogram, nonzero_count, CONTRAST_FLOOR_PERCENT);
    proof {
        lemma_levels_agree(s, histogram@, percentile_rank(nonzero_count as nat, 70) as int, 0);
    }
    let floor: u8 = if raw_floor < 1 {
        1
    } else {
        raw_floor
    };
    let above: u8 = if floor == 255 {
        255
    } else {
        floor + 1
    };
    let ceiling: u8 = if max_value > above {
        max_value
    } else {
        above
    };
    let range: u64 = if ceiling - floor < 1 {
        1
    } else {
        (ceiling - floor) as u64
    };
    // Lookup table of the stretched value of every intensity.

    let mut table: Vec<u8> = Vec::new();
    let mut v: u64 = 0;
    while v < 256
        invariant
            0 <= v <= 256,
            table@.len() == v,
            1 <= floor,
            floor as int == contrast_floor(s),
            ceiling as int == contrast_ceiling(s),
            range as int == (if ceiling - floor < 1 {
                1
            } else {
                ceiling - floor
            }),
            range <= 255,
            forall|w: int|
                0 <= w < v ==> #[trigger] table@[w] as int == stretched(
                    w,
                    floor as int,
                    ceiling as int,
                ),
        decreases 256 - v,
    {
        if v <= floor as u64 {
            table.push(0);
        } else {
            let d: u64 = v - floor as u64;
            let y = gamma_level_exec(d, range);
            table.push(y);
        }
        v = v + 1;
    }
    let mut j: usize = 0;
    while j < len
        invariant
            len == s.len(),
            intensities@.len() == len,
            0 <= j <= len,
            table@.len() == 256,
            floor as int == contrast_floor(s),
            ceiling as int == contrast_ceiling(s),
            forall|w: int|
                0 <= w < 256 ==> #[trigger] table@[w] as int == stretched(
                    w,
                    floor as int,
                    ceiling as int,
                ),
            forall|k: int| j <= k < len ==> #[trigger] intensities@[k] == s[k],
            forall|k: int|
                0 <= k < j ==> #[trigger] intensities@[k] as int == stretched(
                    s[k] as int,
                    floor as int,
                    ceiling as int,
                ),
        decreases len - j,
    {
        let x = intensities[j];
        let y = table[x as usize];
        intensities.set(j, y);
        j = j + 1;
    }
}

proof fn lemma_hist_zero(h: Seq<usize>, k: int)
    requires
        0 <= k <= h.len(),
        forall|v: int| 0 <= v < h.len() ==> h[v] == 0,
    ensures
        hist_sum(h, k) == 0,
    decreases k,
{
    if k > 0 {
        lemma_hist_zero(h, k - 1);
    }
}

// ---------------------------------------------------------------------------
// Laws of contrast stretching
// ---------------------------------------------------------------------------

proof fn lemma_gamma_reaches_monotone(y: int, d1: int, d2: int, r: int)
    requires
        1 <= y,
        0 <= d1 <= d2,
        0 <= r,
        gamma_reaches(y, d1, r),
    ensures
        gamma_reaches(y, d2, r),
{
    assert(d1 * d1 * d1 <= d2 * d2 * d2) by (nonlinear_arith)
        requires
            0 <= d1 <= d2,
    ;
    assert(pow5(510) * pow3(d1) <= pow5(510) * pow3(d2)) by (nonlinear_arith)
        requires
            pow3(d1) <= pow3(d2),
            pow5(510) > 0,
    ;
}

proof fn lemma_gamma_level_monotone(d1: int, d2: int, r: int, from: int)
    requires
        0 <= d1 <= d2,
        0 <= r,
        0 <= from <= 255,
    ensures
        gamma_level_from(d1, r, from) <= gamma_level_from(d2, r, from),
    decreases 255 - from,
{
    lemma_gamma_level_bounds(d2, r, from);
    if from < 255 && gamma_reaches(from + 1, d1, r) {
        lemma_gamma_reaches_monotone(from + 1, d1, d2, r);
        lemma_gamma_level_monotone(d1, d2, r, from + 1);
    }
}

proof fn lemma_gamma_level_full(d: int, from: int)
    requires
        1 <= d,
        0 <= from <= 255,
    ensures
        gamma_level_from(d, d, from) == 255,
    decreases 255 - from,
{
    if from < 255 {
        let y = from + 1;
        let a = 2 * y - 1;
        assert(a * a * a * a * a <= 510 * 510 * 510 * 510 * 510) by (nonlinear_arith)
            requires
                1 <= a <= 510,
        ;
        assert(pow5(a) * pow3(d) <= pow5(510) * pow3(d)) by (nonlinear_arith)
            requires
                pow5(a) <= pow5(510),
                1 <= d,
        ;
        lemma_gamma_level_full(d, from + 1);
    }
}

/// Stretching preserves the order of intensities: a brighter input never
/// comes out darker.
pub proof fn law_stretch_monotone(v: int, w: int, floor: int, ceiling: int)
    requires
        0 <= v <= w,
        floor <= ceiling,
    ensures
        stretched(v, floor, ceiling) <= stretched(w, floor, ceiling),
{
    let range = if ceiling - floor < 1 {
        1
    } else {
        ceiling - floor
    };
    if v <= floor {
        if w > floor {
            lemma_gamma_level_bounds(w - floor, range, 0);
        }
    } else {
        lemma_gamma_level_monotone(v - floor, w - floor, range, 0);
    }
}

/// Everything at or below the floor is silenced, and nothing above it is:
/// intensities above the floor come out between 1 and 255.
pub proof fn law_stretch_floor(v: int, floor: int, ceiling: int)
    requires
        0 <= v <= 255,
        1 <= floor <= ceiling <= 255,
    ensures
        v <= floor ==> stretched(v, floor, ceiling) == 0,
        v > floor ==> 1 <= stretched(v, floor, ceiling) <= 255,
{
    if v > floor {
        let range = if ceiling - floor < 1 {
            1
        } else {
            ceiling - floor
        };
        let d = v - floor;
        assert(1 * pow3(range) <= pow5(510) * pow3(d)) by (nonlinear_arith)
            requires
                1 <= range <= 255,
                1 <= d,
        ;
        assert(1int * 1 * 1 * 1 * 1 == 1) by (nonlinear_arith);
        assert(pow5(2 * 1 - 1) == 1);
        assert(gamma_reaches(1, d, range));
        lemma_gamma_level_bounds(d, range, 1);
    }
}

/// The brightest intensity of a heatmap, when it lies above the floor, is
/// stretched to full brightness.
pub proof fn law_peak_reaches_full_scale(s: Seq<u8>)
    requires
        count_nonzero(s) > 0,
        max_intensity(s) > contrast_floor(s),
    ensures
        stretched(max_intensity(s) as int, contrast_floor(s), contrast_ceiling(s)) == 255,
{
    let f = contrast_floor(s);
    let c = contrast_ceiling(s);
    assert(c == max_intensity(s));
    lemma_gamma_level_full(max_intensity(s) - f, 0);
}


proof fn lemma_gamma_reaches_lower(y1: int, y2: int, d: int, r: int)
    requires
        1 <= y1 <= y2,
        0 <= r,
        gamma_reaches(y2, d, r),
    ensures
        gamma_reaches(y1, d, r),
{
    let a1 = 2 * y1 - 1;
    let a2 = 2 * y2 - 1;
    assert(pow5(a1) <= pow5(a2)) by (nonlinear_arith)
        requires
            1 <= a1 <= a2,
    ;
    assert(pow5(a1) * pow3(r) <= pow5(a2) * pow3(r)) by (nonlinear_arith)
        requires
            pow5(a1) <= pow5(a2),
            0 <= r,
    ;
}

proof fn lemma_gamma_level_at_least(d: int, r: int, from: int, y: int)
    requires
        0 <= from <= y <= 255,
        0 <= r,
        y >= 1 ==> gamma_reaches(y, d, r),
    ensures
        gamma_level_from(d, r, from) >= y,
    decreases y - from,
{
    lemma_gamma_level_bounds(d, r, from);
    if from < y {
        lemma_gamma_reaches_lower(from + 1, y, d, r);
        lemma_gamma_level_at_least(d, r, from + 1, y);
    }
}

/// The level that a linear stretch gives, `255 * d / r` rounded half up, is
/// reached by the gamma curve.
proof fn lemma_linear_level_reached(d: int, r: int)
    requires
        1 <= d <= r <= 255,
    ensures
        1 <= (510 * d + r) / (2 * r) <= 255,
        gamma_reaches((510 * d + r) / (2 * r), d, r),
{
    let y = (510 * d + r) / (2 * r);
    assert(510 * d + r >= 2 * r);
    assert(510 * d + r < (2 * r) * 256) by (nonlinear_arith)
        requires
            1 <= d <= r,
    ;
    assert(y >= 1) by (nonlinear_arith)
        requires
            y == (510 * d + r) / (2 * r),
            510 * d + r >= 2 * r,
            r >= 1,
    ;
    assert(y <= 255) by (nonlinear_arith)
        requires
            y == (510 * d + r) / (2 * r),
            510 * d + r < (2 * r) * 256,
            r >= 1,
    ;
    let a = 2 * y - 1;
    assert(a * r <= 510 * d) by (nonlinear_arith)
        requires
            1 <= r,
            y == (510 * d + r) / (2 * r),
            a == 2 * y - 1,
    ;
    let x = a * r;
    let z = 510 * d;
    assert(pow5(x) <= pow5(z)) by (nonlinear_arith)
        requires
            0 <= x <= z,
    ;
    assert(pow5(x) == pow5(a) * (pow3(r) * (r * r))) by (nonlinear_arith)
        requires
            x == a * r,
    ;
    assert(pow5(z) == pow5(510) * (pow3(d) * (d * d))) by (nonlinear_arith)
        requires
            z == 510 * d,
    ;
    assert(pow5(510) * (pow3(d) * (d * d)) <= pow5(510) * (pow3(d) * (r * r))) by (nonlinear_arith)
        requires
            1 <= d <= r,
    ;
    assert(pow5(a) * pow3(r) <= pow5(510) * pow3(d)) by (nonlinear_arith)
        requires
            pow5(a) * (pow3(r) * (r * r)) <= pow5(510) * (pow3(d) * (r * r)),
            1 <= r,
    ;
}

/// Above the floor, stretching brightens at least as much as the linear
/// stretch of `floor..=ceiling` onto `0..=255`, rounded half up.
pub proof fn law_stretch_at_least_linear(v: int, floor: int, ceiling: int)
    requires
        0 <= floor < v <= ceiling <= 255,
    ensures
        stretched(v, floor, ceiling) >= (510 * (v - floor) + (ceiling - floor)) / (2 * (ceiling
            - floor)),
{
    let d = v - floor;
    let r = ceiling - floor;
    lemma_linear_level_reached(d, r);
    lemma_gamma_level_at_least(d, r, 0, (510 * d + r) / (2 * r));
}

proof fn lemma_level_above_rank(s: Seq<u8>, t: int, from: int)
    requires
        0 <= from <= 255,
        count_nonzero_le(s, from - 1) <= t,
        count_nonzero_le(s, 255) > t,
    ensures
        from <= level_above_rank(s, t, from) <= 255,
        count_nonzero_le(s, level_above_rank(s, t, from)) > t,
        count_nonzero_le(s, level_above_rank(s, t, from) - 1) <= t,
    decreases 256 - from,
{
    if count_nonzero_le(s, from) <= t {
        lemma_level_above_rank(s, t, from + 1);
    }
}

proof fn lemma_count_nonzero_le_negative(s: Seq<u8>, t: int)
    requires
        t <= 0,
    ensures
        count_nonzero_le(s, t) == 0,
    decreases s.len(),
{
    if s.len() > 0 {
        lemma_count_nonzero_le_negative(s.drop_last(), t);
    }
}

/// What stretching does to a heatmap with non-zero intensities. The floor is
/// the 70th-percentile non-zero intensity: with the non-zero intensities in
/// ascending order, it is the one at (0-based) rank `percentile_rank(n, 70)`,
/// since more than that many are at most the floor and at most that many are
/// below it. An intensity comes out non-zero exactly when it lies above the
/// floor; the largest intensity, when above the floor, is the ceiling and
/// comes out at 255; and every intensity between the floor and the largest
/// comes out at least as bright as the linear stretch of that range onto
/// `0..=255`, rounded half up.
pub proof fn law_contrast_stretch(s: Seq<u8>, x: int)
    requires
        count_nonzero(s) > 0,
        0 <= x <= 255,
    ensures
        ({
            let n = count_nonzero(s);
            let rank = percentile_rank(n, CONTRAST_FLOOR_PERCENT as nat);
            let f = contrast_floor(s);
            let c = contrast_ceiling(s);
            let top = max_intensity(s) as int;
            &&& 1 <= f <= 255
            &&& count_nonzero_le(s, f) > rank
            &&& count_nonzero_le(s, f - 1) <= rank
            &&& (stretched(x, f, c) != 0 <==> x > f)
            &&& top > f ==> c == top && stretched(top, f, c) == 255
            &&& f < x <= top ==> stretched(x, f, c) >= (510 * (x - f) + (top - f)) / (2 * (top
                - f))
        }),
{
    let n = count_nonzero(s);
    let rank = percentile_rank(n, 70);
    assert(rank < n) by (nonlinear_arith)
        requires
            n >= 1,
            rank == ((n - 1) * 70 + 50) / 100,
    ;
    assert(CONTRAST_FLOOR_PERCENT as nat == 70);
    lemma_count_nonzero_le_negative(s, -1);
    lemma_count_nonzero_le_zero(s);
    lemma_level_above_rank(s, rank as int, 0);
    let raw = level_above_rank(s, rank as int, 0);
    assert(raw >= 1);
    let f = contrast_floor(s);
    assert(f == raw);
    let c = contrast_ceiling(s);
    let top = max_intensity(s) as int;
    assert(1 <= f <= c <= 255);
    law_stretch_floor(x, f, c);
    if top > f {
        law_peak_reaches_full_scale(s);
        if f < x && x <= top {
            law_stretch_at_least_linear(x, f, top);
        }
    }
}

} // verus!
