//! Frame and bin arithmetic of the visible waveform and spectrogram windows,
//! and the bounded cache of recently rendered windows.

use vstd::prelude::*;

verus! {

/// Number of rendered windows kept per cache.
pub const MAX_CACHED_WINDOWS: usize = 8;

/// Frames between the starts of two consecutive spectrogram columns.
pub const FFT_HOP_SIZE: usize = 2048;

/// Rasterized spectrogram data for the current viewport.
#[derive(Debug, Clone)]
pub struct SpectrogramView {
    /// Pixel width of the generated view.
    pub width: usize,
    /// Pixel height of the generated view.
    pub height: usize,
    /// Heatmap intensity values in row-major order.
    pub intensities: Vec<u8>,
}

// ---------------------------------------------------------------------------
// Integer helpers
// ---------------------------------------------------------------------------

/// `value / divisor` rounded up, where the rounding addition saturates at
/// `usize::MAX`.
pub open spec fn spec_ceil_div(value: int, divisor: int) -> int {
    let bumped = value + (divisor - 1);
    let capped = if bumped > usize::MAX {
        usize::MAX as int
    } else {
        bumped
    };
    capped / divisor
}

/// `value / divisor`, rounded up (the addition saturates at `usize::MAX`).
pub fn ceil_div(value: usize, divisor: usize) -> (r: usize)
    requires
        divisor > 0,
    ensures
        r as int == spec_ceil_div(value as int, divisor as int),
{
    value.saturating_add(divisor - 1) / divisor
}

/// Clamps a requested frame window to the source: the start is capped at the
/// last frame, and the end lies between one past the start and the source end.
pub open spec fn spec_clamp_window(start_frame: int, end_frame: int, total_frames: int) -> (
    int,
    int,
) {
    let start = if start_frame < total_frames {
        start_frame
    } else {
        total_frames
    };
    let end = if end_frame < start + 1 {
        start + 1
    } else if end_frame > total_frames {
        total_frames
    } else {
        end_frame
    };
    (start, end)
}

/// Clamps a requested frame window to `0..total_frames`.
///
/// The window must start inside the source: a start at or past the end has
/// no valid clamped window.
pub fn clamp_window(start_frame: usize, end_frame: usize, total_frames: usize) -> (r: (
    usize,
    usize,
))
    requires
        start_frame < total_frames,
    ensures
        (r.0 as int, r.1 as int) == spec_clamp_window(
            start_frame as int,
            end_frame as int,
            total_frames as int,
        ),
        r.0 < r.1 <= total_frames,
{
    let start = start_frame;
    let end = if end_frame < start + 1 {
        start + 1
    } else if end_frame > total_frames {
        total_frames
    } else {
        end_frame
    };
    (start, end)
}

/// The `index`-th of `count` buckets that split `start..end` evenly: it begins
/// at `start + index * (end - start) / count`; it ends where the next bucket
/// begins, or one past its own beginning (capped at `end`) when that would
/// leave it empty.
pub open spec fn spec_bucket(start: int, end: int, count: int, index: int) -> (int, int) {
    let span = end - start;
    let lo = start + index * span / count;
    let hi = start + (index + 1) * span / count;
    let hi2 = if hi <= lo {
        if lo < end {
            lo + 1
        } else {
            end
        }
    } else {
        hi
    };
    (lo, hi2)
}

proof fn lemma_bucket_bounds(span: int, count: int, index: int)
    requires
        0 <= span,
        0 < count,
        0 <= index < count,
    ensures
        0 <= index * span / count <= (index + 1) * span / count <= span,
{
    assert(0 <= index * span) by (nonlinear_arith)
        requires
            0 <= span,
            0 <= index,
    ;
    assert(index * span <= (index + 1) * span) by (nonlinear_arith)
        requires
            0 <= span,
            0 <= index,
    ;
    assert((index + 1) * span <= count * span) by (nonlinear_arith)
        requires
            0 <= span,
            index + 1 <= count,
    ;
    assert(index * span / count <= (index + 1) * span / count) by (nonlinear_arith)
        requires
            index * span <= (index + 1) * span,
            0 < count,
    ;
    assert((index + 1) * span / count <= count * span / count) by (nonlinear_arith)
        requires
            (index + 1) * span <= count * span,
            0 < count,
    ;
    assert(count * span / count == span) by (nonlinear_arith)
        requires
            0 < count,
    ;
    assert(0 <= index * span / count) by (nonlinear_arith)
        requires
            0 <= index * span,
            0 < count,
    ;
}

/// The `index`-th of `count` buckets that split `start..end` evenly.
pub fn bucket_range(start: usize, end: usize, count: usize, index: usize) -> (r: (usize, usize))
    requires
        start <= end,
        index < count,
    ensures
        (r.0 as int, r.1 as int) == spec_bucket(start as int, end as int, count as int, index as int),
        start <= r.0 <= r.1 <= end,
{
    let span: u128 = (end - start) as u128;
    proof {
        lemma_bucket_bounds(span as int, count as int, index as int);
        assert(index * span <= count * span) by (nonlinear_arith)
            requires
                index < count,
        ;
        assert((index + 1) * span <= count * span) by (nonlinear_arith)
            requires
                index < count,
        ;
        assert(count * span <= 0xFFFF_FFFF_FFFF_FFFF * 0xFFFF_FFFF_FFFF_FFFF) by (
        nonlinear_arith)
            requires
                count <= 0xFFFF_FFFF_FFFF_FFFF,
                span <= 0xFFFF_FFFF_FFFF_FFFF,
        ;
    }
    let lo_off: u128 = (index as u128 * span) / count as u128;
    let hi_off: u128 = ((index as u128 + 1) * span) / count as u128;
    let lo: usize = start + lo_off as usize;
    let hi: usize = start + hi_off as usize;
    let hi2 = if hi <= lo {
        if lo < end {
            lo + 1
        } else {
            end
        }
    } else {
        hi
    };
    (lo, hi2)
}

proof fn lemma_bucket_step(span: int, count: int, index: int)
    requires
        0 < count <= span,
        0 <= index,
    ensures
        index * span / count < (index + 1) * span / count,
{
    let x = index * span;
    assert((index + 1) * span == x + span) by (nonlinear_arith)
        requires
            x == index * span,
    ;
    assert(0 <= x) by (nonlinear_arith)
        requires
            x == index * span,
            0 <= index,
            0 < span,
    ;
    assert((x + count) / count == x / count + 1) by (nonlinear_arith)
        requires
            0 < count,
            0 <= x,
    ;
    assert((x + count) / count <= (x + span) / count) by (nonlinear_arith)
        requires
            0 < count <= span,
            0 <= x,
    ;
}

/// When there are at least as many frames as buckets, the buckets tile the
/// range: the first begins at `start`, each ends where the next begins, and
/// the last ends at `end`.
pub proof fn law_buckets_tile(start: int, end: int, count: int)
    requires
        0 < count <= end - start,
    ensures
        spec_bucket(start, end, count, 0).0 == start,
        spec_bucket(start, end, count, count - 1).1 == end,
        forall|i: int|
            0 <= i < count - 1 ==> #[trigger] spec_bucket(start, end, count, i).1 == spec_bucket(
                start,
                end,
                count,
                i + 1,
            ).0,
{
    let span = end - start;
    assert(0 * span / count == 0) by (nonlinear_arith)
        requires
            0 < count,
    ;
    assert(count * span / count == span) by (nonlinear_arith)
        requires
            0 < count,
    ;
    lemma_bucket_step(span, count, count - 1);
    assert forall|i: int| 0 <= i < count - 1 implies #[trigger] spec_bucket(
        start,
        end,
        count,
        i,
    ).1 == spec_bucket(start, end, count, i + 1).0 by {
        lemma_bucket_step(span, count, i);
    }
}

// ---------------------------------------------------------------------------
// Spectrogram bins
// ---------------------------------------------------------------------------

/// The range of time bins shown for a frame window: it begins at the bin
/// holding `start_frame` (capped at the last bin) and ends at the bin holding
/// `end_frame`, rounded up, kept between one past the start and `time_bins`.
pub open spec fn spec_visible_bins(start_frame: int, end_frame: int, hop: int, time_bins: int) -> (
    int,
    int,
) {
    let first = start_frame / hop;
    let start_bin = if first < time_bins - 1 {
        first
    } else {
        time_bins - 1
    };
    let last = spec_ceil_div(end_frame, hop);
    let end_bin = if last < start_bin + 1 {
        start_bin + 1
    } else if last > time_bins {
        time_bins
    } else {
        last
    };
    (start_bin, end_bin)
}

/// The time bins shown for a frame window of a spectrogram with `time_bins`
/// columns spaced `hop` frames apart.
pub fn visible_bins(start_frame: usize, end_frame: usize, hop: usize, time_bins: usize) -> (r: (
    usize,
    usize,
))
    requires
        hop > 0,
        time_bins > 0,
    ensures
        (r.0 as int, r.1 as int) == spec_visible_bins(
            start_frame as int,
            end_frame as int,
            hop as int,
            time_bins as int,
        ),
        r.0 < r.1 <= time_bins,
{
    let first = start_frame / hop;
    let start_bin = if first < time_bins - 1 {
        first
    } else {
        time_bins - 1
    };
    let last = ceil_div(end_frame, hop);
    let end_bin = if last < start_bin + 1 {
        start_bin + 1
    } else if last > time_bins {
        time_bins
    } else {
        last
    };
    (start_bin, end_bin)
}

/// Number of spectrogram columns for a source of `total_frames` frames: one
/// per started hop, and at least one.
pub open spec fn spec_time_bin_count(total_frames: int) -> int {
    let frames = if total_frames < 1 {
        1
    } else {
        total_frames
    };
    let bins = spec_ceil_div(frames, FFT_HOP_SIZE as int);
    if bins < 1 {
        1
    } else {
        bins
    }
}

/// Number of spectrogram columns for a source of `total_frames` frames.
pub fn time_bin_count(total_frames: usize) -> (r: usize)
    ensures
        r as int == spec_time_bin_count(total_frames as int),
        r >= 1,
{
    let frames = if total_frames < 1 {
        1
    } else {
        total_frames
    };
    let bins = ceil_div(frames, FFT_HOP_SIZE);
    if bins < 1 {
        1
    } else {
        bins
    }
}

/// Largest magnitude of frequency bin `bin` over the time bins `from..to` of a
/// row-major magnitude table with `bin_count` bins per row (0 when empty).
pub open spec fn column_max(mags: Seq<u8>, bin_count: int, bin: int, from: int, to: int) -> u8
    decreases to - from,
{
    if to <= from {
        0
    } else {
        let rest = column_max(mags, bin_count, bin, from, to - 1);
        let v = mags[(to - 1) * bin_count + bin];
        if v > rest {
            v
        } else {
            rest
        }
    }
}

proof fn lemma_row_index(t: int, bin_count: int, b: int, to: int, len: int)
    requires
        0 <= t < to,
        0 <= b < bin_count,
        to * bin_count <= len,
    ensures
        0 <= t * bin_count + b < len,
{
    assert(t * bin_count + b < (t + 1) * bin_count) by (nonlinear_arith)
        requires
            b < bin_count,
    ;
    assert((t + 1) * bin_count <= to * bin_count) by (nonlinear_arith)
        requires
            t + 1 <= to,
            0 <= bin_count,
    ;
    assert(0 <= t * bin_count) by (nonlinear_arith)
        requires
            0 <= t,
            0 <= bin_count,
    ;
}

/// For every frequency bin, the largest magnitude over the time bins
/// `from..to` of a row-major table with `bin_count` bins per row.
pub fn column_maxima(mags: &Vec<u8>, bin_count: usize, from: usize, to: usize) -> (r: Vec<u8>)
    requires
        from <= to,
        to * bin_count <= mags@.len(),
    ensures
        r@.len() == bin_count,
        forall|b: int|
            0 <= b < bin_count ==> #[trigger] r@[b] == column_max(
                mags@,
                bin_count as int,
                b,
                from as int,
                to as int,
            ),
{
    let mut maxima: Vec<u8> = vec![0u8; bin_count];
    let n = mags.len();
    let mut t = from;
    while t < to
        invariant
            n == mags@.len(),
            from <= t <= to,
            to * bin_count <= mags@.len(),
            maxima@.len() == bin_count,
            forall|b: int|
                0 <= b < bin_count ==> #[trigger] maxima@[b] == column_max(
                    mags@,
                    bin_count as int,
                    b,
                    from as int,
                    t as int,
                ),
        decreases to - t,
    {
        let mut b: usize = 0;
        while b < bin_count
            invariant
                n == mags@.len(),
                from <= t < to,
                to * bin_count <= mags@.len(),
                maxima@.len() == bin_count,
                0 <= b <= bin_count,
                forall|c: int|
                    0 <= c < b ==> #[trigger] maxima@[c] == column_max(
                        mags@,
                        bin_count as int,
                        c,
                        from as int,
                        t + 1,
                    ),
                forall|c: int|
                    b <= c < bin_count ==> #[trigger] maxima@[c] == column_max(
                        mags@,
                        bin_count as int,
                        c,
                        from as int,
                        t as int,
                    ),
            decreases bin_count - b,
        {
            proof {
                lemma_row_index(t as int, bin_count as int, b as int, to as int, mags@.len() as int);
            }
            let v = mags[t * bin_count + b];
            let m = maxima[b];
            if v > m {
                maxima.set(b, v);
            }
            b = b + 1;
        }
        t = t + 1;
    }
    maxima
}

// ---------------------------------------------------------------------------
// Bounded cache of rendered windows
// ---------------------------------------------------------------------------

/// What a rendered window was requested for.
#[derive(Debug, Clone, Copy, PartialEq, Eq, Structural)]
pub struct WindowKey {
    pub start_frame: usize,
    pub end_frame: usize,
    pub width: usize,
    pub height: usize,
}

/// Index of the first entry of `entries` with key `key`, if any.
pub open spec fn first_key_index<V>(entries: Seq<(WindowKey, V)>, key: WindowKey) -> Option<int>
    decreases entries.len(),
{
    if entries.len() == 0 {
        None
    } else {
        match first_key_index(entries.drop_last(), key) {
            Some(i) => Some(i),
            None => if entries.last().0 == key {
                Some((entries.len() - 1) as int)
            } else {
                None
            },
        }
    }
}

/// The entries after appending `entry` and dropping the oldest ones beyond the
/// capacity.
pub open spec fn appended_within_capacity<V>(entries: Seq<(WindowKey, V)>, entry: (WindowKey, V)) -> Seq<
    (WindowKey, V),
> {
    let all = entries.push(entry);
    if all.len() > MAX_CACHED_WINDOWS {
        all.skip(all.len() - MAX_CACHED_WINDOWS)
    } else {
        all
    }
}

/// Recently rendered windows, oldest first, at most `MAX_CACHED_WINDOWS`.
pub struct WindowCache<V> {
    entries: Vec<(WindowKey, V)>,
}

impl<V> WindowCache<V> {
    /// The cached entries, oldest first.
    pub closed spec fn entries(&self) -> Seq<(WindowKey, V)> {
        self.entries@
    }

    pub open spec fn wf(&self) -> bool {
        self.entries().len() <= MAX_CACHED_WINDOWS
    }

    /// An empty cache.
    pub fn new() -> (c: Self)
        ensures
            c.wf(),
            c.entries() == Seq::<(WindowKey, V)>::empty(),
    {
        WindowCache { entries: Vec::new() }
    }

    /// Number of cached windows.
    pub fn len(&self) -> (n: usize)
        ensures
            n == self.entries().len(),
    {
        self.entries.len()
    }

    /// The window cached first for `key`, if any.
    pub fn find(&self, key: &WindowKey) -> (r: Option<&V>)
        ensures
            match first_key_index(self.entries(), *key) {
                Some(i) => r == Some(&self.entries()[i].1),
                None => r is None,
            },
    {
        let mut i: usize = 0;
        while i < self.entries.len()
            invariant
                0 <= i <= self.entries@.len(),
                first_key_index(self.entries@.take(i as int), *key) is None,
            decreases self.entries@.len() - i,
        {
            proof {
                assert(self.entries@.take(i + 1).drop_last() =~= self.entries@.take(i as int));
            }
            if self.entries[i].0 == *key {
                proof {
                    lemma_first_key_prefix(self.entries@, *key, i as int + 1);
                }
                return Some(&self.entries[i].1);
            }
            i = i + 1;
        }
        proof {
            assert(self.entries@.take(i as int) =~= self.entries@);
        }
        None
    }

    /// Caches a rendered window, dropping the oldest windows beyond the capacity.
    pub fn insert(&mut self, key: WindowKey, value: V)
        requires
            old(self).wf(),
        ensures
            final(self).wf(),
            final(self).entries() == appended_within_capacity(old(self).entries(), (key, value)),
    {
        self.entries.push((key, value));
        let ghost pushed = self.entries@;
        if self.entries.len() > MAX_CACHED_WINDOWS {
            let _ = self.entries.remove(0);
            proof {
                assert(self.entries@ =~= pushed.skip(pushed.len() - MAX_CACHED_WINDOWS));
            }
        }
    }
}

proof fn lemma_first_key_prefix<V>(entries: Seq<(WindowKey, V)>, key: WindowKey, k: int)
    requires
        0 < k <= entries.len(),
        first_key_index(entries.take(k - 1), key) is None,
        entries[k - 1].0 == key,
    ensures
        first_key_index(entries, key) == Some(k - 1),
    decreases entries.len(),
{
    if k < entries.len() {
        assert(entries.drop_last().take(k - 1) =~= entries.take(k - 1));
        lemma_first_key_prefix(entries.drop_last(), key, k);
    } else {
        assert(entries.drop_last() =~= entries.take(k - 1));
    }
}

/// Once a key has a first cached window, appending further windows does not
/// change which window that is, as long as it is not dropped.
pub proof fn lemma_first_key_stable<V>(entries: Seq<(WindowKey, V)>, key: WindowKey, extra: (
    WindowKey,
    V,
))
    requires
        first_key_index(entries, key) is Some,
    ensures
        first_key_index(entries.push(extra), key) == first_key_index(entries, key),
{
    assert(entries.push(extra).drop_last() =~= entries);
}

/// A window inserted for a key that had no cached window is what the cache
/// then returns for that key.
pub proof fn law_insert_then_find<V>(entries: Seq<(WindowKey, V)>, key: WindowKey, value: V)
    requires
        entries.len() <= MAX_CACHED_WINDOWS,
        first_key_index(entries, key) is None,
    ensures
        ({
            let after = appended_within_capacity(entries, (key, value));
            &&& first_key_index(after, key) is Some
            &&& after[first_key_index(after, key)->0].1 == value
        }),
{
    let all = entries.push((key, value));
    assert(all.drop_last() =~= entries);
    assert(first_key_index(all, key) == Some((all.len() - 1) as int));
    if all.len() > MAX_CACHED_WINDOWS {
        let after = all.skip(1);
        assert(all.len() - MAX_CACHED_WINDOWS == 1);
        lemma_first_key_none_skip(entries, key);
        assert(after.drop_last() =~= entries.skip(1));
    }
}

proof fn lemma_first_key_none_skip<V>(entries: Seq<(WindowKey, V)>, key: WindowKey)
    requires
        entries.len() > 0,
        first_key_index(entries, key) is None,
    ensures
        first_key_index(entries.skip(1), key) is None,
{
    lemma_first_key_none_all(entries, key);
    lemma_no_key_first_none(entries.skip(1), key);
}

proof fn lemma_first_key_none_all<V>(entries: Seq<(WindowKey, V)>, key: WindowKey)
    requires
        first_key_index(entries, key) is None,
    ensures
        forall|i: int| 0 <= i < entries.len() ==> #[trigger] entries[i].0 != key,
    decreases entries.len(),
{
    if entries.len() > 0 {
        lemma_first_key_none_all(entries.drop_last(), key);
        assert forall|i: int| 0 <= i < entries.len() implies #[trigger] entries[i].0 != key by {
            if i < entries.len() - 1 {
                assert(entries[i] == entries.drop_last()[i]);
            }
        }
    }
}

proof fn lemma_no_key_first_none<V>(entries: Seq<(WindowKey, V)>, key: WindowKey)
    requires
        forall|i: int| 0 <= i < entries.len() ==> #[trigger] entries[i].0 != key,
    ensures
        first_key_index(entries, key) is None,
    decreases entries.len(),
{
    if entries.len() > 0 {
        let d = entries.drop_last();
        assert forall|i: int| 0 <= i < d.len() implies #[trigger] d[i].0 != key by {
            assert(d[i] == entries[i]);
        }
        lemma_no_key_first_none(d, key);
        assert(entries.last().0 != key);
    }
}

} // verus!
