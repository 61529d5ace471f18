//! Which pixels a luma histogram looks at, and how often each of its bars was met.
use vstd::prelude::*;
use crate::decode::DecodedImage;

verus! {

/// About how many pixels are looked at.
pub const MAX_SAMPLED_PIXELS: u64 = 200000;

/// How far apart the pixels are that are looked at.
pub open spec fn stride(w: int, h: int) -> int {
    let n = w * h / (MAX_SAMPLED_PIXELS as int);
    if n < 1 {
        1
    } else {
        n
    }
}

/// How many pixels can be looked at: those of the frame that are complete.
pub open spec fn visitable(w: int, h: int, bytes: int) -> int {
    if w * h <= bytes / 4 {
        w * h
    } else {
        bytes / 4
    }
}

/// Where the pixels start that are looked at: every `stride`-th complete pixel.
pub fn sample_offsets(img: &DecodedImage) -> (out: Vec<usize>)
    ensures
        forall|k: int|
            0 <= k < out@.len() ==> #[trigger] out@[k] == k * stride(img.w as int, img.h as int)
                * 4,
        forall|k: int|
            0 <= k < out@.len() ==> (#[trigger] out@[k]) + 4 <= img.rgba@.len(),
        out@.len() * stride(img.w as int, img.h as int) >= visitable(
            img.w as int,
            img.h as int,
            img.rgba@.len() as int,
        ),
        out@.len() > 0 ==> (out@.len() - 1) * stride(img.w as int, img.h as int) < visitable(
            img.w as int,
            img.h as int,
            img.rgba@.len() as int,
        ),
{
    let ghost w = img.w as int;
    let ghost h = img.h as int;
    proof {
        assert(w * h <= 0xFFFF_FFFF * 0xFFFF_FFFF) by (nonlinear_arith)
            requires
                0 <= w <= 0xFFFF_FFFF,
                0 <= h <= 0xFFFF_FFFF,
        ;
        assert(0 <= w * h) by (nonlinear_arith)
            requires
                0 <= w,
                0 <= h,
        ;
    }
    let total: u64 = img.w as u64 * img.h as u64;
    let bytes: usize = img.rgba.len();
    let complete: usize = bytes / 4;
    let seen: usize = if total <= complete as u64 {
        total as usize
    } else {
        complete
    };
    let whole: u64 = total / MAX_SAMPLED_PIXELS;
    let step: u64 = if whole < 1 {
        1
    } else {
        whole
    };
    let ghost d = stride(w, h);
    assert(step == d);
    assert(seen == visitable(w, h, img.rgba@.len() as int));
    let mut out: Vec<usize> = Vec::new();
    let mut i: u128 = 0;
    assert(0 * d == 0) by (nonlinear_arith);
    while i < seen as u128
        invariant
            d >= 1,
            step == d,
            seen * 4 <= bytes,
            bytes == img.rgba@.len(),
            i == out@.len() * d,
            i <= usize::MAX + u64::MAX,
            forall|k: int| 0 <= k < out@.len() ==> #[trigger] out@[k] == k * d * 4,
            forall|k: int| 0 <= k < out@.len() ==> (#[trigger] out@[k]) + 4 <= img.rgba@.len(),
            out@.len() > 0 ==> (out@.len() - 1) * d < seen,
        decreases
                (if i < seen {
                    seen - i
                } else {
                    0
                }),
    {
        let ghost n = out@.len() as int;
        out.push(i as usize * 4);
        assert((n + 1) * d == n * d + d) by (nonlinear_arith);
        i = i + step as u128;
    }
    out
}

/// How many of the first `n` samples fell into bar `b`; what lies beyond the last bar
/// counts for the last.
pub open spec fn bar_count(samples: Seq<usize>, bins: int, b: int, n: int) -> int
    decreases n,
{
    if n <= 0 {
        0
    } else {
        let at = if samples[n - 1] < bins {
            samples[n - 1] as int
        } else {
            bins - 1
        };
        bar_count(samples, bins, b, n - 1) + if at == b {
            1int
        } else {
            0
        }
    }
}

/// How many of the first `n` samples fell into one of the first `m` bars.
pub open spec fn bars_sum(samples: Seq<usize>, bins: int, m: int, n: int) -> int
    decreases m,
{
    if m <= 0 {
        0
    } else {
        bars_sum(samples, bins, m - 1, n) + bar_count(samples, bins, m - 1, n)
    }
}

proof fn lemma_one_more_sample(samples: Seq<usize>, bins: int, m: int, n: int)
    requires
        0 <= m <= bins,
        0 < bins,
        0 < n <= samples.len(),
    ensures
        bars_sum(samples, bins, m, n) == bars_sum(samples, bins, m, n - 1) + (if (if samples[n - 1]
            < bins {
            samples[n - 1] as int
        } else {
            bins - 1
        }) < m {
            1int
        } else {
            0
        }),
    decreases m,
{
    if m > 0 {
        lemma_one_more_sample(samples, bins, m - 1, n);
    }
}

/// Every sample counts for one bar.
pub proof fn every_sample_is_counted(samples: Seq<usize>, bins: int, n: int)
    requires
        bins > 0,
        0 <= n <= samples.len(),
    ensures
        bars_sum(samples, bins, bins, n) == n,
    decreases n,
{
    if n > 0 {
        every_sample_is_counted(samples, bins, n - 1);
        lemma_one_more_sample(samples, bins, bins, n);
    } else {
        lemma_no_sample(samples, bins, bins);
    }
}

proof fn lemma_no_sample(samples: Seq<usize>, bins: int, m: int)
    requires
        0 <= m,
    ensures
        bars_sum(samples, bins, m, 0) == 0,
    decreases m,
{
    if m > 0 {
        lemma_no_sample(samples, bins, m - 1);
    }
}

/// How often each bar was met, given the bar of each sample. Without bars there is
/// nothing to count.
pub fn count_bars(samples: &Vec<usize>, bins: usize) -> (out: Vec<usize>)
    ensures
        out@.len() == bins,
        forall|b: int|
            0 <= b < bins ==> #[trigger] out@[b] == bar_count(
                samples@,
                bins as int,
                b,
                samples@.len() as int,
            ),
{
    let mut out: Vec<usize> = Vec::new();
    let mut b: usize = 0;
    while b < bins
        invariant
            0 <= b <= bins,
            out@.len() == b,
            forall|x: int| 0 <= x < b ==> #[trigger] out@[x] == 0,
        decreases bins - b,
    {
        out.push(0);
        b += 1;
    }
    if bins == 0 {
        return out;
    }
    let mut i: usize = 0;
    while i < samples.len()
        invariant
            bins > 0,
            out@.len() == bins,
            0 <= i <= samples@.len(),
            forall|x: int|
                0 <= x < bins ==> #[trigger] out@[x] == bar_count(
                    samples@,
                    bins as int,
                    x,
                    i as int,
                ),
            forall|x: int| 0 <= x < bins ==> #[trigger] out@[x] <= i,
        decreases samples@.len() - i,
    {
        let at: usize = if samples[i] < bins {
            samples[i]
        } else {
            bins - 1
        };
        let ghost before = out@;
        let n: usize = out[at] + 1;
        out.set(at, n);
        assert(forall|x: int| 0 <= x < bins && x != at ==> #[trigger] out@[x] == before[x]);
        i += 1;
    }
    out
}

/// The tallest bar.
pub fn tallest(counts: &Vec<usize>) -> (m: usize)
    ensures
        forall|i: int| 0 <= i < counts@.len() ==> #[trigger] counts@[i] <= m,
        counts@.len() > 0 ==> counts@.contains(m),
        counts@.len() == 0 ==> m == 0,
{
    let mut m: usize = 0;
    let mut i: usize = 0;
    while i < counts.len()
        invariant
            0 <= i <= counts@.len(),
            forall|k: int| 0 <= k < i ==> #[trigger] counts@[k] <= m,
            i > 0 ==> counts@.contains(m),
            i == 0 ==> m == 0,
        decreases counts@.len() - i,
    {
        if counts[i] > m || i == 0 {
            m = counts[i];
            assert(counts@[i as int] == m);
        }
        i += 1;
    }
    m
}

/// Small frames are sampled pixel by pixel; of larger ones as few pixels are left out as the
/// limit allows: with a shorter stride there would be more than it.
pub proof fn the_stride_is_as_short_as_the_limit_allows(w: int, h: int)
    requires
        0 <= w,
        0 <= h,
    ensures
        stride(w, h) >= 1,
        w * h < 2 * 200_000 ==> stride(w, h) == 1,
        stride(w, h) > 1 ==> stride(w, h) * 200_000 <= w * h,
        w * h < (stride(w, h) + 1) * 200_000,
{
    assert(0 <= w * h) by (nonlinear_arith)
        requires
            0 <= w,
            0 <= h,
    ;
}

/// The places of the first `n` samples that belong to a bar: those of its value, and for the
/// last bar also all that lie beyond.
pub open spec fn places_of_bar(samples: Seq<usize>, bins: int, b: int, n: int) -> Set<int> {
    Set::new(
        |k: int|
            0 <= k < n && (samples[k] == b || (b == bins - 1 && samples[k] >= bins)),
    )
}

/// A bar is as high as samples belong to it.
pub proof fn a_bar_counts_its_samples(samples: Seq<usize>, bins: int, b: int, n: int)
    requires
        0 <= b < bins,
        0 <= n <= samples.len(),
    ensures
        places_of_bar(samples, bins, b, n).finite(),
        bar_count(samples, bins, b, n) == places_of_bar(samples, bins, b, n).len(),
    decreases n,
{
    if n == 0 {
        assert(places_of_bar(samples, bins, b, n) =~= Set::empty());
    } else {
        a_bar_counts_its_samples(samples, bins, b, n - 1);
        let before = places_of_bar(samples, bins, b, n - 1);
        if samples[n - 1] == b || (b == bins - 1 && samples[n - 1] >= bins) {
            assert(places_of_bar(samples, bins, b, n) =~= before.insert(n - 1));
        } else {
            assert(places_of_bar(samples, bins, b, n) =~= before);
        }
    }
}

/// The pixels that can be visited are those of the frame, as far as its bytes go.
pub proof fn only_whole_pixels_are_visited(w: int, h: int, bytes: int)
    requires
        0 <= bytes,
    ensures
        visitable(w, h, bytes) <= w * h,
        4 * visitable(w, h, bytes) <= bytes,
        visitable(w, h, bytes) == w * h || bytes < 4 * (visitable(w, h, bytes) + 1),
{
}

} // verus!
