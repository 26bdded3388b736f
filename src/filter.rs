//! The Hampel filter: each sample that has a full window around it is
//! compared with the window's median, and replaced by that median where its
//! deviation exceeds a threshold scaled from the window's median absolute
//! deviation (MAD). Samples near the ends, and whole series too short for a
//! window, pass through unchanged.
//!
//! The sample type is generic. The caller supplies its arithmetic as three
//! functions: `gt(a, b)`, "a is greater than b", which orders samples;
//! `abs_dev(a, b)`, the absolute difference `|a - b|`; and
//! `exceeds(d, mad)`, which says whether a deviation `d` is over the
//! threshold that the window's MAD gives (for real numbers,
//! `d > n_sigma * 1.4826 * mad`).
use vstd::prelude::*;
use crate::median::{
    agrees_with, copy_of, is_linear_order, is_median_by, accepts_comparisons, lemma_median_by_agrees,
    lemma_median_unique, median_by, median_pos,
};
use crate::window::{filter_applies, is_interior, window_at, window_of, window_size_spec};

verus! {

/// `abs_dev` may be called on any pair of samples.
pub open spec fn accepts_pairs<T, D: Fn(T, T) -> T>(abs_dev: D) -> bool {
    forall|a: T, b: T| #[trigger] abs_dev.requires((a, b))
}

/// `exceeds` may be called on any deviation and MAD.
pub open spec fn accepts_deviations<T, X: Fn(T, T) -> bool>(exceeds: X) -> bool {
    forall|d: T, mad: T| #[trigger] exceeds.requires((d, mad))
}

/// `devs` holds, for each sample of `w`, its absolute deviation from `m`.
pub open spec fn is_deviations<T, D: Fn(T, T) -> T>(w: Seq<T>, m: T, devs: Seq<T>, abs_dev: D) -> bool {
    &&& devs.len() == w.len()
    &&& forall|k: int| 0 <= k < w.len() ==> #[trigger] abs_dev.ensures((w[k], m), devs[k])
}

/// `m` is the median of the window `w`, and `mad` the median of the absolute
/// deviations `devs` of its samples from `m`.
pub open spec fn is_window_stats<T, G: Fn(T, T) -> bool, D: Fn(T, T) -> T>(
    w: Seq<T>,
    m: T,
    devs: Seq<T>,
    mad: T,
    gt: G,
    abs_dev: D,
) -> bool {
    &&& is_median_by(w, m, gt)
    &&& is_deviations(w, m, devs, abs_dev)
    &&& is_median_by(devs, mad, gt)
}

/// `out` is what the filter makes of the centre of the window `w`: the
/// window's median where the centre's deviation from it exceeds the
/// threshold, the centre itself otherwise.
pub open spec fn is_filtered_centre<T, G: Fn(T, T) -> bool, D: Fn(T, T) -> T, X: Fn(T, T) -> bool>(
    w: Seq<T>,
    out: T,
    gt: G,
    abs_dev: D,
    exceeds: X,
) -> bool {
    exists|m: T, devs: Seq<T>, mad: T, flag: bool|
        #![trigger is_window_stats(w, m, devs, mad, gt, abs_dev), exceeds.ensures((devs[median_pos(w.len() as int)], mad), flag)]
        is_window_stats(w, m, devs, mad, gt, abs_dev)
        && exceeds.ensures((devs[median_pos(w.len() as int)], mad), flag)
        && out == (if flag { m } else { w[median_pos(w.len() as int)] })
}

/// `r` is the filtered series of `data`: samples with a full window are
/// filtered as `is_filtered_centre` says; every other sample is kept.
pub open spec fn is_filtered<T, G: Fn(T, T) -> bool, D: Fn(T, T) -> T, X: Fn(T, T) -> bool>(
    data: Seq<T>,
    half_window: int,
    r: Seq<T>,
    gt: G,
    abs_dev: D,
    exceeds: X,
) -> bool {
    &&& r.len() == data.len()
    &&& forall|i: int|
        0 <= i < data.len() && !is_interior(data.len() as int, half_window, i) ==> #[trigger] r[i]
            == data[i]
    &&& forall|i: int|
        0 <= i < data.len() && is_interior(data.len() as int, half_window, i) ==> is_filtered_centre(
            window_at(data, i, half_window),
            #[trigger] r[i],
            gt,
            abs_dev,
            exceeds,
        )
}

/// Whatever median and MAD the window `w` has, `exceeds` never reports its
/// centre's deviation over the threshold.
pub open spec fn is_clean_window<T, G: Fn(T, T) -> bool, D: Fn(T, T) -> T, X: Fn(T, T) -> bool>(
    w: Seq<T>,
    gt: G,
    abs_dev: D,
    exceeds: X,
) -> bool {
    forall|m: T, devs: Seq<T>, mad: T|
        #[trigger] is_window_stats(w, m, devs, mad, gt, abs_dev) ==> !exceeds.ensures(
            (devs[median_pos(w.len() as int)], mad),
            true,
        )
}

/// Whatever median and MAD the window `w` has, `exceeds` always reports its
/// centre's deviation over the threshold.
pub open spec fn is_flagged_window<T, G: Fn(T, T) -> bool, D: Fn(T, T) -> T, X: Fn(T, T) -> bool>(
    w: Seq<T>,
    gt: G,
    abs_dev: D,
    exceeds: X,
) -> bool {
    forall|m: T, devs: Seq<T>, mad: T|
        #[trigger] is_window_stats(w, m, devs, mad, gt, abs_dev) ==> !exceeds.ensures(
            (devs[median_pos(w.len() as int)], mad),
            false,
        )
}

/// The centre of the window of radius `half_window` at position `i` is the
/// sample at `i`.
proof fn lemma_window_centre<T>(data: Seq<T>, i: int, half_window: int)
    requires
        0 <= i < data.len(),
        is_interior(data.len() as int, half_window, i),
    ensures
        window_at(data, i, half_window).len() == 2 * half_window + 1,
        median_pos(2 * half_window + 1) == half_window,
        window_at(data, i, half_window)[half_window] == data[i],
{
}

/// Clean data passes unchanged: where no sample with a full window is ever
/// reported over its window's threshold, the filtered series is the input.
pub proof fn lemma_clean_series_unchanged<T, G: Fn(T, T) -> bool, D: Fn(T, T) -> T, X: Fn(T, T) -> bool>(
    data: Seq<T>,
    half_window: int,
    r: Seq<T>,
    gt: G,
    abs_dev: D,
    exceeds: X,
)
    requires
        is_filtered(data, half_window, r, gt, abs_dev, exceeds),
        forall|i: int|
            0 <= i < data.len() && is_interior(data.len() as int, half_window, i) ==> is_clean_window(
                #[trigger] window_at(data, i, half_window),
                gt,
                abs_dev,
                exceeds,
            ),
    ensures
        r == data,
{
    assert forall|i: int| 0 <= i < data.len() implies #[trigger] r[i] == data[i] by {
        if is_interior(data.len() as int, half_window, i) {
            let w = window_at(data, i, half_window);
            lemma_window_centre(data, i, half_window);
            assert(is_filtered_centre(w, r[i], gt, abs_dev, exceeds));
            let (m, devs, mad, flag) = choose|m: T, devs: Seq<T>, mad: T, flag: bool|
                is_window_stats(w, m, devs, mad, gt, abs_dev)
                && exceeds.ensures((devs[median_pos(w.len() as int)], mad), flag)
                && r[i] == (if flag { m } else { w[median_pos(w.len() as int)] });
            assert(is_clean_window(w, gt, abs_dev, exceeds));
            assert(!flag);
        }
    }
    assert(r =~= data);
}

/// A flagged sample is replaced: where a sample with a full window is always
/// reported over its window's threshold, the filtered sample is a median of
/// that window.
pub proof fn lemma_flagged_sample_replaced<T, G: Fn(T, T) -> bool, D: Fn(T, T) -> T, X: Fn(T, T) -> bool>(
    data: Seq<T>,
    half_window: int,
    r: Seq<T>,
    gt: G,
    abs_dev: D,
    exceeds: X,
    i: int,
)
    requires
        is_filtered(data, half_window, r, gt, abs_dev, exceeds),
        0 <= i < data.len(),
        is_interior(data.len() as int, half_window, i),
        is_flagged_window(window_at(data, i, half_window), gt, abs_dev, exceeds),
    ensures
        is_median_by(window_at(data, i, half_window), r[i], gt),
{
    let w = window_at(data, i, half_window);
    assert(is_filtered_centre(w, r[i], gt, abs_dev, exceeds));
    let (m, devs, mad, flag) = choose|m: T, devs: Seq<T>, mad: T, flag: bool|
        is_window_stats(w, m, devs, mad, gt, abs_dev)
        && exceeds.ensures((devs[median_pos(w.len() as int)], mad), flag)
        && r[i] == (if flag { m } else { w[median_pos(w.len() as int)] });
    assert(flag);
}

/// `f` gives at most one result for each pair of arguments.
pub open spec fn is_functional<T, U, F: Fn(T, T) -> U>(f: F) -> bool {
    forall|a: T, b: T, r1: U, r2: U| #[trigger] f.ensures((a, b), r1) && #[trigger] f.ensures((a, b), r2) ==> r1 == r2
}

/// Where `gt` agrees with a linear order and the deviation and threshold
/// tests are functional, a window's centre has one filtered value.
proof fn lemma_filtered_centre_unique<T, G: Fn(T, T) -> bool, D: Fn(T, T) -> T, X: Fn(T, T) -> bool>(
    w: Seq<T>,
    o1: T,
    o2: T,
    gt: G,
    abs_dev: D,
    exceeds: X,
    greater: spec_fn(T, T) -> bool,
)
    requires
        agrees_with(gt, greater),
        is_linear_order(greater),
        is_functional(abs_dev),
        is_functional(exceeds),
        is_filtered_centre(w, o1, gt, abs_dev, exceeds),
        is_filtered_centre(w, o2, gt, abs_dev, exceeds),
    ensures
        o1 == o2,
{
    let c = median_pos(w.len() as int);
    let (m1, devs1, mad1, flag1) = choose|m: T, devs: Seq<T>, mad: T, flag: bool|
        is_window_stats(w, m, devs, mad, gt, abs_dev)
        && exceeds.ensures((devs[c], mad), flag)
        && o1 == (if flag { m } else { w[c] });
    let (m2, devs2, mad2, flag2) = choose|m: T, devs: Seq<T>, mad: T, flag: bool|
        is_window_stats(w, m, devs, mad, gt, abs_dev)
        && exceeds.ensures((devs[c], mad), flag)
        && o2 == (if flag { m } else { w[c] });
    lemma_median_by_agrees(w, m1, gt, greater);
    lemma_median_by_agrees(w, m2, gt, greater);
    lemma_median_unique(w, m1, m2, greater);
    assert forall|k: int| 0 <= k < w.len() implies devs1[k] == devs2[k] by {
        assert(abs_dev.ensures((w[k], m1), devs1[k]));
        assert(abs_dev.ensures((w[k], m2), devs2[k]));
    }
    assert(devs1 =~= devs2);
    lemma_median_by_agrees(devs1, mad1, gt, greater);
    lemma_median_by_agrees(devs1, mad2, gt, greater);
    lemma_median_unique(devs1, mad1, mad2, greater);
}

/// The filtered series is determined by its inputs: where `gt` agrees with a
/// linear order and the deviation and threshold tests are functional, any
/// two results of filtering the same series with the same radius are equal.
pub proof fn lemma_filter_deterministic<T, G: Fn(T, T) -> bool, D: Fn(T, T) -> T, X: Fn(T, T) -> bool>(
    data: Seq<T>,
    half_window: int,
    r1: Seq<T>,
    r2: Seq<T>,
    gt: G,
    abs_dev: D,
    exceeds: X,
    greater: spec_fn(T, T) -> bool,
)
    requires
        agrees_with(gt, greater),
        is_linear_order(greater),
        is_functional(abs_dev),
        is_functional(exceeds),
        is_filtered(data, half_window, r1, gt, abs_dev, exceeds),
        is_filtered(data, half_window, r2, gt, abs_dev, exceeds),
    ensures
        r1 == r2,
{
    assert forall|i: int| 0 <= i < data.len() implies r1[i] == r2[i] by {
        if is_interior(data.len() as int, half_window, i) {
            let w = window_at(data, i, half_window);
            assert(is_filtered_centre(w, r1[i], gt, abs_dev, exceeds));
            assert(is_filtered_centre(w, r2[i], gt, abs_dev, exceeds));
            lemma_filtered_centre_unique(w, r1[i], r2[i], gt, abs_dev, exceeds, greater);
        } else {
            assert(r1[i] == data[i]);
            assert(r2[i] == data[i]);
        }
    }
    assert(r1 =~= r2);
}

/// The absolute deviation of each sample of `w` from `m`.
fn abs_deviations<T: Copy, D: Fn(T, T) -> T>(w: &Vec<T>, m: T, abs_dev: &D) -> (devs: Vec<T>)
    requires
        accepts_pairs(*abs_dev),
    ensures
        is_deviations(w@, m, devs@, *abs_dev),
{
    let mut devs: Vec<T> = Vec::with_capacity(w.len());
    let mut k: usize = 0;
    while k < w.len()
        invariant
            accepts_pairs(*abs_dev),
            k <= w.len(),
            devs.len() == k,
            forall|j: int| 0 <= j < k ==> #[trigger] abs_dev.ensures((w@[j], m), devs@[j]),
        decreases w.len() - k,
    {
        let d = abs_dev(w[k], m);
        devs.push(d);
        k += 1;
    }
    devs
}

/// The filtered value of the centre of the window `w` (its sample at
/// position `len / 2`).
pub fn filter_centre<T: Copy, G: Fn(T, T) -> bool, D: Fn(T, T) -> T, X: Fn(T, T) -> bool>(
    w: &Vec<T>,
    gt: &G,
    abs_dev: &D,
    exceeds: &X,
) -> (out: T)
    requires
        w.len() > 0,
        accepts_comparisons(*gt),
        accepts_pairs(*abs_dev),
        accepts_deviations(*exceeds),
    ensures
        is_filtered_centre(w@, out, *gt, *abs_dev, *exceeds),
{
    let m = median_by(w, gt);
    let devs = abs_deviations(w, m, abs_dev);
    let mad = median_by(&devs, gt);
    let c = w.len() / 2;
    let flag = exceeds(devs[c], mad);
    let out = if flag {
        m
    } else {
        w[c]
    };
    proof {
        assert(is_window_stats(w@, m, devs@, mad, *gt, *abs_dev));
        assert(exceeds.ensures((devs@[median_pos(w.len() as int)], mad), flag));
    }
    out
}

/// The Hampel filter of `data` with windows of radius `half_window`.
///
/// The result has the length of `data`. It is `data` itself where the series
/// is shorter than one window or `half_window` is 0; otherwise each sample
/// at distance `half_window` or more from both ends is filtered over its own
/// window of `data`, and the others are kept.
pub fn hampel_filter_by<T: Copy, G: Fn(T, T) -> bool, D: Fn(T, T) -> T, X: Fn(T, T) -> bool>(
    data: &Vec<T>,
    half_window: usize,
    gt: &G,
    abs_dev: &D,
    exceeds: &X,
) -> (r: Vec<T>)
    requires
        accepts_comparisons(*gt),
        accepts_pairs(*abs_dev),
        accepts_deviations(*exceeds),
    ensures
        is_filtered(data@, half_window as int, r@, *gt, *abs_dev, *exceeds),
        r.len() == data.len(),
        data.len() < window_size_spec(half_window as int) || half_window == 0 ==> r@ == data@,
        forall|i: int|
            0 <= i < data.len() && (i < half_window || i + half_window >= data.len()) ==> #[trigger] r@[i]
                == data@[i],
{
    let n = data.len();
    let mut out: Vec<T> = copy_of(data);
    if !filter_applies(n, half_window) {
        proof {
            assert(out@ =~= data@);
        }
        return out;
    }
    let last = n - half_window;
    let mut i: usize = half_window;
    while i < last
        invariant
            accepts_comparisons(*gt),
            accepts_pairs(*abs_dev),
            accepts_deviations(*exceeds),
            n == data.len(),
            last == n - half_window,
            half_window > 0,
            half_window <= i,
            i <= last || i == half_window,
            out.len() == n,
            forall|k: int| 0 <= k < n && (k < half_window || k >= i) ==> #[trigger] out@[k] == data@[k],
            forall|k: int|
                half_window <= k < i ==> is_filtered_centre(
                    window_at(data@, k, half_window as int),
                    #[trigger] out@[k],
                    *gt,
                    *abs_dev,
                    *exceeds,
                ),
        decreases last - i,
    {
        let w = window_of(data, i, half_window);
        let v = filter_centre(&w, gt, abs_dev, exceeds);
        out[i] = v;
        i += 1;
    }
    out
}

} // verus!
