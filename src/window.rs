//! Window geometry: the size of a window, whether a series is long enough to
//! be filtered, and which positions carry a full window.
use vstd::prelude::*;

verus! {

/// Number of samples in a window of the given radius, `2 * half_window + 1`,
/// clamped to `usize::MAX` where that does not fit.
pub open spec fn window_size_spec(half_window: int) -> int {
    if 2 * half_window + 1 > usize::MAX {
        usize::MAX as int
    } else {
        2 * half_window + 1
    }
}

/// Position `i` of a series of length `n` has a full window of radius
/// `half_window` around it, and that window holds more than one sample.
pub open spec fn is_interior(n: int, half_window: int, i: int) -> bool {
    &&& half_window > 0
    &&& half_window <= i
    &&& i + half_window < n
}

/// The window of radius `half_window` centred on position `i`.
pub open spec fn window_at<T>(data: Seq<T>, i: int, half_window: int) -> Seq<T> {
    data.subrange(i - half_window, i + half_window + 1)
}

/// The size of a window of radius `half_window`, computed with saturation.
pub fn window_size(half_window: usize) -> (r: usize)
    ensures
        r as int == window_size_spec(half_window as int),
{
    match half_window.checked_mul(2) {
        Some(d) => d.saturating_add(1),
        None => usize::MAX,
    }
}

/// Whether a series of length `n` is filtered at all: it must hold at least
/// one window, and a window must hold more than one sample.
pub fn filter_applies(n: usize, half_window: usize) -> (r: bool)
    ensures
        r == (n as int >= window_size_spec(half_window as int) && window_size_spec(
            half_window as int,
        ) > 1),
        !r ==> forall|i: int| !is_interior(n as int, half_window as int, i),
{
    let ws = window_size(half_window);
    !(n < ws || ws <= 1)
}

/// A copy of the window of radius `half_window` centred on position `i`.
pub fn window_of<T: Copy>(data: &Vec<T>, i: usize, half_window: usize) -> (r: Vec<T>)
    requires
        half_window <= i,
        i + half_window < data.len(),
    ensures
        r@ == window_at(data@, i as int, half_window as int),
{
    let start = i - half_window;
    let end = i + half_window + 1;
    let mut r: Vec<T> = Vec::with_capacity(end - start);
    let mut k: usize = start;
    while k < end
        invariant
            start <= k <= end,
            end <= data.len(),
            r@ == data@.subrange(start as int, k as int),
        decreases end - k,
    {
        r.push(data[k]);
        proof {
            assert(data@.subrange(start as int, k + 1) =~= data@.subrange(start as int, k as int).push(data@[k as int]));
        }
        k += 1;
    }
    r
}

} // verus!
