//! Order statistics under a caller-supplied "greater than" test: an insertion
//! sort, and the median taken at position `len / 2` of the sorted samples.
use vstd::prelude::*;

verus! {

broadcast use {vstd::seq_lib::group_to_multiset_ensures, vstd::multiset::group_multiset_axioms};

/// `gt` may be called on any pair of samples.
pub open spec fn accepts_comparisons<T, G: Fn(T, T) -> bool>(gt: G) -> bool {
    forall|a: T, b: T| #[trigger] gt.requires((a, b))
}

/// `gt` has reported `a` not greater than `b`, or `b` greater than `a`.
pub open spec fn reported_in_order<T, G: Fn(T, T) -> bool>(gt: G, a: T, b: T) -> bool {
    gt.ensures((a, b), false) || gt.ensures((b, a), true)
}

/// Each sample of `s` has been reported in order with the one after it.
pub open spec fn sorted_by<T, G: Fn(T, T) -> bool>(s: Seq<T>, gt: G) -> bool {
    forall|k: int| 0 <= k < s.len() - 1 ==> #[trigger] reported_in_order(gt, s[k], s[k + 1])
}

/// Position of the median in a sorted run of `len` samples: the middle one,
/// or the upper of the two middle ones where `len` is even.
pub open spec fn median_pos(len: int) -> int {
    len / 2
}

/// `m` is the median of `w`: the sample at the middle position of some
/// arrangement of `w`'s samples that is sorted under `gt`.
pub open spec fn is_median_by<T, G: Fn(T, T) -> bool>(w: Seq<T>, m: T, gt: G) -> bool {
    exists|s: Seq<T>|
        #![trigger s.to_multiset()]
        s.to_multiset() == w.to_multiset() && s.len() == w.len() && sorted_by(s, gt) && m == s[median_pos(w.len() as int)]
}

/// "Not greater than" is a linear order: total, transitive and
/// antisymmetric. Numeric `>` has this property on numbers other than
/// not-a-number and negative zero.
pub open spec fn is_linear_order<T>(greater: spec_fn(T, T) -> bool) -> bool {
    &&& forall|a: T, b: T| #[trigger] greater(a, b) ==> !greater(b, a)
    &&& forall|a: T, b: T, c: T|
        !#[trigger] greater(a, b) && !#[trigger] greater(b, c) ==> !greater(a, c)
    &&& forall|a: T, b: T| !#[trigger] greater(a, b) && !greater(b, a) ==> a == b
}

/// Every answer of `gt` is the one that `greater` gives.
pub open spec fn agrees_with<T, G: Fn(T, T) -> bool>(gt: G, greater: spec_fn(T, T) -> bool) -> bool {
    forall|a: T, b: T, r: bool| #[trigger] gt.ensures((a, b), r) ==> r == greater(a, b)
}

/// No sample of `s` is greater than a later one.
pub open spec fn sorted_under<T>(s: Seq<T>, greater: spec_fn(T, T) -> bool) -> bool {
    forall|i: int, j: int| 0 <= i < j < s.len() ==> !#[trigger] greater(s[i], s[j])
}

/// `m` is the median of `w` under the order `greater`: the sample at the
/// middle position of an arrangement of `w`'s samples sorted under it.
pub open spec fn is_median_under<T>(w: Seq<T>, m: T, greater: spec_fn(T, T) -> bool) -> bool {
    exists|s: Seq<T>|
        #![trigger s.to_multiset()]
        s.to_multiset() == w.to_multiset() && s.len() == w.len() && sorted_under(s, greater) && m == s[median_pos(w.len() as int)]
}

/// Under a linear order, a run sorted pair by pair is sorted from `i` to `j`.
proof fn lemma_sorted_pair<T>(s: Seq<T>, greater: spec_fn(T, T) -> bool, i: int, j: int)
    requires
        forall|k: int| 0 <= k < s.len() - 1 ==> !#[trigger] greater(s[k], s[k + 1]),
        is_linear_order(greater),
        0 <= i < j < s.len(),
    ensures
        !greater(s[i], s[j]),
    decreases j - i,
{
    let k = j - 1;
    assert(!greater(s[k], s[k + 1]));
    if i < j - 1 {
        lemma_sorted_pair(s, greater, i, j - 1);
    }
}

/// A run that `gt` has reported sorted is sorted under any linear order that
/// `gt` agrees with.
proof fn lemma_sorted_by_agrees<T, G: Fn(T, T) -> bool>(s: Seq<T>, gt: G, greater: spec_fn(T, T) -> bool)
    requires
        sorted_by(s, gt),
        agrees_with(gt, greater),
        is_linear_order(greater),
    ensures
        sorted_under(s, greater),
{
    assert forall|k: int| 0 <= k < s.len() - 1 implies !#[trigger] greater(s[k], s[k + 1]) by {
        assert(reported_in_order(gt, s[k], s[k + 1]));
    }
    assert forall|i: int, j: int| 0 <= i < j < s.len() implies !#[trigger] greater(s[i], s[j]) by {
        lemma_sorted_pair(s, greater, i, j);
    }
}

/// A median under `gt` is a median under any linear order that `gt` agrees
/// with.
pub proof fn lemma_median_by_agrees<T, G: Fn(T, T) -> bool>(w: Seq<T>, m: T, gt: G, greater: spec_fn(T, T) -> bool)
    requires
        is_median_by(w, m, gt),
        agrees_with(gt, greater),
        is_linear_order(greater),
    ensures
        is_median_under(w, m, greater),
{
    let s = choose|s: Seq<T>|
        s.to_multiset() == w.to_multiset() && s.len() == w.len() && sorted_by(s, gt) && m == s[median_pos(w.len() as int)];
    lemma_sorted_by_agrees(s, gt, greater);
}

/// Under a linear order, two sorted arrangements of the same samples are
/// the same sequence.
proof fn lemma_sorted_unique<T>(s1: Seq<T>, s2: Seq<T>, greater: spec_fn(T, T) -> bool)
    requires
        sorted_under(s1, greater),
        sorted_under(s2, greater),
        s1.to_multiset() == s2.to_multiset(),
        is_linear_order(greater),
    ensures
        s1 == s2,
    decreases s1.len(),
{
    if s1.len() == 0 {
        assert(s2.len() == 0);
        assert(s1 =~= s2);
    } else {
        assert(s1.to_multiset().count(s1[0]) > 0);
        assert(s2.contains(s1[0]));
        let j = choose|j: int| 0 <= j < s2.len() && s2[j] == s1[0];
        assert(s2.to_multiset().count(s2[0]) > 0);
        assert(s1.contains(s2[0]));
        let k = choose|k: int| 0 <= k < s1.len() && s1[k] == s2[0];
        if j > 0 && k > 0 {
            assert(!greater(s2[0], s2[j]));
            assert(!greater(s1[0], s1[k]));
        }
        assert(s1[0] == s2[0]);
        let t1 = s1.remove(0);
        let t2 = s2.remove(0);
        assert forall|i: int, j: int| 0 <= i < j < t1.len() implies !#[trigger] greater(t1[i], t1[j]) by {
            assert(!greater(s1[i + 1], s1[j + 1]));
        }
        assert forall|i: int, j: int| 0 <= i < j < t2.len() implies !#[trigger] greater(t2[i], t2[j]) by {
            assert(!greater(s2[i + 1], s2[j + 1]));
        }
        assert(t1.to_multiset() == t2.to_multiset());
        lemma_sorted_unique(t1, t2, greater);
        assert forall|i: int| 0 <= i < s1.len() implies s1[i] == s2[i] by {
            if i > 0 {
                assert(s1[i] == t1[i - 1]);
                assert(s2[i] == t2[i - 1]);
            }
        }
        assert(s1 =~= s2);
    }
}

/// Under a linear order a sequence has exactly one median.
pub proof fn lemma_median_unique<T>(w: Seq<T>, m1: T, m2: T, greater: spec_fn(T, T) -> bool)
    requires
        is_linear_order(greater),
        is_median_under(w, m1, greater),
        is_median_under(w, m2, greater),
    ensures
        m1 == m2,
{
    let s1 = choose|s: Seq<T>|
        s.to_multiset() == w.to_multiset() && s.len() == w.len() && sorted_under(s, greater) && m1 == s[median_pos(w.len() as int)];
    let s2 = choose|s: Seq<T>|
        s.to_multiset() == w.to_multiset() && s.len() == w.len() && sorted_under(s, greater) && m2 == s[median_pos(w.len() as int)];
    lemma_sorted_unique(s1, s2, greater);
}

/// Sorts `v` in place under `gt`, by insertion.
pub fn sort_by_gt<T: Copy, G: Fn(T, T) -> bool>(v: &mut Vec<T>, gt: &G)
    requires
        accepts_comparisons(*gt),
    ensures
        final(v)@.len() == old(v)@.len(),
        final(v)@.to_multiset() == old(v)@.to_multiset(),
        sorted_by(final(v)@, *gt),
{
    let n = v.len();
    let mut i: usize = 1;
    while i < n
        invariant
            accepts_comparisons(*gt),
            n == v.len(),
            1 <= i,
            v@.to_multiset() == old(v)@.to_multiset(),
            forall|k: int| 0 <= k && k + 1 < i && k + 1 < n ==> #[trigger] reported_in_order(*gt, v@[k], v@[k + 1]),
        decreases n - i,
    {
        let mut j: usize = i;
        loop
            invariant
                accepts_comparisons(*gt),
                n == v.len(),
                0 <= j <= i < n,
                v@.to_multiset() == old(v)@.to_multiset(),
                forall|k: int| 0 <= k && k < i && k + 1 != j ==> #[trigger] reported_in_order(*gt, v@[k], v@[k + 1]),
                0 < j < i ==> reported_in_order(*gt, v@[j - 1], v@[j + 1]),
            ensures
                n == v.len(),
                v@.to_multiset() == old(v)@.to_multiset(),
                forall|k: int| 0 <= k && k < i ==> #[trigger] reported_in_order(*gt, v@[k], v@[k + 1]),
            decreases j,
        {
            if j == 0 {
                break;
            }
            let a = v[j - 1];
            let x = v[j];
            if !gt(a, x) {
                break;
            }
            proof {
                let ghost s = v@;
                assert(s.update(j - 1, x).update(j as int, a).to_multiset() =~= s.to_multiset());
                if j >= 2 {
                    let k = j - 2;
                    assert(reported_in_order(*gt, s[k], s[k + 1]));
                }
            }
            v[j - 1] = x;
            v[j] = a;
            j -= 1;
        }
        i += 1;
    }
}

/// The median of `values`: the sample at position `len / 2` of a sorted copy.
pub fn median_by<T: Copy, G: Fn(T, T) -> bool>(values: &Vec<T>, gt: &G) -> (m: T)
    requires
        values.len() > 0,
        accepts_comparisons(*gt),
    ensures
        is_median_by(values@, m, *gt),
        values@.contains(m),
{
    let mut sorted = copy_of(values);
    sort_by_gt(&mut sorted, gt);
    let m = sorted[values.len() / 2];
    proof {
        assert(sorted@.to_multiset().count(m) > 0);
    }
    m
}

/// A sample-by-sample copy of `v`.
pub(crate) fn copy_of<T: Copy>(v: &Vec<T>) -> (r: Vec<T>)
    ensures
        r@ == v@,
{
    let mut r: Vec<T> = Vec::with_capacity(v.len());
    let mut k: usize = 0;
    while k < v.len()
        invariant
            k <= v.len(),
            r@ == v@.subrange(0, k as int),
        decreases v.len() - k,
    {
        r.push(v[k]);
        proof {
            assert(v@.subrange(0, k + 1) =~= v@.subrange(0, k as int).push(v@[k as int]));
        }
        k += 1;
    }
    proof {
        assert(v@.subrange(0, v.len() as int) =~= v@);
    }
    r
}

} // verus!
