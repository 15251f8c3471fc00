//! Exact per-frame statistics: minimum, maximum, sum, sum of squares and
//! the upper median of a frame's samples. The derived floating-point
//! figures of merit are left to the caller: mean is `sum / count`, and the
//! unbiased sample variance is `(sumsq - sum * sum / count) / (count - 1)`
//! (undefined when `count <= 1`; that policy is deliberate and the fields
//! simply expose the exact accumulators).

use vstd::prelude::*;

use crate::cameraframe::CameraFrameData;
use crate::cameraframe::CameraFrameMono;
use crate::cameraframe::SampleValue;

verus! {

/// The numeric values of a sequence of samples.
pub open spec fn int_view<T: SampleValue>(s: Seq<T>) -> Seq<int> {
    s.map_values(|v: T| v.as_int())
}

/// The sum of a sequence of integers.
pub open spec fn sum_of(s: Seq<int>) -> int
    decreases s.len(),
{
    if s.len() == 0 {
        0
    } else {
        sum_of(s.drop_last()) + s.last()
    }
}

/// The sum of the squares of a sequence of integers.
pub open spec fn sumsq_of(s: Seq<int>) -> int
    decreases s.len(),
{
    if s.len() == 0 {
        0
    } else {
        sumsq_of(s.drop_last()) + s.last() * s.last()
    }
}

/// The least element of a non-empty sequence of integers.
pub open spec fn min_of(s: Seq<int>) -> int
    recommends
        s.len() >= 1,
    decreases s.len(),
{
    if s.len() <= 1 {
        s[0]
    } else if s.last() < min_of(s.drop_last()) {
        s.last()
    } else {
        min_of(s.drop_last())
    }
}

/// The greatest element of a non-empty sequence of integers.
pub open spec fn max_of(s: Seq<int>) -> int
    recommends
        s.len() >= 1,
    decreases s.len(),
{
    if s.len() <= 1 {
        s[0]
    } else if s.last() > max_of(s.drop_last()) {
        s.last()
    } else {
        max_of(s.drop_last())
    }
}

/// Non-decreasing order.
pub open spec fn sorted(s: Seq<i64>) -> bool {
    forall|i: int, j: int| 0 <= i < j < s.len() ==> s[i] <= s[j]
}

/// Every element of the sequence lies in `[0, bound)`.
pub open spec fn all_below(s: Seq<int>, bound: int) -> bool {
    forall|i: int| 0 <= i < s.len() ==> 0 <= #[trigger] s[i] < bound
}

/// Sums of sequences with elements in `[0, bound)` are bounded by
/// `len * bound`, and likewise sums of squares by `len * bound * bound`.
pub proof fn lemma_sum_bounds(s: Seq<int>, bound: int)
    requires
        all_below(s, bound),
        0 < bound,
    ensures
        0 <= sum_of(s) <= s.len() * bound,
        0 <= sumsq_of(s) <= s.len() * (bound * bound),
    decreases s.len(),
{
    if s.len() == 0 {
    } else {
        assert(all_below(s.drop_last(), bound));
        lemma_sum_bounds(s.drop_last(), bound);
        let v = s.last();
        assert(0 <= v * v <= bound * bound) by (nonlinear_arith)
            requires
                0 <= v < bound,
        ;
        assert((s.len() - 1) * bound + bound == s.len() * bound) by (nonlinear_arith);
        assert((s.len() - 1) * (bound * bound) + bound * bound == s.len() * (bound * bound))
            by (nonlinear_arith);
    }
}

/// Swapping two elements of a sequence keeps its multiset of elements.
proof fn lemma_swap_preserves_multiset(s: Seq<i64>, i: int, j: int)
    requires
        0 <= i < j < s.len(),
    ensures
        s.update(i, s[j]).update(j, s[i]).to_multiset() == s.to_multiset(),
{
    broadcast use vstd::seq_lib::to_multiset_update;
    broadcast use vstd::seq_lib::to_multiset_contains;
    broadcast use vstd::multiset::group_multiset_axioms;
    broadcast use vstd::multiset::group_multiset_properties;

    let a = s[i];
    let b = s[j];
    let s1 = s.update(i, b);
    assert(s.contains(a)) by {
        assert(s[i] == a);
    }
    assert(s.to_multiset().count(a) > 0);
    assert(s1[j] == b);
    assert(s1.to_multiset() == s.to_multiset().insert(b).remove(a));
    assert(s1.update(j, a).to_multiset() == s1.to_multiset().insert(a).remove(b));
    assert(s1.update(j, a).to_multiset() =~= s.to_multiset());
}

/// Sorts a vector of 64-bit integers into non-decreasing order in place,
/// keeping exactly the same elements (as a multiset).
pub fn sort_i64(v: &mut Vec<i64>)
    ensures
        final(v)@.len() == old(v)@.len(),
        sorted(final(v)@),
        final(v)@.to_multiset() == old(v)@.to_multiset(),
{
    broadcast use vstd::seq_lib::to_multiset_update;
    broadcast use vstd::multiset::group_multiset_axioms;
    broadcast use vstd::multiset::group_multiset_properties;

    let n = v.len();
    let mut i: usize = 1;
    while i < n
        invariant
            n == v@.len(),
            1 <= i,
            v@.to_multiset() == old(v)@.to_multiset(),
            forall|k1: int, k2: int| 0 <= k1 < k2 < i && k2 < n ==> v@[k1] <= v@[k2],
        decreases n - i,
    {
        let mut j: usize = i;
        while j > 0 && v[j - 1] > v[j]
            invariant
                n == v@.len(),
                0 <= j <= i < n,
                v@.to_multiset() == old(v)@.to_multiset(),
                forall|k1: int, k2: int|
                    0 <= k1 < k2 <= i && k1 != j && k2 != j ==> v@[k1] <= v@[k2],
                forall|k: int| j < k <= i ==> v@[j as int] <= #[trigger] v@[k],
            decreases j,
        {
            let a = v[j - 1];
            let b = v[j];
            let ghost before = v@;
            v[j - 1] = b;
            v[j] = a;
            proof {
                assert(v@ =~= before.update(j - 1, before[j as int]).update(
                    j as int,
                    before[j - 1],
                ));
                lemma_swap_preserves_multiset(before, j - 1, j as int);
            }
            j = j - 1;
        }
        i = i + 1;
    }
}

/// Exact order statistics and moment accumulators over one frame's samples.
///
/// `min`, `max` and `median` are sample values; `median` is the element at
/// index `count / 2` of the ascending sort of the samples — the upper
/// median for even counts, never an average of two neighbours. `sum` and
/// `sumsq` accumulate in the 64-bit integer domain, which the constructor's
/// precondition keeps overflow-free.
#[derive(Clone, Copy, Debug)]
pub struct FrameStats {
    pub min: i64,
    pub max: i64,
    pub median: i64,
    pub count: usize,
    pub sum: i64,
    pub sumsq: i64,
}

impl FrameStats {
    /// Computes the statistics of a frame's samples. The frame must be
    /// non-empty (the median of nothing does not exist) and small enough
    /// that the 64-bit accumulators cannot overflow.
    pub fn new<T: SampleValue>(frame: &CameraFrameMono<T>) -> (st: FrameStats)
        requires
            1 <= frame.samples().len(),
            frame.samples().len() <= 0x4000_0000,
        ensures
            st.count == frame.samples().len(),
            st.sum == sum_of(int_view(frame.samples())),
            st.sumsq == sumsq_of(int_view(frame.samples())),
            st.min == min_of(int_view(frame.samples())),
            st.max == max_of(int_view(frame.samples())),
            exists|t: Seq<i64>|
                {
                    &&& t.len() == frame.samples().len()
                    &&& sorted(t)
                    &&& t.to_multiset() == int64_view(frame.samples()).to_multiset()
                    &&& st.median == t[(st.count / 2) as int]
                },
    {
        let raw = frame.as_slice();
        let n = raw.len();
        let ghost iv = int_view(frame.samples());
        proof {
            assert forall|k: int| 0 <= k < iv.len() implies 0 <= #[trigger] iv[k] < 0x10000 by {
                raw@[k].as_int_bounds();
            }
        }
        let mut minv: i64 = i64::MAX;
        let mut maxv: i64 = i64::MIN;
        let mut sum: i64 = 0;
        let mut sumsq: i64 = 0;
        let mut values: Vec<i64> = Vec::new();
        let mut i: usize = 0;
        while i < n
            invariant
                n == raw@.len(),
                n == iv.len(),
                n <= 0x4000_0000,
                i <= n,
                iv == int_view(raw@),
                all_below(iv, 0x10000),
                sum == sum_of(iv.subrange(0, i as int)),
                sumsq == sumsq_of(iv.subrange(0, i as int)),
                0 <= sum <= i * 0x10000,
                0 <= sumsq <= i * (0x10000 * 0x10000),
                i == 0 ==> minv == i64::MAX && maxv == i64::MIN,
                i >= 1 ==> minv == min_of(iv.subrange(0, i as int)),
                i >= 1 ==> maxv == max_of(iv.subrange(0, i as int)),
                values@.len() == i,
                forall|k: int| 0 <= k < i ==> values@[k] == iv[k],
            decreases n - i,
        {
            let v: i64 = raw[i].to_u32() as i64;
            proof {
                let pre = iv.subrange(0, i as int);
                let post = iv.subrange(0, i + 1);
                assert(post.drop_last() =~= pre);
                assert(post.last() == iv[i as int]);
                lemma_sum_bounds(pre, 0x10000);
                assert(i * 0x10000 + 0x10000 == (i + 1) * 0x10000) by (nonlinear_arith);
                assert(i * (0x10000 * 0x10000) + 0x10000 * 0x10000 == (i + 1) * (0x10000
                    * 0x10000)) by (nonlinear_arith);
                assert(0 <= v * v < 0x10000 * 0x10000) by (nonlinear_arith)
                    requires
                        0 <= v < 0x10000,
                ;
            }
            sum = sum + v;
            sumsq = sumsq + v * v;
            if v < minv {
                minv = v;
            }
            if v > maxv {
                maxv = v;
            }
            values.push(v);
            i = i + 1;
        }
        proof {
            assert(iv.subrange(0, n as int) =~= iv);
            assert forall|k: int| 0 <= k < n implies values@[k] == int64_view(
                frame.samples(),
            )[k] by {
                raw@[k].as_int_bounds();
                assert(iv[k] == raw@[k].as_int());
                assert(int64_view(frame.samples())[k] == frame.samples()[k].as_int() as i64);
            }
            assert(values@ =~= int64_view(frame.samples()));
        }
        sort_i64(&mut values);
        let median = values[n / 2];
        proof {
            let t = values@;
            assert(t.len() == frame.samples().len());
            assert(sorted(t) && t.to_multiset() == int64_view(frame.samples()).to_multiset()
                && median == t[(n / 2) as int]);
        }
        FrameStats { min: minv, max: maxv, median, count: n, sum, sumsq }
    }
}

/// The numeric values of a sequence of samples, as 64-bit integers.
pub open spec fn int64_view<T: SampleValue>(s: Seq<T>) -> Seq<i64> {
    s.map_values(|v: T| v.as_int() as i64)
}

} // verus!
