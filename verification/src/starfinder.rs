//! Star detection over a flat, row-major sample sequence: a global
//! threshold is derived from the frame statistics, bright pixels are
//! grouped by a single forward raster pass, small groups are discarded,
//! and each surviving segment gets an exact mass and centroid before the
//! list is sorted by ascending mass.
//!
//! All arithmetic is exact. The detection threshold is the integer
//! truncation of `mean + multiplier * stddev` (with the multiplier an
//! exact rational and stddev the unbiased sample deviation), characterized
//! algebraically without floating point; centroids are exact rationals.

use vstd::prelude::*;

use crate::cameraframe::SampleValue;
use crate::framestats::all_below;
use crate::framestats::int_view;
use crate::framestats::lemma_sum_bounds;
use crate::framestats::sum_of;
use crate::framestats::sumsq_of;

verus! {

/// Detection tuning knobs. The threshold multiplier is the exact rational
/// `threshold_num / threshold_den` (in units of standard deviations);
/// `minsize` is the least member count a segment must have to survive.
#[derive(Clone, Copy, Debug)]
pub struct FindStarsOptions {
    pub threshold_num: u32,
    pub threshold_den: u32,
    pub minsize: usize,
}

impl FindStarsOptions {
    /// The bounds under which the threshold search cannot overflow:
    /// multipliers up to 2048 in numerator and denominator.
    pub open spec fn valid(self) -> bool {
        &&& 1 <= self.threshold_num <= 2048
        &&& 1 <= self.threshold_den <= 2048
    }

    /// The default knobs: 2.5 standard deviations, two-pixel minimum.
    pub fn defaults() -> (o: FindStarsOptions)
        ensures
            o == spec_default_options(),
    {
        FindStarsOptions { threshold_num: 5, threshold_den: 2, minsize: 2 }
    }
}

pub open spec fn spec_default_options() -> FindStarsOptions {
    FindStarsOptions { threshold_num: 5, threshold_den: 2, minsize: 2 }
}

pub open spec fn opts_or_default(o: Option<FindStarsOptions>) -> FindStarsOptions {
    match o {
        Some(x) => x,
        None => spec_default_options(),
    }
}

/// An exact non-negative rational value, `num / den`.
#[derive(Clone, Copy, Debug, PartialEq, Eq, Structural)]
pub struct Ratio {
    pub num: u64,
    pub den: u64,
}

/// One detected star candidate: its member coordinates in discovery order,
/// its centroid as a pair of exact rationals (x is the mass-weighted mean
/// column, y the unweighted mean row), and its mass, the sum of its member
/// intensities.
#[derive(Debug)]
pub struct Segment {
    pub indices: Vec<(usize, usize)>,
    pub centroid: (Ratio, Ratio),
    pub mass: u64,
}

impl Clone for Segment {
    /// An exact copy: the clone has the same mathematical value.
    fn clone(&self) -> (r: Self)
        ensures
            r@ == self@,
    {
        let r = Segment {
            indices: vstd::slice::slice_to_vec(self.indices.as_slice()),
            centroid: self.centroid,
            mass: self.mass,
        };
        proof {
            assert(r@ =~= self@);
        }
        r
    }
}

/// The mathematical value of a segment.
#[verifier::ext_equal]
pub struct SegView {
    pub indices: Seq<(usize, usize)>,
    pub cx_num: int,
    pub cx_den: int,
    pub cy_num: int,
    pub cy_den: int,
    pub mass: int,
}

impl View for Segment {
    type V = SegView;

    open spec fn view(&self) -> SegView {
        SegView {
            indices: self.indices@,
            cx_num: self.centroid.0.num as int,
            cx_den: self.centroid.0.den as int,
            cy_num: self.centroid.1.num as int,
            cy_den: self.centroid.1.den as int,
            mass: self.mass as int,
        }
    }
}

impl Segment {
    /// An empty segment with zero mass and a zero centroid.
    pub fn new() -> (s: Segment)
        ensures
            s@.indices.len() == 0,
            s@.mass == 0,
            s@.cx_num == 0 && s@.cx_den == 1 && s@.cy_num == 0 && s@.cy_den == 1,
    {
        Segment {
            indices: Vec::new(),
            centroid: (Ratio { num: 0, den: 1 }, Ratio { num: 0, den: 1 }),
            mass: 0,
        }
    }
}

/// Whether the real detection level `mean + (tn/td) * stddev` is at least
/// `j`, stated algebraically over the exact sums: with `n` samples, sum
/// `a` and sum of squares `q`, the unbiased variance is
/// `(n*q - a*a) / (n*(n-1))`, and squaring the defining inequality gives
/// the polynomial form below (valid since both sides of the defining
/// inequality are non-negative once `j*n > a`).
pub open spec fn threshold_reached(s: Seq<int>, tn: int, td: int, j: int) -> bool {
    let n = s.len() as int;
    let a = sum_of(s);
    let s2 = n * sumsq_of(s) - a * a;
    j * n <= a || (j * n - a) * (j * n - a) * (td * td) * (n - 1) <= (tn * tn) * s2 * n
}

/// The largest `j <= bound` that the detection level reaches (0 if none).
pub open spec fn largest_reached(s: Seq<int>, tn: int, td: int, bound: nat) -> int
    decreases bound,
{
    if bound == 0 {
        0
    } else if threshold_reached(s, tn, td, bound as int) {
        bound as int
    } else {
        largest_reached(s, tn, td, (bound - 1) as nat)
    }
}

/// The integer detection threshold: the truncation of
/// `mean + (tn/td) * stddev`, i.e. the largest integer the level reaches.
/// The search bound `2^17 * (tn + 1)` provably exceeds the level.
pub open spec fn spec_threshold(s: Seq<int>, tn: int, td: int) -> int {
    largest_reached(s, tn, td, (0x20000 * (tn + 1)) as nat)
}

/// `threshold_reached` is downward closed in `j`.
proof fn lemma_reached_monotone(s: Seq<int>, tn: int, td: int, j1: int, j2: int)
    requires
        s.len() >= 2,
        td >= 1,
        j1 <= j2,
        threshold_reached(s, tn, td, j2),
    ensures
        threshold_reached(s, tn, td, j1),
{
    let n = s.len() as int;
    let a = sum_of(s);
    let s2 = n * sumsq_of(s) - a * a;
    if j1 * n <= a {
    } else {
        assert(j1 * n <= j2 * n) by (nonlinear_arith)
            requires
                j1 <= j2,
                n >= 0,
        ;
        assert(j2 * n > a);
        assert((j1 * n - a) * (j1 * n - a) * (td * td) * (n - 1) <= (j2 * n - a) * (j2 * n - a) * (
        td * td) * (n - 1)) by (nonlinear_arith)
            requires
                0 < j1 * n - a <= j2 * n - a,
                td >= 1,
                n >= 2,
        ;
    }
}

/// Helper for the variance bound: for any `v`,
/// `sumsq(s) + len(s)*v^2 - 2*sum(s)*v` is a sum of squares `(s[i]-v)^2`.
proof fn lemma_centered_sum_nonneg(s: Seq<int>, v: int)
    ensures
        sumsq_of(s) + s.len() * (v * v) - 2 * sum_of(s) * v >= 0,
    decreases s.len(),
{
    if s.len() == 0 {
        assert(sumsq_of(s) + s.len() * (v * v) - 2 * sum_of(s) * v >= 0) by (nonlinear_arith)
            requires
                sumsq_of(s) == 0,
                sum_of(s) == 0,
                s.len() == 0,
        ;
    } else {
        lemma_centered_sum_nonneg(s.drop_last(), v);
        let l = s.last();
        let n1 = s.drop_last().len() as int;
        let q1 = sumsq_of(s.drop_last());
        let a1 = sum_of(s.drop_last());
        assert(sumsq_of(s) + s.len() * (v * v) - 2 * sum_of(s) * v >= 0) by (nonlinear_arith)
            requires
                sumsq_of(s) == q1 + l * l,
                sum_of(s) == a1 + l,
                s.len() == n1 + 1,
                q1 + n1 * (v * v) - 2 * a1 * v >= 0,
        ;
    }
}

/// `n * sumsq - sum^2` is non-negative: the sample variance numerator
/// cannot go below zero.
pub proof fn lemma_variance_nonneg(s: Seq<int>)
    ensures
        s.len() * sumsq_of(s) - sum_of(s) * sum_of(s) >= 0,
    decreases s.len(),
{
    if s.len() == 0 {
    } else {
        let t = s.drop_last();
        lemma_variance_nonneg(t);
        lemma_centered_sum_nonneg(t, s.last());
        let n1 = t.len() as int;
        let q1 = sumsq_of(t);
        let a1 = sum_of(t);
        let l = s.last();
        assert((n1 + 1) * (q1 + l * l) - (a1 + l) * (a1 + l) == (n1 * q1 - a1 * a1) + (q1 + n1 * (l
            * l) - 2 * a1 * l)) by (nonlinear_arith);
    }
}

/// The search bound `2^17 * (tn + 1)` lies strictly above the detection
/// level.
proof fn lemma_bound_not_reached(s: Seq<int>, tn: int, td: int)
    requires
        2 <= s.len(),
        all_below(s, 0x10000),
        1 <= tn,
        1 <= td,
    ensures
        !threshold_reached(s, tn, td, 0x20000 * (tn + 1)),
{
    let n = s.len() as int;
    let a = sum_of(s);
    let q = sumsq_of(s);
    let s2 = n * q - a * a;
    let hi = 0x20000 * (tn + 1);
    lemma_sum_bounds(s, 0x10000);
    lemma_variance_nonneg(s);
    assert(hi * n - a > 0x20000 * tn * n) by (nonlinear_arith)
        requires
            hi == 0x20000 * (tn + 1),
            0 <= a <= n * 0x10000,
            tn >= 1,
            n >= 2,
    ;
    assert(s2 * n <= n * n * n * 0x100000000) by (nonlinear_arith)
        requires
            s2 == n * q - a * a,
            0 <= q <= n * (0x10000 * 0x10000),
            a * a >= 0,
            n >= 2,
    ;
    assert((hi * n - a) * (hi * n - a) * (td * td) * (n - 1) > (tn * tn) * s2 * n)
        by (nonlinear_arith)
        requires
            hi * n - a > 0x20000 * tn * n,
            s2 * n <= n * n * n * 0x100000000,
            s2 >= 0,
            td >= 1,
            tn >= 1,
            n >= 2,
    ;
    assert(hi * n > a) by (nonlinear_arith)
        requires
            hi * n - a > 0x20000 * tn * n,
            tn >= 1,
            n >= 2,
    ;
}

/// Pins `largest_reached` once a witness pair is in hand.
proof fn lemma_largest_reached_pinned(s: Seq<int>, tn: int, td: int, t: int, bound: nat)
    requires
        s.len() >= 2,
        td >= 1,
        0 <= t <= bound,
        threshold_reached(s, tn, td, t),
        !threshold_reached(s, tn as int, td as int, t as int + 1),
    ensures
        largest_reached(s, tn, td, bound) == t,
    decreases bound,
{
    if bound == t {
        if bound == 0 {
        }
    } else {
        if threshold_reached(s, tn, td, bound as int) {
            lemma_reached_monotone(s, tn, td, t + 1, bound as int);
            assert(false);
        }
        lemma_largest_reached_pinned(s, tn, td, t, (bound - 1) as nat);
    }
}

/// Evaluates `threshold_reached` exactly in 128-bit integer arithmetic.
fn reached_exec(
    n: usize,
    a: i64,
    q: i64,
    tn: u32,
    td: u32,
    j: u32,
    Ghost(s): Ghost<Seq<int>>,
) -> (r: bool)
    requires
        2 <= s.len() <= 0x400000,
        n == s.len(),
        a == sum_of(s),
        q == sumsq_of(s),
        all_below(s, 0x10000),
        1 <= tn <= 2048,
        1 <= td <= 2048,
        j < 0x20000000,
    ensures
        r == threshold_reached(s, tn as int, td as int, j as int),
{
    proof {
        lemma_sum_bounds(s, 0x10000);
        lemma_variance_nonneg(s);
        assert((j as int) * (n as int) < 0x8000000000000) by (nonlinear_arith)
            requires
                j < 0x20000000,
                0 <= n <= 0x400000,
        ;
        assert(0 <= (a as int) <= 0x400000 * 0x10000);
        assert((n as int) * (q as int) <= 0x400000 * (0x400000 * (0x10000 * 0x10000)))
            by (nonlinear_arith)
            requires
                0 <= n <= 0x400000,
                0 <= q <= (n as int) * (0x10000 * 0x10000),
        ;
        assert((a as int) * (a as int) <= (0x400000 * 0x10000) * (0x400000 * 0x10000))
            by (nonlinear_arith)
            requires
                0 <= (a as int) <= 0x400000 * 0x10000,
        ;
        assert((n as int) * (q as int) >= (a as int) * (a as int));
    }
    let jn: u64 = (j as u64) * (n as u64);
    if jn <= a as u64 {
        return true;
    }
    let d: u64 = jn - (a as u64);
    let s2: u128 = (n as u128) * (q as u128) - (a as u128) * (a as u128);
    proof {
        assert(s2 == (s.len() as int) * sumsq_of(s) - sum_of(s) * sum_of(s));
        assert(s2 <= (s.len() as int) * ((s.len() as int) * (0x10000 * 0x10000)))
            by (nonlinear_arith)
            requires
                s2 == (s.len() as int) * sumsq_of(s) - sum_of(s) * sum_of(s),
                0 <= sumsq_of(s) <= (s.len() as int) * (0x10000 * 0x10000),
                sum_of(s) * sum_of(s) >= 0,
        ;
        assert((tn as int) * (tn as int) * (s2 as int) < 0x10_0000_0000_0000_0000_0000_0000)
            by (nonlinear_arith)
            requires
                0 <= s2 <= (s.len() as int) * ((s.len() as int) * (0x10000 * 0x10000)),
                1 <= tn <= 2048,
                2 <= s.len() <= 0x400000,
        ;
        assert((tn as int) * (tn as int) * (s2 as int) * (s.len() as int) < 0x1_0000_0000_0000_0000_0000_0000_0000_0000)
            by (nonlinear_arith)
            requires
                0 <= (tn as int) * (tn as int) * (s2 as int) < 0x10_0000_0000_0000_0000_0000_0000,
                2 <= s.len() <= 0x400000,
        ;
    }
    proof {
        assert((tn as int) * (tn as int) <= 0x400000) by (nonlinear_arith)
            requires
                1 <= tn <= 2048,
        ;
    }
    let lhs: u128 = (tn as u128) * (tn as u128) * s2 * (n as u128);
    proof {
        assert((d as int) * (d as int) < 0x40_0000_0000_0000_0000_0000_0000) by (nonlinear_arith)
            requires
                0 <= (d as int) < 0x8000000000000,
        ;
    }
    let dsq: u128 = (d as u128) * (d as u128);
    proof {
        assert((dsq as int) * ((td as int) * (td as int))
            < 0x1_0000_0000_0000_0000_0000_0000_0000_0000) by (nonlinear_arith)
            requires
                0 <= (dsq as int) < 0x40_0000_0000_0000_0000_0000_0000,
                1 <= td <= 2048,
        ;
    }
    proof {
        assert((td as int) * (td as int) <= 0x400000) by (nonlinear_arith)
            requires
                1 <= td <= 2048,
        ;
    }
    let dt: u128 = dsq * ((td as u128) * (td as u128));
    match dt.checked_mul((n - 1) as u128) {
        Some(rhs) => rhs <= lhs,
        None => {
            proof {
                let big = (dsq as int) * ((td as int) * (td as int)) * ((s.len() - 1) as int);
                assert(big > u128::MAX) by (nonlinear_arith)
                    requires
                        (dt as int) * ((s.len() - 1) as int) > u128::MAX,
                        big == (dsq as int) * ((td as int) * (td as int)) * ((s.len() - 1) as int),
                        dt == (dsq as int) * ((td as int) * (td as int)),
                ;
                assert(!threshold_reached(s, tn as int, td as int, j as int)) by (nonlinear_arith)
                    requires
                        big > u128::MAX,
                        (lhs as int) < 0x1_0000_0000_0000_0000_0000_0000_0000_0000,
                        u128::MAX == 0x1_0000_0000_0000_0000_0000_0000_0000_0000 - 1,
                        big == ((j as int) * (s.len() as int) - sum_of(s)) * ((j as int) * (
                        s.len() as int) - sum_of(s)) * ((td as int) * (td as int)) * ((s.len()
                            - 1) as int),
                        lhs == (tn as int) * (tn as int) * ((s.len() as int) * sumsq_of(s)
                            - sum_of(s) * sum_of(s)) * (s.len() as int),
                        (j as int) * (s.len() as int) > sum_of(s),
                ;
            }
            false
        },
    }
}

/// The integer detection threshold for a sample sequence with sum `a` and
/// sum of squares `q`: found by binary search over the characterization
/// `threshold_reached`.
fn compute_threshold(
    n: usize,
    a: i64,
    q: i64,
    tn: u32,
    td: u32,
    Ghost(s): Ghost<Seq<int>>,
) -> (t: u32)
    requires
        2 <= s.len() <= 0x400000,
        n == s.len(),
        a == sum_of(s),
        q == sumsq_of(s),
        all_below(s, 0x10000),
        1 <= tn <= 2048,
        1 <= td <= 2048,
    ensures
        t == spec_threshold(s, tn as int, td as int),
        threshold_reached(s, tn as int, td as int, t as int),
        !threshold_reached(s, tn as int, td as int, t as int + 1),
        t < 0x20000000,
{
    proof {
        lemma_sum_bounds(s, 0x10000);
        lemma_bound_not_reached(s, tn as int, td as int);
        assert(threshold_reached(s, tn as int, td as int, 0)) by {
            assert(0 * (s.len() as int) <= sum_of(s)) by (nonlinear_arith)
                requires
                    sum_of(s) >= 0,
            ;
        }
    }
    let mut lo: u32 = 0;
    let mut hi: u32 = 0x20000 * (tn + 1);
    while lo + 1 < hi
        invariant
            2 <= s.len() <= 0x400000,
            all_below(s, 0x10000),
            n == s.len(),
            a == sum_of(s),
            q == sumsq_of(s),
            1 <= tn <= 2048,
            1 <= td <= 2048,
            lo < hi <= 0x20000 * (tn + 1),
            threshold_reached(s, tn as int, td as int, lo as int),
            !threshold_reached(s, tn as int, td as int, hi as int),
        decreases hi - lo,
    {
        let mid: u32 = lo + (hi - lo) / 2;
        if reached_exec(n, a, q, tn, td, mid, Ghost(s)) {
            lo = mid;
        } else {
            hi = mid;
        }
    }
    proof {
        lemma_largest_reached_pinned(s, tn as int, td as int, lo as int, (0x20000 * (tn as int + 1)) as nat);
    }
    lo
}

/// The (row, column) pair of a linear row-major offset.
pub open spec fn coord(idx: int, cols: int) -> (usize, usize) {
    ((idx / cols) as usize, (idx % cols) as usize)
}

/// The state of the labeling pass: one label (or -1) per pixel, and the
/// member lists of the segments discovered so far, in discovery order.
#[verifier::ext_equal]
pub struct LabelPass {
    pub mask: Seq<int>,
    pub segs: Seq<Seq<(usize, usize)>>,
}

/// One forward-neighbour examination: a still-unlabeled bright neighbour
/// is claimed for the current pixel's segment.
pub open spec fn claim_neighbor(
    st: LabelPass,
    pv: Seq<int>,
    thresh: int,
    cols: int,
    lab: int,
    nb: int,
) -> LabelPass {
    if st.mask[nb] == -1 && pv[nb] > thresh {
        LabelPass {
            mask: st.mask.update(nb, lab),
            segs: st.segs.update(lab, st.segs[lab].push(coord(nb, cols))),
        }
    } else {
        st
    }
}

/// The work done at one raster position: a bright pixel founds a new
/// segment if it is still unlabeled, then hands its label to each of its
/// still-unlabeled bright forward neighbours, in this order: right,
/// below-left, below, below-right.
pub open spec fn label_step(
    st: LabelPass,
    pv: Seq<int>,
    thresh: int,
    rows: int,
    cols: int,
    idx: int,
) -> LabelPass {
    if pv[idx] > thresh {
        let st0 = if st.mask[idx] == -1 {
            LabelPass {
                mask: st.mask.update(idx, st.segs.len() as int),
                segs: st.segs.push(seq![coord(idx, cols)]),
            }
        } else {
            st
        };
        let lab = st0.mask[idx];
        let st1 = if idx % cols + 1 < cols {
            claim_neighbor(st0, pv, thresh, cols, lab, idx + 1)
        } else {
            st0
        };
        let st2 = if idx / cols < rows - 1 && idx % cols > 0 {
            claim_neighbor(st1, pv, thresh, cols, lab, idx + cols - 1)
        } else {
            st1
        };
        let st3 = if idx / cols < rows - 1 {
            claim_neighbor(st2, pv, thresh, cols, lab, idx + cols)
        } else {
            st2
        };
        if idx / cols < rows - 1 && idx % cols + 1 < cols {
            claim_neighbor(st3, pv, thresh, cols, lab, idx + cols + 1)
        } else {
            st3
        }
    } else {
        st
    }
}

/// The labeling state before any pixel is visited.
pub open spec fn label_init(n: nat) -> LabelPass {
    LabelPass { mask: Seq::new(n, |i: int| -1), segs: Seq::empty() }
}

/// The labeling state after the first `upto` raster positions.
pub open spec fn label_run(pv: Seq<int>, thresh: int, rows: int, cols: int, upto: nat) -> LabelPass
    decreases upto,
{
    if upto == 0 {
        label_init(pv.len())
    } else {
        label_step(label_run(pv, thresh, rows, cols, (upto - 1) as nat), pv, thresh, rows, cols, upto - 1)
    }
}

/// A recorded member coordinate is in range and bright.
pub open spec fn member_ok(m: (usize, usize), pv: Seq<int>, thresh: int, rows: int, cols: int) -> bool {
    &&& (m.0 as int) < rows
    &&& (m.1 as int) < cols
    &&& pv[(m.0 as int) * cols + (m.1 as int)] > thresh
}

/// Well-formedness of a labeling state: the mask covers the pixels, every
/// label names a segment, every segment is non-empty, and every recorded
/// member is an in-range bright pixel.
pub open spec fn label_wf(st: LabelPass, pv: Seq<int>, thresh: int, rows: int, cols: int) -> bool {
    &&& st.mask.len() == pv.len()
    &&& forall|i: int|
        0 <= i < st.mask.len() ==> ((#[trigger] st.mask[i]) == -1 || (0 <= st.mask[i]
            < st.segs.len()))
    &&& forall|l: int| 0 <= l < st.segs.len() ==> (#[trigger] st.segs[l]).len() >= 1
    &&& forall|l: int, k: int|
        0 <= l < st.segs.len() && 0 <= k < st.segs[l].len() ==> member_ok(
            #[trigger] st.segs[l][k],
            pv,
            thresh,
            rows,
            cols,
        )
}

/// Splitting a row-major offset into its coordinate pair.
proof fn lemma_coord_ok(nb: int, rows: int, cols: int)
    requires
        0 <= nb < rows * cols,
        1 <= rows <= usize::MAX,
        1 <= cols <= usize::MAX,
    ensures
        0 <= nb / cols < rows,
        0 <= nb % cols < cols,
        (nb / cols) * cols + nb % cols == nb,
        (coord(nb, cols).0 as int) == nb / cols,
        (coord(nb, cols).1 as int) == nb % cols,
{
    vstd::arithmetic::div_mod::lemma_fundamental_div_mod(nb, cols);
    vstd::arithmetic::div_mod::lemma_mod_bound(nb, cols);
    assert((nb / cols) * cols == cols * (nb / cols)) by (nonlinear_arith);
    assert(0 <= nb / cols < rows) by (nonlinear_arith)
        requires
            nb == cols * (nb / cols) + nb % cols,
            0 <= nb % cols < cols,
            0 <= nb < rows * cols,
            1 <= cols,
    ;
}

/// The forward neighbours of an in-range offset are themselves in range,
/// under the guards the pass uses.
proof fn lemma_neighbor_in_range(idx: int, rows: int, cols: int)
    requires
        0 <= idx < rows * cols,
        1 <= rows <= usize::MAX,
        1 <= cols <= usize::MAX,
    ensures
        idx % cols + 1 < cols ==> idx + 1 < rows * cols,
        idx / cols < rows - 1 ==> idx + cols < rows * cols,
        idx / cols < rows - 1 && idx % cols > 0 ==> 0 <= idx + cols - 1 < rows * cols,
        idx / cols < rows - 1 && idx % cols + 1 < cols ==> idx + cols + 1 < rows * cols,
{
    lemma_coord_ok(idx, rows, cols);
    assert(idx % cols + 1 < cols ==> idx + 1 < rows * cols) by (nonlinear_arith)
        requires
            idx == (idx / cols) * cols + idx % cols,
            0 <= idx % cols < cols,
            0 <= idx / cols < rows,
    ;
    assert(idx / cols < rows - 1 ==> idx + cols + 1 < rows * cols || idx % cols + 1 >= cols)
        by (nonlinear_arith)
        requires
            idx == (idx / cols) * cols + idx % cols,
            0 <= idx % cols < cols,
            0 <= idx / cols < rows,
    ;
    assert(idx / cols < rows - 1 ==> idx + cols < rows * cols) by (nonlinear_arith)
        requires
            idx == (idx / cols) * cols + idx % cols,
            0 <= idx % cols < cols,
            0 <= idx / cols < rows,
    ;
}

/// Claiming a neighbour preserves well-formedness and the segment count.
proof fn lemma_claim_wf(
    st: LabelPass,
    pv: Seq<int>,
    thresh: int,
    rows: int,
    cols: int,
    lab: int,
    nb: int,
)
    requires
        label_wf(st, pv, thresh, rows, cols),
        pv.len() == rows * cols,
        1 <= rows <= usize::MAX,
        1 <= cols <= usize::MAX,
        0 <= nb < pv.len(),
        0 <= lab < st.segs.len(),
    ensures
        label_wf(claim_neighbor(st, pv, thresh, cols, lab, nb), pv, thresh, rows, cols),
        claim_neighbor(st, pv, thresh, cols, lab, nb).segs.len() == st.segs.len(),
        claim_neighbor(st, pv, thresh, cols, lab, nb).mask.len() == st.mask.len(),
{
    if st.mask[nb] == -1 && pv[nb] > thresh {
        lemma_coord_ok(nb, rows, cols);
        let c = coord(nb, cols);
        assert(member_ok(c, pv, thresh, rows, cols));
        let st2 = claim_neighbor(st, pv, thresh, cols, lab, nb);
        assert forall|l: int, k: int|
            0 <= l < st2.segs.len() && 0 <= k < st2.segs[l].len() implies member_ok(
            #[trigger] st2.segs[l][k],
            pv,
            thresh,
            rows,
            cols,
        ) by {
            if l == lab && k == st2.segs[l].len() - 1 {
            } else {
                assert(st2.segs[l][k] == st.segs[l][k]);
            }
        }
    }
}

/// One raster step preserves well-formedness and adds at most one segment.
proof fn lemma_step_wf(st: LabelPass, pv: Seq<int>, thresh: int, rows: int, cols: int, idx: int)
    requires
        label_wf(st, pv, thresh, rows, cols),
        pv.len() == rows * cols,
        1 <= rows <= usize::MAX,
        1 <= cols <= usize::MAX,
        0 <= idx < pv.len(),
    ensures
        label_wf(label_step(st, pv, thresh, rows, cols, idx), pv, thresh, rows, cols),
        st.segs.len() <= label_step(st, pv, thresh, rows, cols, idx).segs.len() <= st.segs.len()
            + 1,
{
    if pv[idx] > thresh {
        lemma_coord_ok(idx, rows, cols);
        lemma_neighbor_in_range(idx, rows, cols);
        let st0 = if st.mask[idx] == -1 {
            LabelPass {
                mask: st.mask.update(idx, st.segs.len() as int),
                segs: st.segs.push(seq![coord(idx, cols)]),
            }
        } else {
            st
        };
        assert(label_wf(st0, pv, thresh, rows, cols)) by {
            if st.mask[idx] == -1 {
                assert(member_ok(coord(idx, cols), pv, thresh, rows, cols));
                assert forall|l: int, k: int|
                    0 <= l < st0.segs.len() && 0 <= k < st0.segs[l].len() implies member_ok(
                    #[trigger] st0.segs[l][k],
                    pv,
                    thresh,
                    rows,
                    cols,
                ) by {
                    if l < st.segs.len() {
                        assert(st0.segs[l][k] == st.segs[l][k]);
                    }
                }
            }
        }
        let lab = st0.mask[idx];
        assert(0 <= lab < st0.segs.len());
        let st1 = if idx % cols + 1 < cols {
            claim_neighbor(st0, pv, thresh, cols, lab, idx + 1)
        } else {
            st0
        };
        if idx % cols + 1 < cols {
            lemma_claim_wf(st0, pv, thresh, rows, cols, lab, idx + 1);
        }
        let st2 = if idx / cols < rows - 1 && idx % cols > 0 {
            claim_neighbor(st1, pv, thresh, cols, lab, idx + cols - 1)
        } else {
            st1
        };
        if idx / cols < rows - 1 && idx % cols > 0 {
            lemma_claim_wf(st1, pv, thresh, rows, cols, lab, idx + cols - 1);
        }
        let st3 = if idx / cols < rows - 1 {
            claim_neighbor(st2, pv, thresh, cols, lab, idx + cols)
        } else {
            st2
        };
        if idx / cols < rows - 1 {
            lemma_claim_wf(st2, pv, thresh, rows, cols, lab, idx + cols);
        }
        if idx / cols < rows - 1 && idx % cols + 1 < cols {
            lemma_claim_wf(st3, pv, thresh, rows, cols, lab, idx + cols + 1);
        }
    }
}

/// The labeling state is well-formed after any number of steps, with at
/// most one segment per visited pixel.
proof fn lemma_run_wf(pv: Seq<int>, thresh: int, rows: int, cols: int, upto: nat)
    requires
        pv.len() == rows * cols,
        1 <= rows <= usize::MAX,
        1 <= cols <= usize::MAX,
        upto <= pv.len(),
    ensures
        label_wf(label_run(pv, thresh, rows, cols, upto), pv, thresh, rows, cols),
        label_run(pv, thresh, rows, cols, upto).segs.len() <= upto,
    decreases upto,
{
    if upto == 0 {
    } else {
        lemma_run_wf(pv, thresh, rows, cols, (upto - 1) as nat);
        lemma_step_wf(
            label_run(pv, thresh, rows, cols, (upto - 1) as nat),
            pv,
            thresh,
            rows,
            cols,
            upto - 1,
        );
    }
}

/// The label-per-pixel mask as mathematical integers.
pub open spec fn mask_view(s: Seq<i32>) -> Seq<int> {
    s.map_values(|m: i32| m as int)
}

/// The member lists as mathematical sequences.
pub open spec fn lists_view(s: Seq<Vec<(usize, usize)>>) -> Seq<Seq<(usize, usize)>> {
    s.map_values(|v: Vec<(usize, usize)>| v@)
}

/// Performs one neighbour examination of the labeling pass, mirroring
/// `claim_neighbor` exactly.
fn claim_exec<T: SampleValue>(
    mask: &mut Vec<i32>,
    lists: &mut Vec<Vec<(usize, usize)>>,
    pix: &[T],
    nb: usize,
    lab: usize,
    cols: usize,
    thresh: u32,
    Ghost(st): Ghost<LabelPass>,
    Ghost(pv): Ghost<Seq<int>>,
)
    requires
        pv == int_view(pix@),
        mask_view(old(mask)@) == st.mask,
        lists_view(old(lists)@) == st.segs,
        st.mask.len() == pix@.len(),
        nb < pix@.len(),
        lab < old(lists)@.len(),
        old(lists)@.len() <= 0x400000,
        1 <= cols,
    ensures
        mask_view(final(mask)@) == claim_neighbor(
            st,
            pv,
            thresh as int,
            cols as int,
            lab as int,
            nb as int,
        ).mask,
        lists_view(final(lists)@) == claim_neighbor(
            st,
            pv,
            thresh as int,
            cols as int,
            lab as int,
            nb as int,
        ).segs,
        final(mask)@.len() == old(mask)@.len(),
        final(lists)@.len() == old(lists)@.len(),
{
    let ghost next = claim_neighbor(st, pv, thresh as int, cols as int, lab as int, nb as int);
    proof {
        assert(st.mask[nb as int] == mask@[nb as int] as int);
        assert(pv[nb as int] == pix@[nb as int].as_int());
        pix@[nb as int].as_int_bounds();
    }
    if mask[nb] == -1 && pix[nb].to_u32() > thresh {
        mask[nb] = lab as i32;
        lists[lab].push((nb / cols, nb % cols));
        proof {
            assert(mask_view(mask@) =~= next.mask);
            assert(lists_view(lists@) =~= next.segs);
        }
    }
}

/// The forward raster labeling pass: groups the bright pixels (those whose
/// value strictly exceeds the threshold) into segments, in discovery
/// order, exactly as `label_run` describes.
fn label_pixels<T: SampleValue>(pix: &[T], rows: usize, cols: usize, thresh: u32) -> (lists: Vec<
    Vec<(usize, usize)>,
>)
    requires
        1 <= rows,
        1 <= cols,
        pix@.len() == rows * cols,
        pix@.len() <= 0x400000,
    ensures
        lists_view(lists@) == label_run(
            int_view(pix@),
            thresh as int,
            rows as int,
            cols as int,
            pix@.len() as nat,
        ).segs,
{
    let ghost pv = int_view(pix@);
    let n = pix.len();
    let mut mask: Vec<i32> = Vec::new();
    let mut i: usize = 0;
    while i < n
        invariant
            i <= n,
            mask@.len() == i,
            forall|k: int| 0 <= k < i ==> mask@[k] == -1i32,
        decreases n - i,
    {
        mask.push(-1);
        i = i + 1;
    }
    let mut lists: Vec<Vec<(usize, usize)>> = Vec::new();
    proof {
        assert(mask_view(mask@) =~= label_init(pv.len()).mask);
        assert(lists_view(lists@) =~= label_init(pv.len()).segs);
    }
    let mut idx: usize = 0;
    while idx < n
        invariant
            idx <= n,
            n == pix@.len(),
            pv == int_view(pix@),
            pv.len() == rows * cols,
            1 <= rows,
            1 <= cols,
            n <= 0x400000,
            mask@.len() == n,
            mask_view(mask@) == label_run(pv, thresh as int, rows as int, cols as int, idx as nat).mask,
            lists_view(lists@) == label_run(pv, thresh as int, rows as int, cols as int, idx as nat).segs,
        decreases n - idx,
    {
        let ghost st = label_run(pv, thresh as int, rows as int, cols as int, idx as nat);
        proof {
            lemma_run_wf(pv, thresh as int, rows as int, cols as int, idx as nat);
            lemma_coord_ok(idx as int, rows as int, cols as int);
            lemma_neighbor_in_range(idx as int, rows as int, cols as int);
            assert(pv[idx as int] == pix@[idx as int].as_int());
            pix@[idx as int].as_int_bounds();
        }
        let v = pix[idx].to_u32();
        if v > thresh {
            if mask[idx] == -1 {
                mask[idx] = lists.len() as i32;
                let mut first: Vec<(usize, usize)> = Vec::new();
                first.push((idx / cols, idx % cols));
                lists.push(first);
            }
            let ghost st0 = if st.mask[idx as int] == -1 {
                LabelPass {
                    mask: st.mask.update(idx as int, st.segs.len() as int),
                    segs: st.segs.push(seq![coord(idx as int, cols as int)]),
                }
            } else {
                st
            };
            proof {
                assert(mask_view(mask@) =~= st0.mask);
                assert(lists_view(lists@) =~= st0.segs);
            }
            let lab: usize = mask[idx] as usize;
            proof {
                assert(st0.mask[idx as int] == lab as int);
                assert(lab < lists@.len());
            }
            let ghost st1 = if idx % cols + 1 < cols {
                claim_neighbor(st0, pv, thresh as int, cols as int, lab as int, idx + 1)
            } else {
                st0
            };
            if idx % cols + 1 < cols {
                claim_exec(&mut mask, &mut lists, pix, idx + 1, lab, cols, thresh, Ghost(st0), Ghost(pv));
            }
            let ghost st2 = if idx as int / (cols as int) < rows as int - 1 && idx % cols > 0 {
                claim_neighbor(st1, pv, thresh as int, cols as int, lab as int, idx + cols - 1)
            } else {
                st1
            };
            if idx / cols < rows - 1 && idx % cols > 0 {
                claim_exec(&mut mask, &mut lists, pix, idx + cols - 1, lab, cols, thresh, Ghost(st1), Ghost(pv));
            }
            let ghost st3 = if idx as int / (cols as int) < rows as int - 1 {
                claim_neighbor(st2, pv, thresh as int, cols as int, lab as int, idx + cols)
            } else {
                st2
            };
            if idx / cols < rows - 1 {
                claim_exec(&mut mask, &mut lists, pix, idx + cols, lab, cols, thresh, Ghost(st2), Ghost(pv));
            }
            let ghost st4 = if idx as int / (cols as int) < rows as int - 1 && idx % cols + 1
                < cols {
                claim_neighbor(st3, pv, thresh as int, cols as int, lab as int, idx + cols + 1)
            } else {
                st3
            };
            if idx / cols < rows - 1 && idx % cols + 1 < cols {
                claim_exec(&mut mask, &mut lists, pix, idx + cols + 1, lab, cols, thresh, Ghost(st3), Ghost(pv));
            }
            proof {
                assert(st4 == label_step(st, pv, thresh as int, rows as int, cols as int, idx as int));
                assert(mask_view(mask@) == st4.mask);
                assert(lists_view(lists@) == st4.segs);
            }
        } else {
            proof {
                assert(label_step(st, pv, thresh as int, rows as int, cols as int, idx as int)
                    == st);
            }
        }
        idx = idx + 1;
    }
    lists
}

/// The mass of a member list: the sum of its members' pixel values.
pub open spec fn seg_mass(pv: Seq<int>, cols: int, s: Seq<(usize, usize)>) -> int
    decreases s.len(),
{
    if s.len() == 0 {
        0
    } else {
        seg_mass(pv, cols, s.drop_last()) + pv[(s.last().0 as int) * cols + (s.last().1 as int)]
    }
}

/// The column moment of a member list: the sum of value times column.
pub open spec fn seg_sumcol(pv: Seq<int>, cols: int, s: Seq<(usize, usize)>) -> int
    decreases s.len(),
{
    if s.len() == 0 {
        0
    } else {
        seg_sumcol(pv, cols, s.drop_last()) + pv[(s.last().0 as int) * cols + (s.last().1 as int)]
            * (s.last().1 as int)
    }
}

/// The sum of the member rows.
pub open spec fn seg_sumrow(s: Seq<(usize, usize)>) -> int
    decreases s.len(),
{
    if s.len() == 0 {
        0
    } else {
        seg_sumrow(s.drop_last()) + (s.last().0 as int)
    }
}

/// The finished record of one surviving segment: its members, its exact
/// centroid and its mass. The x centroid is the mass-weighted mean column
/// `sumcol / mass`; the y centroid is the unweighted mean member row
/// `sumrow / count` — the customary weighted y term cancels to zero by
/// construction under this accumulation scheme, and that degenerate
/// behaviour is kept deliberately for output compatibility with existing
/// consumers of the detection results.
pub open spec fn seg_record(pv: Seq<int>, cols: int, s: Seq<(usize, usize)>) -> SegView {
    SegView {
        indices: s,
        cx_num: seg_sumcol(pv, cols, s),
        cx_den: seg_mass(pv, cols, s),
        cy_num: seg_sumrow(s),
        cy_den: s.len() as int,
        mass: seg_mass(pv, cols, s),
    }
}

/// The member lists of at least `minsize` members, in order.
pub open spec fn keep_large(segs: Seq<Seq<(usize, usize)>>, minsize: int) -> Seq<
    Seq<(usize, usize)>,
> {
    segs.filter(|s: Seq<(usize, usize)>| s.len() >= minsize)
}

/// The records of a sequence of member lists.
pub open spec fn records_of(pv: Seq<int>, cols: int, segs: Seq<Seq<(usize, usize)>>) -> Seq<
    SegView,
> {
    segs.map_values(|s: Seq<(usize, usize)>| seg_record(pv, cols, s))
}

/// The mathematical values of a sequence of segments.
pub open spec fn seg_views(s: Seq<Segment>) -> Seq<SegView> {
    s.map_values(|x: Segment| x@)
}

/// Non-decreasing mass order.
pub open spec fn sorted_by_mass(s: Seq<SegView>) -> bool {
    forall|i: int, j: int| 0 <= i < j < s.len() ==> s[i].mass <= s[j].mass
}

/// Stable insertion into a mass-sorted sequence: the new record goes after
/// every record of equal or smaller mass.
pub open spec fn insert_by_mass(s: Seq<SegView>, x: SegView) -> Seq<SegView>
    decreases s.len(),
{
    if s.len() == 0 {
        seq![x]
    } else if s.last().mass > x.mass {
        insert_by_mass(s.drop_last(), x).push(s.last())
    } else {
        s.push(x)
    }
}

/// Stable sort by ascending mass: the records are inserted left to right,
/// so records of equal mass keep their relative order.
pub open spec fn sort_by_mass(s: Seq<SegView>) -> Seq<SegView>
    decreases s.len(),
{
    if s.len() == 0 {
        Seq::empty()
    } else {
        insert_by_mass(sort_by_mass(s.drop_last()), s.last())
    }
}

/// `insert_by_mass` at a known insertion position is a sequence insert.
proof fn lemma_insert_position(s: Seq<SegView>, x: SegView, j: int)
    requires
        sorted_by_mass(s),
        0 <= j <= s.len(),
        forall|k: int| j <= k < s.len() ==> (#[trigger] s[k]).mass > x.mass,
        j > 0 ==> s[j - 1].mass <= x.mass,
    ensures
        insert_by_mass(s, x) == s.insert(j, x),
        sorted_by_mass(insert_by_mass(s, x)),
    decreases s.len(),
{
    if s.len() == 0 {
        assert(insert_by_mass(s, x) =~= s.insert(j, x));
    } else if s.last().mass > x.mass {
        assert(j < s.len());
        let t = s.drop_last();
        assert(sorted_by_mass(t));
        lemma_insert_position(t, x, j);
        assert(insert_by_mass(s, x) =~= s.insert(j, x)) by {
            assert(insert_by_mass(s, x) == insert_by_mass(t, x).push(s.last()));
            assert(insert_by_mass(t, x) == t.insert(j, x));
        }
        assert forall|p: int, q: int|
            0 <= p < q < insert_by_mass(s, x).len() implies insert_by_mass(s, x)[p].mass
            <= insert_by_mass(s, x)[q].mass by {
            let r = insert_by_mass(s, x);
            assert(r == s.insert(j, x));
            if q < r.len() - 1 {
                assert(sorted_by_mass(insert_by_mass(t, x)));
                assert(r[p] == insert_by_mass(t, x)[p] && r[q] == insert_by_mass(t, x)[q]);
            } else {
                if p < j {
                    assert(r[p] == s[p]);
                } else if p == j {
                    assert(r[p] == x);
                } else {
                    assert(r[p] == s[p - 1]);
                }
                assert(r[q] == s.last());
            }
        }
    } else {
        assert(j == s.len()) by {
            if j < s.len() {
                assert(s[s.len() - 1].mass > x.mass);
            }
        }
        assert(insert_by_mass(s, x) =~= s.insert(j, x));
        assert forall|p: int, q: int|
            0 <= p < q < insert_by_mass(s, x).len() implies insert_by_mass(s, x)[p].mass
            <= insert_by_mass(s, x)[q].mass by {
            let r = insert_by_mass(s, x);
            if q == r.len() - 1 {
                assert(r[q] == x);
                assert(r[p] == s[p]);
                if p < s.len() - 1 {
                    assert(s[p].mass <= s[s.len() - 1].mass);
                }
            }
        }
    }
}

/// Sorts the segments by ascending mass, stably, exactly as
/// `sort_by_mass` describes.
fn sort_segments(src: &Vec<Segment>) -> (out: Vec<Segment>)
    ensures
        seg_views(out@) == sort_by_mass(seg_views(src@)),
        sorted_by_mass(seg_views(out@)),
{
    let mut out: Vec<Segment> = Vec::new();
    proof {
        assert(seg_views(out@) =~= sort_by_mass(seg_views(src@.subrange(0, 0))));
    }
    let n = src.len();
    let mut i: usize = 0;
    while i < n
        invariant
            i <= n,
            n == src@.len(),
            out@.len() == i,
            seg_views(out@) == sort_by_mass(seg_views(src@.subrange(0, i as int))),
            sorted_by_mass(seg_views(out@)),
        decreases n - i,
    {
        let x = src[i].clone();
        let mut j: usize = out.len();
        while j > 0 && out[j - 1].mass > x.mass
            invariant
                j <= out@.len(),
                x@ == src@[i as int]@,
                forall|k: int| j <= k < out@.len() ==> seg_views(out@)[k].mass > x@.mass,
            decreases j,
        {
            j = j - 1;
        }
        let ghost prev = out@;
        out.insert(j, x);
        proof {
            lemma_insert_position(seg_views(prev), x@, j as int);
            assert(seg_views(out@) =~= seg_views(prev).insert(j as int, x@));
            assert(src@.subrange(0, i + 1).drop_last() =~= src@.subrange(0, i as int));
            assert(seg_views(src@.subrange(0, i + 1)).drop_last() =~= seg_views(
                src@.subrange(0, i as int),
            ));
            assert(seg_views(src@.subrange(0, i + 1)).last() == x@);
        }
        i = i + 1;
    }
    proof {
        assert(src@.subrange(0, n as int) =~= src@);
    }
    out
}

/// The total member count over all segments.
pub open spec fn total_members(segs: Seq<Seq<(usize, usize)>>) -> int
    decreases segs.len(),
{
    if segs.len() == 0 {
        0
    } else {
        total_members(segs.drop_last()) + segs.last().len()
    }
}

/// Appending one member to one segment raises the total by one.
proof fn lemma_members_update(segs: Seq<Seq<(usize, usize)>>, l: int, x: (usize, usize))
    requires
        0 <= l < segs.len(),
    ensures
        total_members(segs.update(l, segs[l].push(x))) == total_members(segs) + 1,
    decreases segs.len(),
{
    let up = segs.update(l, segs[l].push(x));
    if l == segs.len() - 1 {
        assert(up.drop_last() =~= segs.drop_last());
        assert(up.last() == segs.last().push(x));
    } else {
        assert(up.drop_last() =~= segs.drop_last().update(l, segs.drop_last()[l].push(x)));
        lemma_members_update(segs.drop_last(), l, x);
        assert(up.last() == segs.last());
    }
}

/// No single segment holds more members than the total.
proof fn lemma_part_le_total(segs: Seq<Seq<(usize, usize)>>, l: int)
    requires
        0 <= l < segs.len(),
    ensures
        segs[l].len() <= total_members(segs),
    decreases segs.len(),
{
    if l == segs.len() - 1 {
        lemma_members_nonneg(segs.drop_last());
    } else {
        lemma_part_le_total(segs.drop_last(), l);
    }
}

/// The total member count is never negative.
proof fn lemma_members_nonneg(segs: Seq<Seq<(usize, usize)>>)
    ensures
        total_members(segs) >= 0,
    decreases segs.len(),
{
    if segs.len() > 0 {
        lemma_members_nonneg(segs.drop_last());
    }
}

/// A neighbour claim adds at most one member in total.
proof fn lemma_claim_members(
    st: LabelPass,
    pv: Seq<int>,
    thresh: int,
    cols: int,
    lab: int,
    nb: int,
)
    requires
        0 <= lab < st.segs.len(),
    ensures
        total_members(claim_neighbor(st, pv, thresh, cols, lab, nb).segs) <= total_members(
            st.segs,
        ) + 1,
{
    if st.mask[nb] == -1 && pv[nb] > thresh {
        lemma_members_update(st.segs, lab, coord(nb, cols));
    }
}

/// One raster step adds at most five members in total.
proof fn lemma_step_members(st: LabelPass, pv: Seq<int>, thresh: int, rows: int, cols: int, idx: int)
    requires
        label_wf(st, pv, thresh, rows, cols),
        pv.len() == rows * cols,
        1 <= rows <= usize::MAX,
        1 <= cols <= usize::MAX,
        0 <= idx < pv.len(),
    ensures
        total_members(label_step(st, pv, thresh, rows, cols, idx).segs) <= total_members(st.segs)
            + 5,
{
    if pv[idx] > thresh {
        lemma_neighbor_in_range(idx, rows, cols);
        let st0 = if st.mask[idx] == -1 {
            LabelPass {
                mask: st.mask.update(idx, st.segs.len() as int),
                segs: st.segs.push(seq![coord(idx, cols)]),
            }
        } else {
            st
        };
        assert(label_wf(st0, pv, thresh, rows, cols) && total_members(st0.segs) <= total_members(
            st.segs,
        ) + 1) by {
            lemma_step_wf(st, pv, thresh, rows, cols, idx);
            if st.mask[idx] == -1 {
                assert(st0.segs.drop_last() =~= st.segs);
                assert(label_wf(st0, pv, thresh, rows, cols)) by {
                    lemma_coord_ok(idx, rows, cols);
                    assert forall|l: int, k: int|
                        0 <= l < st0.segs.len() && 0 <= k < st0.segs[l].len() implies member_ok(
                        #[trigger] st0.segs[l][k],
                        pv,
                        thresh,
                        rows,
                        cols,
                    ) by {
                        if l < st.segs.len() {
                            assert(st0.segs[l][k] == st.segs[l][k]);
                        }
                    }
                }
            }
        }
        let lab = st0.mask[idx];
        let st1 = if idx % cols + 1 < cols {
            claim_neighbor(st0, pv, thresh, cols, lab, idx + 1)
        } else {
            st0
        };
        if idx % cols + 1 < cols {
            lemma_claim_wf(st0, pv, thresh, rows, cols, lab, idx + 1);
            lemma_claim_members(st0, pv, thresh, cols, lab, idx + 1);
        }
        let st2 = if idx / cols < rows - 1 && idx % cols > 0 {
            claim_neighbor(st1, pv, thresh, cols, lab, idx + cols - 1)
        } else {
            st1
        };
        if idx / cols < rows - 1 && idx % cols > 0 {
            lemma_claim_wf(st1, pv, thresh, rows, cols, lab, idx + cols - 1);
            lemma_claim_members(st1, pv, thresh, cols, lab, idx + cols - 1);
        }
        let st3 = if idx / cols < rows - 1 {
            claim_neighbor(st2, pv, thresh, cols, lab, idx + cols)
        } else {
            st2
        };
        if idx / cols < rows - 1 {
            lemma_claim_wf(st2, pv, thresh, rows, cols, lab, idx + cols);
            lemma_claim_members(st2, pv, thresh, cols, lab, idx + cols);
        }
        if idx / cols < rows - 1 && idx % cols + 1 < cols {
            lemma_claim_wf(st3, pv, thresh, rows, cols, lab, idx + cols + 1);
            lemma_claim_members(st3, pv, thresh, cols, lab, idx + cols + 1);
        }
    }
}

/// After `upto` raster steps at most `5 * upto` members are recorded.
proof fn lemma_run_members(pv: Seq<int>, thresh: int, rows: int, cols: int, upto: nat)
    requires
        pv.len() == rows * cols,
        1 <= rows <= usize::MAX,
        1 <= cols <= usize::MAX,
        upto <= pv.len(),
    ensures
        total_members(label_run(pv, thresh, rows, cols, upto).segs) <= 5 * upto,
    decreases upto,
{
    if upto == 0 {
    } else {
        lemma_run_members(pv, thresh, rows, cols, (upto - 1) as nat);
        lemma_run_wf(pv, thresh, rows, cols, (upto - 1) as nat);
        lemma_step_members(
            label_run(pv, thresh, rows, cols, (upto - 1) as nat),
            pv,
            thresh,
            rows,
            cols,
            upto - 1,
        );
    }
}

/// Bounds on the per-segment sums, for member lists of in-range bright
/// pixels.
proof fn lemma_seg_sums_bounds(
    pv: Seq<int>,
    thresh: int,
    rows: int,
    cols: int,
    s: Seq<(usize, usize)>,
)
    requires
        forall|k: int|
            0 <= k < s.len() ==> member_ok(#[trigger] s[k], pv, thresh, rows, cols),
        all_below(pv, 0x10000),
        pv.len() == rows * cols,
        thresh >= 0,
        1 <= rows,
        1 <= cols,
    ensures
        s.len() <= seg_mass(pv, cols, s) <= s.len() * 0x10000,
        0 <= seg_sumcol(pv, cols, s) <= s.len() * (0x10000 * cols),
        0 <= seg_sumrow(s) <= s.len() * rows,
    decreases s.len(),
{
    if s.len() == 0 {
    } else {
        let t = s.drop_last();
        assert(forall|k: int|
            0 <= k < t.len() ==> member_ok(#[trigger] t[k], pv, thresh, rows, cols)) by {
            assert(forall|k: int| 0 <= k < t.len() ==> t[k] == s[k]);
        }
        lemma_seg_sums_bounds(pv, thresh, rows, cols, t);
        let m = s.last();
        let r = m.0 as int;
        let c = m.1 as int;
        assert(member_ok(m, pv, thresh, rows, cols));
        crate::cameraframe::lemma_lin_index_in_bounds(
            crate::cameraframe::PixelOrder::RowMajor,
            rows,
            cols,
            r,
            c,
        );
        let v = pv[r * cols + c];
        assert(1 <= v < 0x10000);
        assert(seg_mass(pv, cols, s) == seg_mass(pv, cols, t) + v);
        assert(seg_mass(pv, cols, s) <= s.len() * 0x10000) by (nonlinear_arith)
            requires
                seg_mass(pv, cols, s) == seg_mass(pv, cols, t) + v,
                seg_mass(pv, cols, t) <= t.len() * 0x10000,
                v < 0x10000,
                s.len() == t.len() + 1,
        ;
        assert(0 <= v * c <= 0x10000 * cols) by (nonlinear_arith)
            requires
                0 <= v < 0x10000,
                0 <= c < cols,
        ;
        assert(seg_sumcol(pv, cols, s) <= s.len() * (0x10000 * cols)) by (nonlinear_arith)
            requires
                seg_sumcol(pv, cols, s) == seg_sumcol(pv, cols, t) + v * c,
                seg_sumcol(pv, cols, t) <= t.len() * (0x10000 * cols),
                v * c <= 0x10000 * cols,
                s.len() == t.len() + 1,
        ;
        assert(seg_sumrow(s) <= s.len() * rows) by (nonlinear_arith)
            requires
                seg_sumrow(s) == seg_sumrow(t) + r,
                seg_sumrow(t) <= t.len() * rows,
                r < rows,
                s.len() == t.len() + 1,
        ;
    }
}

/// Computes the mass, column moment and row sum of one member list.
fn measure_segment<T: SampleValue>(
    pix: &[T],
    rows: usize,
    cols: usize,
    thresh: u32,
    members: &Vec<(usize, usize)>,
    Ghost(pv): Ghost<Seq<int>>,
) -> (r: (u64, u64, u64))
    requires
        pv == int_view(pix@),
        all_below(pv, 0x10000),
        pix@.len() == rows * cols,
        pix@.len() <= 0x400000,
        1 <= rows,
        1 <= cols,
        members@.len() <= 0x2000000,
        forall|k: int|
            0 <= k < members@.len() ==> member_ok(
                #[trigger] members@[k],
                pv,
                thresh as int,
                rows as int,
                cols as int,
            ),
    ensures
        r.0 == seg_mass(pv, cols as int, members@),
        r.1 == seg_sumcol(pv, cols as int, members@),
        r.2 == seg_sumrow(members@),
{
    proof {
        assert(cols <= pix@.len()) by (nonlinear_arith)
            requires
                pix@.len() == rows * cols,
                1 <= rows,
                0 <= cols,
        ;
        assert(rows <= pix@.len()) by (nonlinear_arith)
            requires
                pix@.len() == rows * cols,
                1 <= cols,
                0 <= rows,
        ;
    }
    let count = members.len();
    let mut mass: u64 = 0;
    let mut sumcol: u64 = 0;
    let mut sumrow: u64 = 0;
    let mut k: usize = 0;
    while k < count
        invariant
            k <= count,
            count == members@.len() <= 0x2000000,
            pv == int_view(pix@),
            all_below(pv, 0x10000),
            pix@.len() == rows * cols,
            pix@.len() <= 0x400000,
            1 <= rows,
            1 <= cols,
            cols <= 0x400000,
            rows <= 0x400000,
            forall|j: int|
                0 <= j < members@.len() ==> member_ok(
                    #[trigger] members@[j],
                    pv,
                    thresh as int,
                    rows as int,
                    cols as int,
                ),
            mass == seg_mass(pv, cols as int, members@.subrange(0, k as int)),
            sumcol == seg_sumcol(pv, cols as int, members@.subrange(0, k as int)),
            sumrow == seg_sumrow(members@.subrange(0, k as int)),
            mass <= k * 0x10000,
            sumcol <= k * 0x4000000000,
            sumrow <= k * 0x400000,
        decreases count - k,
    {
        let (row, col) = members[k];
        proof {
            assert(member_ok(members@[k as int], pv, thresh as int, rows as int, cols as int));
            crate::cameraframe::lemma_lin_index_in_bounds(
                crate::cameraframe::PixelOrder::RowMajor,
                rows as int,
                cols as int,
                row as int,
                col as int,
            );
            pix@[row as int * (cols as int) + col as int].as_int_bounds();
            let pre = members@.subrange(0, k as int);
            let post = members@.subrange(0, k + 1);
            assert(post.drop_last() =~= pre);
            assert(post.last() == members@[k as int]);
            assert((k as int) * 0x10000 + 0x10000 == (k + 1) * 0x10000) by (nonlinear_arith);
            assert((k as int) * 0x4000000000 + 0x4000000000 == (k + 1) * 0x4000000000)
                by (nonlinear_arith);
            assert((k as int) * 0x400000 + 0x400000 == (k + 1) * 0x400000) by (nonlinear_arith);
        }
        let lin: usize = row * cols + col;
        let v: u64 = pix[lin].to_u32() as u64;
        proof {
            assert((v as int) * (col as int) <= 0x10000 * 0x400000) by (nonlinear_arith)
                requires
                    0 <= (v as int) < 0x10000,
                    0 <= (col as int) < 0x400000,
            ;
        }
        mass = mass + v;
        sumcol = sumcol + v * (col as u64);
        sumrow = sumrow + row as u64;
        k = k + 1;
    }
    proof {
        assert(members@.subrange(0, count as int) =~= members@);
    }
    (mass, sumcol, sumrow)
}

/// The complete detection pipeline over the numeric values of the samples:
/// threshold, forward labeling over the whole frame, size filtering,
/// exact measurement, stable sort by ascending mass.
pub open spec fn spec_find_stars(
    pv: Seq<int>,
    rows: int,
    cols: int,
    tn: int,
    td: int,
    minsize: int,
) -> Seq<SegView> {
    let thresh = spec_threshold(pv, tn, td);
    let segs = label_run(pv, thresh, rows, cols, pv.len() as nat).segs;
    sort_by_mass(records_of(pv, cols, keep_large(segs, minsize)))
}

/// Every record of a stable insertion has positive mass and members, if
/// the inserted record and the existing ones do.
proof fn lemma_insert_mass_pos(s: Seq<SegView>, x: SegView)
    requires
        forall|i: int| 0 <= i < s.len() ==> (#[trigger] s[i]).mass > 0 && s[i].indices.len() > 0,
        x.mass > 0,
        x.indices.len() > 0,
    ensures
        forall|i: int|
            0 <= i < insert_by_mass(s, x).len() ==> (#[trigger] insert_by_mass(s, x)[i]).mass > 0
                && insert_by_mass(s, x)[i].indices.len() > 0,
    decreases s.len(),
{
    let r = insert_by_mass(s, x);
    if s.len() == 0 {
        assert forall|i: int| 0 <= i < r.len() implies (#[trigger] r[i]).mass > 0
            && r[i].indices.len() > 0 by {
            assert(r[i] == x);
        }
    } else if s.last().mass > x.mass {
        assert(forall|i: int|
            0 <= i < s.drop_last().len() ==> (#[trigger] s.drop_last()[i]) == s[i]);
        lemma_insert_mass_pos(s.drop_last(), x);
        assert forall|i: int| 0 <= i < r.len() implies (#[trigger] r[i]).mass > 0
            && r[i].indices.len() > 0 by {
            if i < r.len() - 1 {
                assert(r[i] == insert_by_mass(s.drop_last(), x)[i]);
            } else {
                assert(r[i] == s[s.len() - 1]);
            }
        }
    } else {
        assert forall|i: int| 0 <= i < r.len() implies (#[trigger] r[i]).mass > 0
            && r[i].indices.len() > 0 by {
            if i < s.len() {
                assert(r[i] == s[i]);
            } else {
                assert(r[i] == x);
            }
        }
    }
}

/// Every record of the sorted sequence has positive mass and members, if
/// every input record does.
proof fn lemma_sort_mass_pos(s: Seq<SegView>)
    requires
        forall|i: int| 0 <= i < s.len() ==> (#[trigger] s[i]).mass > 0 && s[i].indices.len() > 0,
    ensures
        forall|i: int|
            0 <= i < sort_by_mass(s).len() ==> (#[trigger] sort_by_mass(s)[i]).mass > 0
                && sort_by_mass(s)[i].indices.len() > 0,
    decreases s.len(),
{
    if s.len() > 0 {
        assert(forall|i: int|
            0 <= i < s.drop_last().len() ==> (#[trigger] s.drop_last()[i]) == s[i]);
        lemma_sort_mass_pos(s.drop_last());
        assert(s[s.len() - 1].mass > 0 && s[s.len() - 1].indices.len() > 0);
        lemma_insert_mass_pos(sort_by_mass(s.drop_last()), s.last());
    }
}

/// Finds the star candidates in a flat, row-major sample sequence.
///
/// The samples must already be in row-major order (the detector never
/// consults a frame's pixel order), must cover the `rows * cols` extent
/// exactly, and the frame must hold at least two samples (the detection
/// threshold rests on the sample standard deviation, which does not exist
/// for fewer) and at most 2^22 (so that the exact 128-bit threshold
/// arithmetic cannot overflow; that covers frames up to 2048 x 2048).
///
/// The result is pinned completely: it equals `spec_find_stars`, the
/// functional description of the single-pass forward-propagation labeling
/// rule, the size filter, the exact centroid arithmetic and the stable
/// sort. In particular the returned sequence is non-decreasing in mass,
/// and every returned segment is non-empty with positive mass.
pub fn find_stars<T: SampleValue>(
    pix: &[T],
    rows: usize,
    cols: usize,
    options: Option<FindStarsOptions>,
) -> (result: Vec<Segment>)
    requires
        1 <= rows,
        1 <= cols,
        pix@.len() == rows * cols,
        2 <= pix@.len() <= 0x400000,
        (match options {
            Some(o) => o.valid(),
            None => true,
        }),
    ensures
        ({
            let o = opts_or_default(options);
            seg_views(result@) == spec_find_stars(
                int_view(pix@),
                rows as int,
                cols as int,
                o.threshold_num as int,
                o.threshold_den as int,
                o.minsize as int,
            )
        }),
        sorted_by_mass(seg_views(result@)),
        forall|i: int|
            0 <= i < result@.len() ==> (#[trigger] result@[i])@.mass > 0
                && result@[i]@.indices.len() > 0,
{
    let o = match options {
        Some(o) => o,
        None => FindStarsOptions::defaults(),
    };
    let ghost pv = int_view(pix@);
    let n = pix.len();
    proof {
        assert forall|k: int| 0 <= k < pv.len() implies 0 <= #[trigger] pv[k] < 0x10000 by {
            pix@[k].as_int_bounds();
        }
    }
    let mut sum: i64 = 0;
    let mut sumsq: i64 = 0;
    let mut i: usize = 0;
    while i < n
        invariant
            i <= n,
            n == pix@.len() <= 0x400000,
            pv == int_view(pix@),
            all_below(pv, 0x10000),
            sum == sum_of(pv.subrange(0, i as int)),
            sumsq == sumsq_of(pv.subrange(0, i as int)),
            0 <= sum <= i * 0x10000,
            0 <= sumsq <= i * (0x10000 * 0x10000),
        decreases n - i,
    {
        let v: i64 = pix[i].to_u32() as i64;
        proof {
            let pre = pv.subrange(0, i as int);
            let post = pv.subrange(0, i + 1);
            assert(post.drop_last() =~= pre);
            assert(post.last() == pv[i as int]);
            pix@[i as int].as_int_bounds();
            assert(i * 0x10000 + 0x10000 == (i + 1) * 0x10000) by (nonlinear_arith);
            assert(i * (0x10000 * 0x10000) + 0x10000 * 0x10000 == (i + 1) * (0x10000 * 0x10000))
                by (nonlinear_arith);
            assert(0 <= v * v < 0x10000 * 0x10000) by (nonlinear_arith)
                requires
                    0 <= v < 0x10000,
            ;
        }
        sum = sum + v;
        sumsq = sumsq + v * v;
        i = i + 1;
    }
    proof {
        assert(pv.subrange(0, n as int) =~= pv);
    }
    let thresh = compute_threshold(n, sum, sumsq, o.threshold_num, o.threshold_den, Ghost(pv));
    let lists = label_pixels(pix, rows, cols, thresh);
    let ghost thr = thresh as int;
    let ghost segs = label_run(pv, thr, rows as int, cols as int, pv.len() as nat).segs;
    proof {
        lemma_run_wf(pv, thr, rows as int, cols as int, n as nat);
        lemma_run_members(pv, thr, rows as int, cols as int, n as nat);
    }
    let m = lists.len();
    let mut found: Vec<Segment> = Vec::new();
    proof {
        assert(seg_views(found@) =~= records_of(
            pv,
            cols as int,
            keep_large(lists_view(lists@).subrange(0, 0), o.minsize as int),
        )) by {
            reveal(Seq::filter);
        }
    }
    let mut i: usize = 0;
    while i < m
        invariant
            i <= m,
            m == lists@.len(),
            n == pix@.len(),
            pv == int_view(pix@),
            all_below(pv, 0x10000),
            pv.len() == rows * cols,
            1 <= rows,
            1 <= cols,
            n <= 0x400000,
            thr == thresh as int,
            lists_view(lists@) == segs,
            segs == label_run(pv, thr, rows as int, cols as int, n as nat).segs,
            label_wf(
                label_run(pv, thr, rows as int, cols as int, n as nat),
                pv,
                thr,
                rows as int,
                cols as int,
            ),
            total_members(segs) <= 5 * n,
            seg_views(found@) == records_of(
                pv,
                cols as int,
                keep_large(lists_view(lists@).subrange(0, i as int), o.minsize as int),
            ),
            forall|k: int|
                0 <= k < found@.len() ==> (#[trigger] seg_views(found@)[k]).mass > 0 && seg_views(
                    found@,
                )[k].indices.len() > 0,
        decreases m - i,
    {
        let ghost pref = lists_view(lists@).subrange(0, i as int);
        let ghost pref1 = lists_view(lists@).subrange(0, i + 1);
        proof {
            assert(pref1.drop_last() =~= pref);
            assert(pref1.last() == lists_view(lists@)[i as int]);
            assert(lists_view(lists@)[i as int] == lists@[i as int]@);
        }
        let li = &lists[i];
        if li.len() >= o.minsize {
            proof {
                let full = label_run(pv, thr, rows as int, cols as int, n as nat);
                assert(segs[i as int] == li@);
                assert forall|k: int| 0 <= k < li@.len() implies member_ok(
                    #[trigger] li@[k],
                    pv,
                    thr,
                    rows as int,
                    cols as int,
                ) by {
                    assert(li@[k] == full.segs[i as int][k]);
                    assert(member_ok(full.segs[i as int][k], pv, thr, rows as int, cols as int));
                }
                lemma_part_le_total(segs, i as int);
                lemma_members_nonneg(segs);
                assert(li@.len() <= 0x2000000);
                lemma_seg_sums_bounds(pv, thr, rows as int, cols as int, li@);
            }
            let (mass, sumcol, sumrow) = measure_segment(
                pix,
                rows,
                cols,
                thresh,
                li,
                Ghost(pv),
            );
            let count = li.len();
            let seg = Segment {
                indices: vstd::slice::slice_to_vec(li.as_slice()),
                centroid: (
                    Ratio { num: sumcol, den: mass },
                    Ratio { num: sumrow, den: count as u64 },
                ),
                mass,
            };
            proof {
                assert(seg@ =~= seg_record(pv, cols as int, li@));
                assert(label_run(pv, thr, rows as int, cols as int, n as nat).segs[i as int].len()
                    >= 1);
                assert(seg@.mass > 0 && seg@.indices.len() > 0);
            }
            let ghost prev_found = found@;
            found.push(seg);
            proof {
                reveal(Seq::filter);
                let ms = o.minsize as int;
                let kl = keep_large(pref, ms);
                let kl1 = keep_large(pref1, ms);
                assert(kl1 == kl.push(li@));
                assert(seg_views(prev_found) == records_of(pv, cols as int, kl));
                assert(seg_views(prev_found).len() == prev_found.len());
                assert(records_of(pv, cols as int, kl).len() == kl.len());
                assert(seg_views(found@).len() == found@.len());
                assert(records_of(pv, cols as int, kl1).len() == kl1.len());
                assert(prev_found.len() == kl.len());
                assert forall|k: int|
                    0 <= k < seg_views(found@).len() implies #[trigger] seg_views(found@)[k]
                    == records_of(pv, cols as int, kl1)[k] by {
                    assert(kl1 == kl.push(li@));
                    assert(kl1.len() == kl.len() + 1);
                    assert(found@.len() == prev_found.len() + 1);
                    assert(prev_found.len() == kl.len());
                    if k < found@.len() - 1 {
                        assert(seg_views(found@)[k] == seg_views(prev_found)[k]);
                        assert(kl1[k] == kl[k]);
                        assert(records_of(pv, cols as int, kl1)[k] == seg_record(
                            pv,
                            cols as int,
                            kl1[k],
                        ));
                        assert(records_of(pv, cols as int, kl)[k] == seg_record(
                            pv,
                            cols as int,
                            kl[k],
                        ));
                    } else {
                        assert(seg_views(found@)[k] == seg@);
                        assert(kl1[k] == li@);
                        assert(records_of(pv, cols as int, kl1)[k] == seg_record(
                            pv,
                            cols as int,
                            li@,
                        ));
                    }
                }
                assert(seg_views(found@) =~= records_of(pv, cols as int, kl1));
                assert forall|k: int| 0 <= k < found@.len() implies (#[trigger] seg_views(
                    found@,
                )[k]).mass > 0 && seg_views(found@)[k].indices.len() > 0 by {
                    if k < found@.len() - 1 {
                        assert(seg_views(found@)[k] == seg_views(prev_found)[k]);
                    } else {
                        assert(seg_views(found@)[k] == seg@);
                    }
                }
            }
        } else {
            proof {
                reveal(Seq::filter);
                assert(keep_large(pref1, o.minsize as int) == keep_large(pref, o.minsize as int));
            }
        }
        i = i + 1;
    }
    proof {
        assert(lists_view(lists@).subrange(0, m as int) =~= lists_view(lists@));
    }
    let result = sort_segments(&found);
    proof {
        lemma_sort_mass_pos(seg_views(found@));
        assert forall|k: int| 0 <= k < result@.len() implies (#[trigger] result@[k])@.mass > 0
            && result@[k]@.indices.len() > 0 by {
            assert(result@[k]@ == seg_views(result@)[k]);
            assert(seg_views(result@)[k] == sort_by_mass(seg_views(found@))[k]);
        }
    }
    result
}

} // verus!
