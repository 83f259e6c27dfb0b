//! Ramer-Douglas-Peucker polyline simplification.
//!
//! The tolerance is a rational number of pixels; all geometry is exact
//! integer arithmetic.  A point's deviation from a segment is its Euclidean
//! distance to the segment (to the nearer endpoint beyond the segment's
//! ends, and to the point itself when the segment is degenerate), handled
//! as a squared fraction so that no rounding enters the comparisons.

use vstd::prelude::*;

use crate::vector2i::Vector2I;

verus! {

/// Coordinate magnitude the simplifier accepts without overflow.
pub open spec fn coords_bounded(s: Seq<Vector2I>) -> bool {
    forall|i: int|
        0 <= i < s.len() ==> -65536 <= (#[trigger] s[i]).x <= 65536 && -65536 <= s[i].y <= 65536
}

pub open spec fn sq(a: int) -> int {
    a * a
}

/// Squared distance from `p` to the segment `a`-`b`, as the fraction
/// `numerator / denominator` with a positive denominator.
pub open spec fn dist2_frac_spec(p: Vector2I, a: Vector2I, b: Vector2I) -> (int, int) {
    let dx = b.x - a.x;
    let dy = b.y - a.y;
    let l2 = sq(dx) + sq(dy);
    let dp = dx * (p.x - a.x) + dy * (p.y - a.y);
    if l2 == 0 {
        (sq(p.x - a.x) + sq(p.y - a.y), 1)
    } else if dp < 0 {
        (sq(p.x - a.x) + sq(p.y - a.y), 1)
    } else if dp > l2 {
        (sq(p.x - b.x) + sq(p.y - b.y), 1)
    } else {
        (sq(dx * (p.y - a.y) - dy * (p.x - a.x)), l2)
    }
}

/// The deviation of `p` from segment `a`-`b` is at most `num / den` pixels.
pub open spec fn within_tolerance(
    p: Vector2I,
    a: Vector2I,
    b: Vector2I,
    num: int,
    den: int,
) -> bool {
    let f = dist2_frac_spec(p, a, b);
    f.0 * sq(den) <= sq(num) * f.1
}

/// Strict order on deviation fractions (positive denominators).
pub open spec fn frac_lt(f1: (int, int), f2: (int, int)) -> bool {
    f1.0 * f2.1 < f2.0 * f1.1
}

/// Non-strict order on deviation fractions (positive denominators).
pub open spec fn frac_le(f1: (int, int), f2: (int, int)) -> bool {
    f1.0 * f2.1 <= f2.0 * f1.1
}

/// Squared deviation of point `m` from the segment `lo`-`hi`.
pub open spec fn deviation_frac(ps: Seq<Vector2I>, lo: int, hi: int, m: int) -> (int, int) {
    dist2_frac_spec(ps[m], ps[lo], ps[hi])
}

/// Index `i` is the first interior index of `[lo, hi]` attaining the
/// maximum deviation from the segment `lo`-`hi`: everything before it
/// deviates strictly less, everything after at most as much.
pub open spec fn is_first_argmax(ps: Seq<Vector2I>, lo: int, hi: int, i: int) -> bool {
    &&& lo < i < hi
    &&& forall|m: int|
        lo < m < i ==> frac_lt(
            #[trigger] deviation_frac(ps, lo, hi, m),
            deviation_frac(ps, lo, hi, i),
        )
    &&& forall|m: int|
        i < m < hi ==> frac_le(
            #[trigger] deviation_frac(ps, lo, hi, m),
            deviation_frac(ps, lo, hi, i),
        )
}

/// Two first-argmax indices of the same interval coincide.
pub proof fn lemma_first_argmax_unique(ps: Seq<Vector2I>, lo: int, hi: int, i1: int, i2: int)
    requires
        is_first_argmax(ps, lo, hi, i1),
        is_first_argmax(ps, lo, hi, i2),
    ensures
        i1 == i2,
{
    if i1 < i2 {
        assert(frac_lt(deviation_frac(ps, lo, hi, i1), deviation_frac(ps, lo, hi, i2)));
        assert(frac_le(deviation_frac(ps, lo, hi, i2), deviation_frac(ps, lo, hi, i1)));
    }
    if i2 < i1 {
        assert(frac_lt(deviation_frac(ps, lo, hi, i2), deviation_frac(ps, lo, hi, i1)));
        assert(frac_le(deviation_frac(ps, lo, hi, i1), deviation_frac(ps, lo, hi, i2)));
    }
}

/// The interval `[lo, hi]` has an interior point beyond the tolerance; the
/// recursion then splits at the first point of maximum deviation.
pub open spec fn has_split(ps: Seq<Vector2I>, num: int, den: int, lo: int, hi: int) -> bool {
    exists|k: int|
        #[trigger] is_first_argmax(ps, lo, hi, k) && !within_tolerance(
            ps[k],
            ps[lo],
            ps[hi],
            num,
            den,
        )
}

/// The split point of an interval that has one.
pub open spec fn split_of(ps: Seq<Vector2I>, num: int, den: int, lo: int, hi: int) -> int {
    choose|k: int|
        #[trigger] is_first_argmax(ps, lo, hi, k) && !within_tolerance(
            ps[k],
            ps[lo],
            ps[hi],
            num,
            den,
        )
}

/// The interior indices the Ramer-Douglas-Peucker recursion keeps on
/// `[lo, hi]`: none when every interior point is within tolerance, else
/// the split point together with the marks of both half intervals.
pub open spec fn rdp_marks(ps: Seq<Vector2I>, num: int, den: int, lo: int, hi: int) -> Set<int>
    decreases hi - lo,
{
    if hi - lo >= 2 && has_split(ps, num, den, lo, hi) {
        let k = split_of(ps, num, den, lo, hi);
        rdp_marks(ps, num, den, lo, k).union(rdp_marks(ps, num, den, k, hi)).insert(k)
    } else {
        Set::<int>::empty()
    }
}

/// A mark of an interval lies strictly inside it.
pub proof fn lemma_rdp_marks_interior(
    ps: Seq<Vector2I>,
    num: int,
    den: int,
    lo: int,
    hi: int,
    j: int,
)
    requires
        rdp_marks(ps, num, den, lo, hi).contains(j),
    ensures
        lo < j < hi,
    decreases hi - lo,
{
    if hi - lo >= 2 && has_split(ps, num, den, lo, hi) {
        let k = split_of(ps, num, den, lo, hi);
        assert(is_first_argmax(ps, lo, hi, k) && !within_tolerance(
            ps[k],
            ps[lo],
            ps[hi],
            num,
            den,
        ));
        if j != k {
            if rdp_marks(ps, num, den, lo, k).contains(j) {
                lemma_rdp_marks_interior(ps, num, den, lo, k, j);
            } else {
                lemma_rdp_marks_interior(ps, num, den, k, hi, j);
            }
        }
    }
}

/// The kept indices are exactly the two ends plus the recursion's marks
/// (short polylines are kept whole).
pub open spec fn rdp_kept_exact(ps: Seq<Vector2I>, kept: Seq<usize>, num: int, den: int) -> bool {
    if ps.len() < 3 {
        kept.len() == ps.len() && forall|j: int| 0 <= j < kept.len() ==> (#[trigger] kept[j]) == j
    } else {
        &&& forall|j: int|
            0 <= j < kept.len() ==> ((#[trigger] kept[j]) == 0 || kept[j] == ps.len() - 1
                || rdp_marks(ps, num, den, 0, ps.len() - 1).contains(kept[j] as int))
        &&& forall|m: int|
            0 < m < ps.len() - 1 && #[trigger] rdp_marks(ps, num, den, 0, ps.len() - 1).contains(m)
                ==> exists|j: int| 0 <= j < kept.len() && (#[trigger] kept[j]) as int == m
    }
}

/// The denominator of a squared-distance fraction is positive.
pub proof fn lemma_dist2_den_pos(p: Vector2I, a: Vector2I, b: Vector2I)
    ensures
        dist2_frac_spec(p, a, b).1 > 0,
{
    lemma_sq_nonneg(b.x - a.x);
    lemma_sq_nonneg(b.y - a.y);
}

/// Fraction order is transitive across a middle fraction.
proof fn lemma_frac_le_lt_trans(f1: (int, int), f2: (int, int), f3: (int, int))
    requires
        f1.1 > 0,
        f2.1 > 0,
        f3.1 > 0,
        frac_le(f1, f2),
        frac_lt(f2, f3),
    ensures
        frac_lt(f1, f3),
{
    assert(f1.0 * f3.1 < f3.0 * f1.1) by (nonlinear_arith)
        requires
            f1.1 > 0,
            f2.1 > 0,
            f3.1 > 0,
            f1.0 * f2.1 <= f2.0 * f1.1,
            f2.0 * f3.1 < f3.0 * f2.1,
    ;
}

proof fn lemma_frac_lt_le_trans(f1: (int, int), f2: (int, int), f3: (int, int))
    requires
        f1.1 > 0,
        f2.1 > 0,
        f3.1 > 0,
        frac_lt(f1, f2),
        frac_le(f2, f3),
    ensures
        frac_lt(f1, f3),
{
    assert(f1.0 * f3.1 < f3.0 * f1.1) by (nonlinear_arith)
        requires
            f1.1 > 0,
            f2.1 > 0,
            f3.1 > 0,
            f1.0 * f2.1 < f2.0 * f1.1,
            f2.0 * f3.1 <= f3.0 * f2.1,
    ;
}

/// Within the tolerance means the deviation fraction is at most the
/// squared tolerance; beyond it, strictly more.
pub proof fn lemma_within_is_frac_le(p: Vector2I, a: Vector2I, b: Vector2I, num: int, den: int)
    ensures
        within_tolerance(p, a, b, num, den) == frac_le(
            dist2_frac_spec(p, a, b),
            (sq(num), sq(den)),
        ),
{
}

/// Every point strictly between `a` and `b` deviates at most `num / den`
/// from the segment joining them.
pub open spec fn gap_ok(ps: Seq<Vector2I>, a: int, b: int, num: int, den: int) -> bool {
    forall|m: int| a < m < b ==> within_tolerance(#[trigger] ps[m], ps[a], ps[b], num, den)
}

/// The division marks over the interval `[lo, hi]` are a sound
/// simplification: between any two marked points (the interval bounds count
/// as marked) with no mark between them, every point lies within the
/// tolerance of the connecting segment.
pub open spec fn rdp_ok(
    ps: Seq<Vector2I>,
    div: Seq<bool>,
    lo: int,
    hi: int,
    num: int,
    den: int,
) -> bool {
    forall|a: int, b: int|
        lo <= a < b <= hi && (div[a] || a == lo) && (div[b] || b == hi) && (forall|m: int|
            a < m < b ==> !div[m]) ==> #[trigger] gap_ok(ps, a, b, num, den)
}

pub struct WaypointSimplifier {
    eps_num: i64,
    eps_den: i64,
}

impl WaypointSimplifier {
    /// Tolerance numerator, in pixels.
    pub closed spec fn spec_eps_num(&self) -> i64 {
        self.eps_num
    }

    /// Tolerance denominator.
    pub closed spec fn spec_eps_den(&self) -> i64 {
        self.eps_den
    }

    pub open spec fn wf(&self) -> bool {
        0 <= self.spec_eps_num() <= 65536 && 1 <= self.spec_eps_den() <= 65536
    }

    /// A simplifier with the tolerance `eps_num / eps_den` pixels.
    pub fn new(eps_num: i64, eps_den: i64) -> (r: Self)
        requires
            0 <= eps_num <= 65536,
            1 <= eps_den <= 65536,
        ensures
            r.spec_eps_num() == eps_num,
            r.spec_eps_den() == eps_den,
            r.wf(),
    {
        WaypointSimplifier { eps_num, eps_den }
    }

    /// Squared distance fraction from `p` to segment `a`-`b`.
    fn dist2_frac(p: Vector2I, a: Vector2I, b: Vector2I) -> (r: (i128, i128))
        requires
            -65536 <= p.x <= 65536,
            -65536 <= p.y <= 65536,
            -65536 <= a.x <= 65536,
            -65536 <= a.y <= 65536,
            -65536 <= b.x <= 65536,
            -65536 <= b.y <= 65536,
        ensures
            (r.0 as int, r.1 as int) == dist2_frac_spec(p, a, b),
            0 < r.1 <= 0x1000000000,
            0 <= r.0 <= 0x400000000000000000,
    {
        let dx: i128 = b.x as i128 - a.x as i128;
        let dy: i128 = b.y as i128 - a.y as i128;
        let px: i128 = p.x as i128 - a.x as i128;
        let py: i128 = p.y as i128 - a.y as i128;
        let qx: i128 = p.x as i128 - b.x as i128;
        let qy: i128 = p.y as i128 - b.y as i128;
        proof {
            lemma_mul_bound(dx as int, dx as int, 0x20000, 0x20000);
            lemma_mul_bound(dy as int, dy as int, 0x20000, 0x20000);
            lemma_mul_bound(px as int, px as int, 0x20000, 0x20000);
            lemma_mul_bound(py as int, py as int, 0x20000, 0x20000);
            lemma_mul_bound(qx as int, qx as int, 0x20000, 0x20000);
            lemma_mul_bound(qy as int, qy as int, 0x20000, 0x20000);
            lemma_mul_bound(dx as int, px as int, 0x20000, 0x20000);
            lemma_mul_bound(dy as int, py as int, 0x20000, 0x20000);
            lemma_mul_bound(dx as int, py as int, 0x20000, 0x20000);
            lemma_mul_bound(dy as int, px as int, 0x20000, 0x20000);
            lemma_sq_nonneg(dx as int);
            lemma_sq_nonneg(dy as int);
            lemma_sq_nonneg(px as int);
            lemma_sq_nonneg(py as int);
            lemma_sq_nonneg(qx as int);
            lemma_sq_nonneg(qy as int);
        }
        let l2: i128 = dx * dx + dy * dy;
        let dp: i128 = dx * px + dy * py;
        if l2 == 0 {
            (px * px + py * py, 1)
        } else if dp < 0 {
            (px * px + py * py, 1)
        } else if dp > l2 {
            (qx * qx + qy * qy, 1)
        } else {
            let cross: i128 = dx * py - dy * px;
            proof {
                lemma_mul_bound(cross as int, cross as int, 0x800000000, 0x800000000);
                lemma_sq_nonneg(cross as int);
            }
            (cross * cross, l2)
        }
    }

    /// Whether `p` deviates more than `num / den` pixels from `a`-`b`.
    fn exceeds_tolerance(p: Vector2I, a: Vector2I, b: Vector2I, num: i64, den: i64) -> (r: bool)
        requires
            -65536 <= p.x <= 65536,
            -65536 <= p.y <= 65536,
            -65536 <= a.x <= 65536,
            -65536 <= a.y <= 65536,
            -65536 <= b.x <= 65536,
            -65536 <= b.y <= 65536,
            0 <= num <= 65536,
            1 <= den <= 65536,
        ensures
            r == !within_tolerance(p, a, b, num as int, den as int),
    {
        let (d_num, d_den) = Self::dist2_frac(p, a, b);
        proof {
            lemma_mul_bound(den as int, den as int, 0x10000, 0x10000);
            lemma_mul_bound(num as int, num as int, 0x10000, 0x10000);
            lemma_mul_bound(d_num as int, (den * den) as int, 0x400000000000000000, 0x100000000);
            lemma_mul_bound((num * num) as int, d_den as int, 0x100000000, 0x1000000000);
        }
        let num2: i128 = (num as i128) * (num as i128);
        let den2: i128 = (den as i128) * (den as i128);
        d_num * den2 > num2 * d_den
    }

    /// Whether the deviation fraction `f1` is strictly larger than `f2`.
    fn frac_gt(f1: (i128, i128), f2: (i128, i128)) -> (r: bool)
        requires
            0 < f1.1 <= 0x1000000000,
            0 <= f1.0 <= 0x400000000000000000,
            0 < f2.1 <= 0x1000000000,
            0 <= f2.0 <= 0x400000000000000000,
        ensures
            r == (f1.0 * f2.1 > f2.0 * f1.1),
    {
        proof {
            lemma_mul_bound(f1.0 as int, f2.1 as int, 0x400000000000000000, 0x1000000000);
            lemma_mul_bound(f2.0 as int, f1.1 as int, 0x400000000000000000, 0x1000000000);
        }
        f1.0 * f2.1 > f2.0 * f1.1
    }

    /// The strictly interior point of `[start_index, end_index]` deviating
    /// farthest beyond the tolerance, if any point exceeds it.
    fn find_max_deviation(
        &self,
        points: &Vec<Vector2I>,
        start_index: usize,
        end_index: usize,
    ) -> (r: Option<usize>)
        requires
            self.wf(),
            coords_bounded(points@),
            start_index < end_index < points@.len(),
        ensures
            r matches Some(i) ==> start_index < i < end_index && !within_tolerance(
                points@[i as int],
                points@[start_index as int],
                points@[end_index as int],
                self.spec_eps_num() as int,
                self.spec_eps_den() as int,
            ),
            r matches Some(i) ==> is_first_argmax(
                points@,
                start_index as int,
                end_index as int,
                i as int,
            ),
            r is None ==> gap_ok(
                points@,
                start_index as int,
                end_index as int,
                self.spec_eps_num() as int,
                self.spec_eps_den() as int,
            ),
    {
        let start_point = points[start_index];
        let end_point = points[end_index];
        let mut best: Option<(usize, (i128, i128))> = None;
        let mut i: usize = start_index + 1;
        while i < end_index
            invariant
                self.wf(),
                coords_bounded(points@),
                start_index < end_index < points@.len(),
                start_point == points@[start_index as int],
                end_point == points@[end_index as int],
                start_index + 1 <= i <= end_index,
                best matches Some(p) ==> start_index < p.0 < end_index && !within_tolerance(
                    points@[p.0 as int],
                    start_point,
                    end_point,
                    self.spec_eps_num() as int,
                    self.spec_eps_den() as int,
                ) && 0 < p.1.1 <= 0x1000000000 && 0 <= p.1.0 <= 0x400000000000000000 && (
                p.1.0 as int, p.1.1 as int) == deviation_frac(
                    points@,
                    start_index as int,
                    end_index as int,
                    p.0 as int,
                ) && (forall|m: int|
                    start_index < m < p.0 ==> frac_lt(
                        #[trigger] deviation_frac(points@, start_index as int, end_index as int, m),
                        deviation_frac(points@, start_index as int, end_index as int, p.0 as int),
                    )) && (forall|m: int|
                    p.0 < m < i ==> frac_le(
                        #[trigger] deviation_frac(points@, start_index as int, end_index as int, m),
                        deviation_frac(points@, start_index as int, end_index as int, p.0 as int),
                    )),
                best is None ==> forall|m: int|
                    start_index < m < i ==> within_tolerance(
                        #[trigger] points@[m],
                        start_point,
                        end_point,
                        self.spec_eps_num() as int,
                        self.spec_eps_den() as int,
                    ),
            decreases end_index - i,
        {
            let point = points[i];
            let ghost lo = start_index as int;
            let ghost hi = end_index as int;
            let ghost eps2: (int, int) = (sq(self.spec_eps_num() as int), sq(self.spec_eps_den() as int));
            proof {
                assert(eps2.1 > 0) by (nonlinear_arith)
                    requires
                        eps2.1 == sq(self.spec_eps_den() as int),
                        self.spec_eps_den() >= 1,
                ;
                lemma_dist2_den_pos(points@[i as int], points@[lo], points@[hi]);
            }
            let exceeds = Self::exceeds_tolerance(
                point,
                start_point,
                end_point,
                self.eps_num,
                self.eps_den,
            );
            if exceeds {
                let d = Self::dist2_frac(point, start_point, end_point);
                let better = match best {
                    Some(p) => Self::frac_gt(d, p.1),
                    None => true,
                };
                if better {
                    proof {
                        let newdev = deviation_frac(points@, lo, hi, i as int);
                        match best {
                            None => {
                                // Everything before was within tolerance,
                                // hence strictly below the new deviation.
                                assert forall|m: int| lo < m < i implies frac_lt(
                                    #[trigger] deviation_frac(points@, lo, hi, m),
                                    newdev,
                                ) by {
                                    lemma_dist2_den_pos(points@[m], points@[lo], points@[hi]);
                                    lemma_within_is_frac_le(
                                        points@[m],
                                        points@[lo],
                                        points@[hi],
                                        self.spec_eps_num() as int,
                                        self.spec_eps_den() as int,
                                    );
                                    lemma_frac_le_lt_trans(
                                        deviation_frac(points@, lo, hi, m),
                                        eps2,
                                        newdev,
                                    );
                                }
                            },
                            Some(p) => {
                                let olddev = deviation_frac(points@, lo, hi, p.0 as int);
                                lemma_dist2_den_pos(points@[p.0 as int], points@[lo], points@[hi]);
                                assert(frac_lt(olddev, newdev));
                                assert forall|m: int| lo < m < i implies frac_lt(
                                    #[trigger] deviation_frac(points@, lo, hi, m),
                                    newdev,
                                ) by {
                                    lemma_dist2_den_pos(points@[m], points@[lo], points@[hi]);
                                    if m < p.0 {
                                        lemma_frac_lt_le_trans(
                                            deviation_frac(points@, lo, hi, m),
                                            olddev,
                                            newdev,
                                        );
                                    } else if m > p.0 {
                                        lemma_frac_le_lt_trans(
                                            deviation_frac(points@, lo, hi, m),
                                            olddev,
                                            newdev,
                                        );
                                    }
                                }
                            },
                        }
                    }
                    best = Some((i, d));
                } else {
                    proof {
                        // Not better: at most the recorded maximum.
                        let p = best->Some_0;
                        assert(frac_le(
                            deviation_frac(points@, lo, hi, i as int),
                            deviation_frac(points@, lo, hi, p.0 as int),
                        ));
                    }
                }
            } else {
                proof {
                    // Within tolerance: strictly below any recorded maximum.
                    match best {
                        None => {},
                        Some(p) => {
                            let olddev = deviation_frac(points@, lo, hi, p.0 as int);
                            lemma_dist2_den_pos(points@[p.0 as int], points@[lo], points@[hi]);
                            lemma_within_is_frac_le(
                                points@[i as int],
                                points@[lo],
                                points@[hi],
                                self.spec_eps_num() as int,
                                self.spec_eps_den() as int,
                            );
                            lemma_within_is_frac_le(
                                points@[p.0 as int],
                                points@[lo],
                                points@[hi],
                                self.spec_eps_num() as int,
                                self.spec_eps_den() as int,
                            );
                            lemma_frac_le_lt_trans(
                                deviation_frac(points@, lo, hi, i as int),
                                eps2,
                                olddev,
                            );
                        },
                    }
                }
            }
            i += 1;
        }
        match best {
            Some(p) => Some(p.0),
            None => None,
        }
    }

    /// Mark, between `start_index` and `end_index`, the points a sound
    /// simplification must keep.
    fn simplify_dfs(
        &self,
        waypoints: &Vec<Vector2I>,
        divisions: &mut Vec<bool>,
        start_index: usize,
        end_index: usize,
    )
        requires
            self.wf(),
            coords_bounded(waypoints@),
            old(divisions)@.len() == waypoints@.len(),
            start_index < end_index < waypoints@.len(),
            forall|m: int| start_index < m < end_index ==> !old(divisions)@[m],
        ensures
            final(divisions)@.len() == old(divisions)@.len(),
            forall|j: int|
                0 <= j < old(divisions)@.len() ==> final(divisions)@[j] == (old(divisions)@[j]
                    || rdp_marks(
                    waypoints@,
                    self.spec_eps_num() as int,
                    self.spec_eps_den() as int,
                    start_index as int,
                    end_index as int,
                ).contains(j)),
            rdp_ok(
                waypoints@,
                final(divisions)@,
                start_index as int,
                end_index as int,
                self.spec_eps_num() as int,
                self.spec_eps_den() as int,
            ),
        decreases end_index - start_index,
    {
        let ghost num = self.spec_eps_num() as int;
        let ghost den = self.spec_eps_den() as int;
        let ghost lo = start_index as int;
        let ghost hi = end_index as int;
        if end_index - start_index < 2 {
            proof {
                assert(forall|j: int|
                    !(#[trigger] rdp_marks(waypoints@, num, den, lo, hi).contains(j)));
                assert forall|a: int, b: int|
                    lo <= a < b <= hi && (divisions@[a] || a == lo) && (divisions@[b] || b == hi)
                        && (forall|m: int| a < m < b ==> !divisions@[m]) implies #[trigger] gap_ok(
                    waypoints@,
                    a,
                    b,
                    num,
                    den,
                ) by {
                    assert(b == a + 1);
                }
            }
            return ;
        }
        let found = self.find_max_deviation(waypoints, start_index, end_index);
        match found {
            None => {
                proof {
                    // Every interior point is within tolerance, so the
                    // recursion marks nothing here.
                    assert(!has_split(waypoints@, num, den, lo, hi)) by {
                        if has_split(waypoints@, num, den, lo, hi) {
                            let kk = choose|kk: int|
                                #[trigger] is_first_argmax(waypoints@, lo, hi, kk)
                                    && !within_tolerance(
                                    waypoints@[kk],
                                    waypoints@[lo],
                                    waypoints@[hi],
                                    num,
                                    den,
                                );
                            assert(within_tolerance(
                                waypoints@[kk],
                                waypoints@[lo],
                                waypoints@[hi],
                                num,
                                den,
                            ));
                        }
                    }
                    assert(forall|j: int|
                        !(#[trigger] rdp_marks(waypoints@, num, den, lo, hi).contains(j)));
                    assert forall|a: int, b: int|
                        lo <= a < b <= hi && (divisions@[a] || a == lo) && (divisions@[b] || b
                            == hi) && (forall|m: int| a < m < b ==> !divisions@[m]) implies #[trigger] gap_ok(
                        waypoints@,
                        a,
                        b,
                        num,
                        den,
                    ) by {
                        if lo < a {
                            assert(!divisions@[a]);
                            assert(false);
                        }
                        if b < hi {
                            assert(!divisions@[b]);
                            assert(false);
                        }
                    }
                }
            },
            Some(max_deviation_index) => {
                let ghost k = max_deviation_index as int;
                let ghost div0 = divisions@;
                proof {
                    // The found index is the recursion's split point.
                    assert(is_first_argmax(waypoints@, lo, hi, k));
                    assert(has_split(waypoints@, num, den, lo, hi));
                    lemma_first_argmax_unique(
                        waypoints@,
                        lo,
                        hi,
                        split_of(waypoints@, num, den, lo, hi),
                        k,
                    );
                    assert(split_of(waypoints@, num, den, lo, hi) == k);
                    assert(rdp_marks(waypoints@, num, den, lo, hi) == rdp_marks(
                        waypoints@,
                        num,
                        den,
                        lo,
                        k,
                    ).union(rdp_marks(waypoints@, num, den, k, hi)).insert(k));
                }
                self.simplify_dfs(waypoints, divisions, start_index, max_deviation_index);
                let ghost div1 = divisions@;
                proof {
                    assert forall|m: int| k < m < hi implies !divisions@[m] by {
                        if rdp_marks(waypoints@, num, den, lo, k).contains(m) {
                            lemma_rdp_marks_interior(waypoints@, num, den, lo, k, m);
                        }
                    }
                }
                self.simplify_dfs(waypoints, divisions, max_deviation_index, end_index);
                let ghost div2 = divisions@;
                divisions.set(max_deviation_index, true);
                let ghost div3 = divisions@;
                proof {
                    // Left of k the final marks agree with the left
                    // recursion's result; right of k with the right's.
                    assert forall|j: int| 0 <= j < k implies div3[j] == div1[j] by {
                        if rdp_marks(waypoints@, num, den, k, hi).contains(j) {
                            lemma_rdp_marks_interior(waypoints@, num, den, k, hi, j);
                        }
                    }
                    assert(forall|j: int| k < j < div3.len() ==> div3[j] == div2[j]);
                    assert forall|j: int| 0 <= j < div0.len() implies div3[j] == (div0[j]
                        || rdp_marks(waypoints@, num, den, lo, hi).contains(j)) by {
                        let marks = rdp_marks(waypoints@, num, den, lo, hi);
                        let left = rdp_marks(waypoints@, num, den, lo, k);
                        let right = rdp_marks(waypoints@, num, den, k, hi);
                        assert(marks == left.union(right).insert(k));
                        assert(marks.contains(j) == (left.contains(j) || right.contains(j) || j
                            == k));
                        if j == k {
                            assert(div3[j]);
                        } else if j < k {
                            // The right recursion marks only inside (k, hi).
                            assert(div3[j] == div1[j]);
                            assert(div1[j] == (div0[j] || left.contains(j)));
                            assert(!right.contains(j)) by {
                                if right.contains(j) {
                                    assert(div2[j] == (div1[j] || right.contains(j)));
                                    lemma_rdp_marks_interior(waypoints@, num, den, k, hi, j);
                                }
                            }
                        } else {
                            assert(div3[j] == div2[j]);
                            assert(div2[j] == (div1[j] || right.contains(j)));
                            assert(div1[j] == (div0[j] || left.contains(j)));
                            assert(!left.contains(j)) by {
                                if left.contains(j) {
                                    lemma_rdp_marks_interior(waypoints@, num, den, lo, k, j);
                                }
                            }
                        }
                    }
                    assert forall|a: int, b: int|
                        lo <= a < b <= hi && (div3[a] || a == lo) && (div3[b] || b == hi) && (
                        forall|m: int| a < m < b ==> !div3[m]) implies #[trigger] gap_ok(
                        waypoints@,
                        a,
                        b,
                        num,
                        den,
                    ) by {
                        assert(!(a < k < b)) by {
                            if a < k < b {
                                assert(div3[k]);
                            }
                        }
                        if b <= k {
                            assert((div1[a] || a == lo) && (div1[b] || b == k));
                            assert(forall|m: int| a < m < b ==> !div1[m]);
                            assert(gap_ok(waypoints@, a, b, num, den)) by {
                                assert(rdp_ok(waypoints@, div1, lo, k, num, den));
                            }
                        } else {
                            assert(a >= k);
                            assert((div2[a] || a == k) && (div2[b] || b == hi));
                            assert(forall|m: int| a < m < b ==> !div2[m]);
                            assert(gap_ok(waypoints@, a, b, num, den)) by {
                                assert(rdp_ok(waypoints@, div2, k, hi, num, den));
                            }
                        }
                    }
                }
            },
        }
    }

    /// Simplified subsequence of `waypoints` together with the original
    /// index of each kept point.
    ///
    /// The first and last points are always kept; between any two
    /// consecutively kept points every dropped point deviates at most the
    /// tolerance from the segment joining them; and the kept set is exactly
    /// the ends plus the recursion's marks (`rdp_marks`): no point is
    /// dropped or retained beyond what the algorithm prescribes.
    #[verifier::rlimit(100)]
    pub fn simplify_with_indices(&self, waypoints: &Vec<Vector2I>) -> (r: (
        Vec<Vector2I>,
        Vec<usize>,
    ))
        requires
            self.wf(),
            coords_bounded(waypoints@),
        ensures
            simplification_ok(
                waypoints@,
                r.0@,
                r.1@,
                self.spec_eps_num() as int,
                self.spec_eps_den() as int,
            ),
            rdp_kept_exact(waypoints@, r.1@, self.spec_eps_num() as int, self.spec_eps_den() as int),
    {
        let n: usize = waypoints.len();
        let mut result: Vec<Vector2I> = Vec::new();
        let mut kept: Vec<usize> = Vec::new();
        if n == 0 {
            return (result, kept);
        }
        if n < 3 {
            let mut i: usize = 0;
            while i < n
                invariant
                    n == waypoints@.len(),
                    i <= n,
                    result@.len() == i,
                    kept@.len() == i,
                    forall|j: int| 0 <= j < i ==> (#[trigger] kept@[j]) == j,
                    forall|j: int| 0 <= j < i ==> (#[trigger] result@[j]) == waypoints@[j],
                decreases n - i,
            {
                result.push(waypoints[i]);
                kept.push(i);
                i += 1;
            }
            return (result, kept);
        }

        let mut divisions: Vec<bool> = Vec::new();
        let mut i: usize = 0;
        while i < n
            invariant
                n == waypoints@.len(),
                i <= n,
                divisions@.len() == i,
                forall|j: int| 0 <= j < i ==> !(#[trigger] divisions@[j]),
            decreases n - i,
        {
            divisions.push(false);
            i += 1;
        }
        divisions.set(0, true);
        divisions.set(n - 1, true);
        proof {
            assert(forall|m: int| 0 < m < n - 1 ==> !divisions@[m]);
        }
        let ghost num0 = self.spec_eps_num() as int;
        let ghost den0 = self.spec_eps_den() as int;
        let ghost div_init = divisions@;
        self.simplify_dfs(waypoints, &mut divisions, 0, n - 1);
        proof {
            lemma_division_characterized(waypoints@, div_init, divisions@, num0, den0);
        }

        let ghost num = self.spec_eps_num() as int;
        let ghost den = self.spec_eps_den() as int;
        let mut idx: usize = 0;
        while idx < n
            invariant
                n == waypoints@.len(),
                divisions@.len() == n,
                3 <= n,
                divisions@[0],
                divisions@[n - 1],
                rdp_ok(waypoints@, divisions@, 0, n - 1, num, den),
                idx <= n,
                result@.len() == kept@.len(),
                kept@.len() <= idx,
                idx > 0 ==> kept@.len() >= 1 && kept@[0] == 0,
                forall|j: int|
                    0 <= j < kept@.len() ==> 0 <= (#[trigger] kept@[j]) < idx && divisions@[kept@[j] as int],
                forall|j: int| 0 <= j < kept@.len() ==> (#[trigger] result@[j]) == waypoints@[kept@[j] as int],
                forall|j: int| 0 <= j < kept@.len() - 1 ==> (#[trigger] kept@[j]) < kept@[j + 1],
                forall|j: int, m: int|
                    0 <= j < kept@.len() - 1 && (#[trigger] kept@[j]) < m < kept@[j + 1]
                        ==> !(#[trigger] divisions@[m]),
                kept@.len() > 0 ==> forall|m: int|
                    kept@[kept@.len() - 1] < m < idx ==> !(#[trigger] divisions@[m]),
                idx > 0 ==> kept@.len() > 0,
                forall|m: int|
                    0 <= m < idx && #[trigger] divisions@[m] ==> exists|j: int|
                        0 <= j < kept@.len() && (#[trigger] kept@[j]) as int == m,
            decreases n - idx,
        {
            let ghost kept_pre = kept@;
            if divisions[idx] {
                result.push(waypoints[idx]);
                kept.push(idx);
            }
            idx += 1;
            proof {
                assert forall|m: int|
                    0 <= m < idx && #[trigger] divisions@[m] implies exists|j: int|
                    0 <= j < kept@.len() && (#[trigger] kept@[j]) as int == m by {
                    if m == idx - 1 {
                        assert((kept@[kept@.len() - 1]) as int == m);
                    } else {
                        let j = choose|j: int|
                            0 <= j < kept_pre.len() && (#[trigger] kept_pre[j]) as int == m;
                        assert((kept@[j]) as int == m);
                    }
                }
            }
        }
        proof {
            lemma_collect_sound(waypoints@, divisions@, kept@, result@, num, den);
            lemma_collect_is_exact(waypoints@, divisions@, kept@, num, den);
        }
        (result, kept)
    }

    /// Simplified subsequence of `waypoints`: exactly the first and last
    /// points plus the recursion's marks, with every dropped point within
    /// the tolerance of the segment joining the kept points around it.
    pub fn simplify(&self, waypoints: &Vec<Vector2I>) -> (r: Vec<Vector2I>)
        requires
            self.wf(),
            coords_bounded(waypoints@),
        ensures
            exists|kept: Seq<usize>|
                #[trigger] simplification_ok(
                    waypoints@,
                    r@,
                    kept,
                    self.spec_eps_num() as int,
                    self.spec_eps_den() as int,
                ) && rdp_kept_exact(
                    waypoints@,
                    kept,
                    self.spec_eps_num() as int,
                    self.spec_eps_den() as int,
                ),
            waypoints@.len() > 0 ==> r@.len() >= 1 && r@[0] == waypoints@[0] && r@[r@.len() - 1]
                == waypoints@[waypoints@.len() - 1],
            waypoints@.len() == 0 ==> r@.len() == 0,
    {
        let (result, kept) = self.simplify_with_indices(waypoints);
        proof {
            assert(simplification_ok(
                waypoints@,
                result@,
                kept@,
                self.spec_eps_num() as int,
                self.spec_eps_den() as int,
            ) && rdp_kept_exact(
                waypoints@,
                kept@,
                self.spec_eps_num() as int,
                self.spec_eps_den() as int,
            ));
        }
        result
    }
}

/// The kept indices and points form a sound simplification of `ps`: the
/// kept indices are increasing, start at the first point and stop at the
/// last, the kept points are the originals at those indices, and every
/// dropped point lies within the tolerance of the segment joining the kept
/// points around it.
pub open spec fn simplification_ok(
    ps: Seq<Vector2I>,
    kept_points: Seq<Vector2I>,
    kept: Seq<usize>,
    num: int,
    den: int,
) -> bool {
    &&& kept_points.len() == kept.len()
    &&& kept.len() <= ps.len()
    &&& (ps.len() == 0 ==> kept.len() == 0)
    &&& (ps.len() > 0 ==> kept.len() >= 1 && kept[0] == 0 && kept[kept.len() - 1] == ps.len() - 1)
    &&& forall|j: int| 0 <= j < kept.len() ==> 0 <= (#[trigger] kept[j]) < ps.len()
    &&& forall|j: int| 0 <= j < kept.len() ==> (#[trigger] kept_points[j]) == ps[kept[j] as int]
    &&& forall|j: int| 0 <= j < kept.len() - 1 ==> (#[trigger] kept[j]) < kept[j + 1]
    &&& forall|j: int|
        0 <= j < kept.len() - 1 ==> gap_ok(ps, kept[j] as int, #[trigger] kept[j + 1] as int, num, den)
}

/// Collecting, in order, the indices a sound division marks yields a
/// sound and exact simplification.
/// After marking an all-unmarked division with both ends set, the marks
/// are exactly the ends plus the recursion's marks.
proof fn lemma_division_characterized(
    ps: Seq<Vector2I>,
    div0: Seq<bool>,
    div1: Seq<bool>,
    num: int,
    den: int,
)
    requires
        3 <= ps.len(),
        div0.len() == ps.len(),
        div1.len() == ps.len(),
        div0[0],
        div0[ps.len() - 1],
        forall|m: int| 0 < m < ps.len() - 1 ==> !(#[trigger] div0[m]),
        forall|j: int|
            0 <= j < ps.len() ==> #[trigger] div1[j] == (div0[j] || rdp_marks(
                ps,
                num,
                den,
                0,
                ps.len() - 1,
            ).contains(j)),
    ensures
        forall|m: int|
            0 <= m < ps.len() ==> #[trigger] div1[m] == (m == 0 || m == ps.len() - 1 || rdp_marks(
                ps,
                num,
                den,
                0,
                ps.len() - 1,
            ).contains(m)),
{
    assert forall|m: int| 0 <= m < ps.len() implies #[trigger] div1[m] == (m == 0 || m == ps.len()
        - 1 || rdp_marks(ps, num, den, 0, ps.len() - 1).contains(m)) by {
        if rdp_marks(ps, num, den, 0, ps.len() - 1).contains(m) {
            lemma_rdp_marks_interior(ps, num, den, 0, ps.len() - 1, m);
        }
    }
}

/// Collecting, in order, the indices a sound division marks yields a
/// sound simplification.
proof fn lemma_collect_sound(
    ps: Seq<Vector2I>,
    div: Seq<bool>,
    kept: Seq<usize>,
    kept_pts: Seq<Vector2I>,
    num: int,
    den: int,
)
    requires
        3 <= ps.len(),
        div.len() == ps.len(),
        div[0],
        div[ps.len() - 1],
        rdp_ok(ps, div, 0, ps.len() - 1, num, den),
        kept_pts.len() == kept.len(),
        1 <= kept.len() <= ps.len(),
        kept[0] == 0,
        forall|j: int|
            0 <= j < kept.len() ==> 0 <= (#[trigger] kept[j]) < ps.len() && div[kept[j] as int],
        forall|j: int| 0 <= j < kept.len() ==> (#[trigger] kept_pts[j]) == ps[kept[j] as int],
        forall|j: int| 0 <= j < kept.len() - 1 ==> (#[trigger] kept[j]) < kept[j + 1],
        forall|j: int, m: int|
            0 <= j < kept.len() - 1 && (#[trigger] kept[j]) < m < kept[j + 1] ==> !(
            #[trigger] div[m]),
        forall|m: int| kept[kept.len() - 1] < m < ps.len() ==> !(#[trigger] div[m]),
    ensures
        simplification_ok(ps, kept_pts, kept, num, den),
{
    let n = ps.len() as int;
    assert(kept[kept.len() - 1] == n - 1) by {
        let last = kept[kept.len() - 1];
        if last < n - 1 {
            assert(!div[n - 1]);
        }
    }
    assert forall|j: int| 0 <= j < kept.len() - 1 implies gap_ok(
        ps,
        kept[j] as int,
        #[trigger] kept[j + 1] as int,
        num,
        den,
    ) by {
        let a = kept[j] as int;
        let b = kept[j + 1] as int;
        assert(0 <= a < b <= n - 1);
        assert(div[a] && div[b]);
        assert(forall|m: int| a < m < b ==> !div[m]);
        assert(rdp_ok(ps, div, 0, n - 1, num, den));
    }
}

/// The collected indices are exactly the ends and the recursion's marks.
proof fn lemma_collect_is_exact(
    ps: Seq<Vector2I>,
    div: Seq<bool>,
    kept: Seq<usize>,
    num: int,
    den: int,
)
    requires
        3 <= ps.len(),
        div.len() == ps.len(),
        forall|m: int|
            0 <= m < ps.len() ==> #[trigger] div[m] == (m == 0 || m == ps.len() - 1 || rdp_marks(
                ps,
                num,
                den,
                0,
                ps.len() - 1,
            ).contains(m)),
        forall|j: int|
            0 <= j < kept.len() ==> 0 <= (#[trigger] kept[j]) < ps.len() && div[kept[j] as int],
        forall|m: int|
            0 <= m < ps.len() && #[trigger] div[m] ==> exists|j: int|
                0 <= j < kept.len() && (#[trigger] kept[j]) as int == m,
    ensures
        rdp_kept_exact(ps, kept, num, den),
{
    let n = ps.len() as int;
    let marks = rdp_marks(ps, num, den, 0, n - 1);
    assert forall|j: int| 0 <= j < kept.len() implies ((#[trigger] kept[j]) == 0 || kept[j] == n
        - 1 || marks.contains(kept[j] as int)) by {
        assert(div[kept[j] as int]);
    }
    assert forall|m: int| 0 < m < n - 1 && #[trigger] marks.contains(m) implies exists|j: int|
        0 <= j < kept.len() && (#[trigger] kept[j]) as int == m by {
        assert(div[m]);
    }
}

/// Squares are nonnegative.
proof fn lemma_sq_nonneg(a: int)
    ensures
        a * a >= 0,
{
    assert(a * a >= 0) by (nonlinear_arith);
}

/// Products of bounded factors stay bounded.
pub proof fn lemma_mul_bound(a: int, b: int, m: int, n: int)
    requires
        -m <= a <= m,
        -n <= b <= n,
        0 <= m,
        0 <= n,
    ensures
        -(m * n) <= a * b <= m * n,
{
    assert(-(m * n) <= a * b <= m * n) by (nonlinear_arith)
        requires
            -m <= a <= m,
            -n <= b <= n,
            0 <= m,
            0 <= n,
    ;
}

} // verus!
