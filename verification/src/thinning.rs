//! Zhang-Suen thinning of a boolean grid.
//!
//! The foreground (`true`) region is iteratively pruned to a one-pixel-wide
//! skeleton.  Each outer iteration runs two sub-passes; a sub-pass first
//! marks every prunable interior pixel against the unchanged image and then
//! sweeps the marks, so no pixel is pruned on account of another pixel
//! pruned in the same sub-pass.  The loop stops when a full outer iteration
//! removes nothing, so the result is a fixed point of both sub-passes: a
//! second run removes zero pixels.

use vstd::prelude::*;

use crate::arr2::{self, BoolArray2};
use crate::bool_grid::BoolGrid;
use crate::seq_util;

verus! {

/// Horizontal offset of the k-th ring neighbor, in the fixed order
/// P2..P9 of Zhang-Suen: the ring starts above the pixel and proceeds
/// clockwise.
pub open spec fn ring_dx(k: int) -> int {
    if k == 0 {
        0
    } else if k == 1 {
        1
    } else if k == 2 {
        1
    } else if k == 3 {
        1
    } else if k == 4 {
        0
    } else if k == 5 {
        -1
    } else if k == 6 {
        -1
    } else {
        -1
    }
}

/// Vertical offset of the k-th ring neighbor.
pub open spec fn ring_dy(k: int) -> int {
    if k == 0 {
        -1
    } else if k == 1 {
        -1
    } else if k == 2 {
        0
    } else if k == 3 {
        1
    } else if k == 4 {
        1
    } else if k == 5 {
        1
    } else if k == 6 {
        0
    } else {
        -1
    }
}

/// The k-th ring neighbor of `(x, y)`, as a foreground flag.
pub open spec fn ring_at(s: Seq<bool>, w: int, x: int, y: int, k: int) -> bool {
    BoolGrid::at(s, w, y + ring_dy(k), x + ring_dx(k))
}

/// Condition B: the number of foreground neighbors of `(x, y)`.
pub open spec fn cond_b(s: Seq<bool>, w: int, x: int, y: int) -> int {
    let n0: int = if ring_at(s, w, x, y, 0) { 1 } else { 0 };
    let n1: int = if ring_at(s, w, x, y, 1) { 1 } else { 0 };
    let n2: int = if ring_at(s, w, x, y, 2) { 1 } else { 0 };
    let n3: int = if ring_at(s, w, x, y, 3) { 1 } else { 0 };
    let n4: int = if ring_at(s, w, x, y, 4) { 1 } else { 0 };
    let n5: int = if ring_at(s, w, x, y, 5) { 1 } else { 0 };
    let n6: int = if ring_at(s, w, x, y, 6) { 1 } else { 0 };
    let n7: int = if ring_at(s, w, x, y, 7) { 1 } else { 0 };
    n0 + n1 + n2 + n3 + n4 + n5 + n6 + n7
}

/// One vacant-to-foreground transition between ring slots `k` and `k + 1`.
pub open spec fn ring_transition(s: Seq<bool>, w: int, x: int, y: int, k: int) -> bool {
    !ring_at(s, w, x, y, k % 8) && ring_at(s, w, x, y, (k + 1) % 8)
}

/// Condition A: the number of vacant-to-foreground transitions walking the
/// ring P2, P3, ..., P9, P2.
pub open spec fn cond_a(s: Seq<bool>, w: int, x: int, y: int) -> int {
    let t0: int = if ring_transition(s, w, x, y, 0) { 1 } else { 0 };
    let t1: int = if ring_transition(s, w, x, y, 1) { 1 } else { 0 };
    let t2: int = if ring_transition(s, w, x, y, 2) { 1 } else { 0 };
    let t3: int = if ring_transition(s, w, x, y, 3) { 1 } else { 0 };
    let t4: int = if ring_transition(s, w, x, y, 4) { 1 } else { 0 };
    let t5: int = if ring_transition(s, w, x, y, 5) { 1 } else { 0 };
    let t6: int = if ring_transition(s, w, x, y, 6) { 1 } else { 0 };
    let t7: int = if ring_transition(s, w, x, y, 7) { 1 } else { 0 };
    t0 + t1 + t2 + t3 + t4 + t5 + t6 + t7
}

/// At least one of the ring slots `a`, `b`, `c` is vacant.
pub open spec fn some_vacant(s: Seq<bool>, w: int, x: int, y: int, a: int, b: int, c: int) -> bool {
    !ring_at(s, w, x, y, a) || !ring_at(s, w, x, y, b) || !ring_at(s, w, x, y, c)
}

/// Whether the pixel `(x, y)` is pruned by the given sub-pass on image `s`.
///
/// Only interior foreground pixels with 2 <= B <= 6, A = 1 and the
/// sub-pass's two vacancy conditions are pruned.  Sub-pass 1 requires a
/// vacancy among {P2, P4, P6} and among {P4, P6, P8}; sub-pass 2 among
/// {P2, P4, P8} and among {P2, P6, P8}.
pub open spec fn prunable(s: Seq<bool>, h: int, w: int, x: int, y: int, first_sub: bool) -> bool {
    &&& 1 <= x < w - 1
    &&& 1 <= y < h - 1
    &&& BoolGrid::at(s, w, y, x)
    &&& 2 <= cond_b(s, w, x, y) <= 6
    &&& cond_a(s, w, x, y) == 1
    &&& if first_sub {
        some_vacant(s, w, x, y, 0, 2, 4) && some_vacant(s, w, x, y, 2, 4, 6)
    } else {
        some_vacant(s, w, x, y, 0, 2, 6) && some_vacant(s, w, x, y, 0, 4, 6)
    }
}

/// The image a sub-pass leaves behind: prunable pixels become vacant.
pub open spec fn pass_result(s: Seq<bool>, h: int, w: int, first_sub: bool) -> Seq<bool> {
    Seq::new(s.len(), |k: int| s[k] && !prunable(s, h, w, k % w, k / w, first_sub))
}

/// No pixel of `s` is prunable by the given sub-pass.
pub open spec fn no_prunable(s: Seq<bool>, h: int, w: int, first_sub: bool) -> bool {
    forall|x: int, y: int| !#[trigger] prunable(s, h, w, x, y, first_sub)
}

/// No pixel of `s` is prunable by either sub-pass: another full outer
/// iteration of the thinner would remove nothing.
pub open spec fn is_thinning_fixed_point(s: Seq<bool>, h: int, w: int) -> bool {
    no_prunable(s, h, w, true) && no_prunable(s, h, w, false)
}

/// The thinning result itself: iterate the two sub-passes until a full
/// outer iteration removes nothing.
pub open spec fn spec_thin(s: Seq<bool>, h: int, w: int) -> Seq<bool>
    decreases count_foreground(s),
    via spec_thin_decreases
{
    let s2 = pass_result(pass_result(s, h, w, true), h, w, false);
    if s2 == s {
        s
    } else {
        spec_thin(s2, h, w)
    }
}

#[via_fn]
proof fn spec_thin_decreases(s: Seq<bool>, h: int, w: int) {
    let s1 = pass_result(s, h, w, true);
    let s2 = pass_result(s1, h, w, false);
    if s2 != s {
        assert(s1.len() == s.len() && s2.len() == s.len());
        assert(forall|k: int| 0 <= k < s.len() && #[trigger] s2[k] ==> s1[k]);
        assert(forall|k: int| 0 <= k < s.len() && #[trigger] s1[k] ==> s[k]);
        assert(forall|k: int| 0 <= k < s.len() && #[trigger] s2[k] ==> s[k]);
        if forall|k: int| 0 <= k < s.len() ==> #[trigger] s2[k] == s[k] {
            assert(s2 =~= s);
        }
        let k = choose|k: int| 0 <= k < s.len() && #[trigger] s2[k] != s[k];
        seq_util::lemma_count_if_pointwise_lt(s, s2, |b: bool| b, k);
    }
}

/// The sweep has cleared the marked pixels among the first `k`.
pub open spec fn sweep_ok(g: Seq<bool>, s0: Seq<bool>, marks: Seq<bool>, k: int) -> bool {
    forall|j: int|
        0 <= j < g.len() ==> g[j] == (if j < k {
            s0[j] && !marks[j]
        } else {
            s0[j]
        })
}

/// Number of foreground pixels.
pub open spec fn count_foreground(s: Seq<bool>) -> nat {
    seq_util::count_if(s, |b: bool| b)
}

/// The part of the skeleton-width claim that holds of every fixed point:
/// a 2x2 block of foreground pixels surviving in the interior is never
/// free-standing at its corner; its top-left pixel keeps a foreground
/// neighbor above, to the left, or diagonally above-left, outside the
/// block.  (The stronger classical claim, that no 2x2 foreground block
/// survives at all, fails on some inputs: a block whose four pixels each
/// carry one diagonal spur is a fixed point of both sub-passes.)
pub proof fn lemma_surviving_block_has_outside_support(
    s: Seq<bool>,
    h: int,
    w: int,
    x: int,
    y: int,
)
    requires
        is_thinning_fixed_point(s, h, w),
        s.len() == h * w,
        1 <= x < w - 1,
        1 <= y < h - 1,
        BoolGrid::at(s, w, y, x),
        BoolGrid::at(s, w, y, x + 1),
        BoolGrid::at(s, w, y + 1, x),
        BoolGrid::at(s, w, y + 1, x + 1),
    ensures
        BoolGrid::at(s, w, y - 1, x) || BoolGrid::at(s, w, y, x - 1) || BoolGrid::at(
            s,
            w,
            y - 1,
            x - 1,
        ),
{
    if !(BoolGrid::at(s, w, y - 1, x) || BoolGrid::at(s, w, y, x - 1) || BoolGrid::at(
        s,
        w,
        y - 1,
        x - 1,
    )) {
        // With the three outside neighbors vacant, the top-left pixel of
        // the block satisfies every condition of sub-pass 1, so a fixed
        // point cannot contain it.
        assert(!ring_at(s, w, x, y, 0));
        assert(!ring_at(s, w, x, y, 6));
        assert(!ring_at(s, w, x, y, 7));
        assert(ring_at(s, w, x, y, 2));
        assert(ring_at(s, w, x, y, 3));
        assert(ring_at(s, w, x, y, 4));
        assert(2 <= cond_b(s, w, x, y) <= 6);
        assert(cond_a(s, w, x, y) == 1);
        assert(prunable(s, h, w, x, y, true));
        assert(!prunable(s, h, w, x, y, true));
        assert(false);
    }
}

pub struct ZhangSuenThinningAlgorithm {
    image: BoolGrid,
}

impl ZhangSuenThinningAlgorithm {
    /// The scratch image between runs: empty except mid-run.
    pub closed spec fn spec_scratch(&self) -> Seq<bool> {
        self.image.grid()
    }

    pub fn new() -> (r: Self)
        ensures
            r.spec_scratch().len() == 0,
    {
        ZhangSuenThinningAlgorithm { image: BoolGrid::filled(0, 0, false) }
    }

    /// Read the eight ring neighbors of the interior pixel `(x, y)`.
    fn ring(g: &BoolGrid, x: usize, y: usize) -> (r: (bool, bool, bool, bool, bool, bool, bool, bool))
        requires
            g.wf(),
            1 <= x < g.spec_width() - 1,
            1 <= y < g.spec_height() - 1,
        ensures
            r.0 == ring_at(g.grid(), g.spec_width() as int, x as int, y as int, 0),
            r.1 == ring_at(g.grid(), g.spec_width() as int, x as int, y as int, 1),
            r.2 == ring_at(g.grid(), g.spec_width() as int, x as int, y as int, 2),
            r.3 == ring_at(g.grid(), g.spec_width() as int, x as int, y as int, 3),
            r.4 == ring_at(g.grid(), g.spec_width() as int, x as int, y as int, 4),
            r.5 == ring_at(g.grid(), g.spec_width() as int, x as int, y as int, 5),
            r.6 == ring_at(g.grid(), g.spec_width() as int, x as int, y as int, 6),
            r.7 == ring_at(g.grid(), g.spec_width() as int, x as int, y as int, 7),
    {
        (
            g.get(y - 1, x),
            g.get(y - 1, x + 1),
            g.get(y, x + 1),
            g.get(y + 1, x + 1),
            g.get(y + 1, x),
            g.get(y + 1, x - 1),
            g.get(y, x - 1),
            g.get(y - 1, x - 1),
        )
    }

    /// Whether the given sub-pass prunes the interior pixel `(x, y)`.
    fn is_prunable(g: &BoolGrid, x: usize, y: usize, first_sub: bool) -> (r: bool)
        requires
            g.wf(),
            1 <= x < g.spec_width() - 1,
            1 <= y < g.spec_height() - 1,
        ensures
            r == prunable(
                g.grid(),
                g.spec_height() as int,
                g.spec_width() as int,
                x as int,
                y as int,
                first_sub,
            ),
    {
        if !g.get(y, x) {
            return false;
        }
        let (n0, n1, n2, n3, n4, n5, n6, n7) = Self::ring(g, x, y);
        let mut b: u32 = 0;
        if n0 {
            b += 1;
        }
        if n1 {
            b += 1;
        }
        if n2 {
            b += 1;
        }
        if n3 {
            b += 1;
        }
        if n4 {
            b += 1;
        }
        if n5 {
            b += 1;
        }
        if n6 {
            b += 1;
        }
        if n7 {
            b += 1;
        }
        if b < 2 || b > 6 {
            return false;
        }
        let mut a: u32 = 0;
        if !n0 && n1 {
            a += 1;
        }
        if !n1 && n2 {
            a += 1;
        }
        if !n2 && n3 {
            a += 1;
        }
        if !n3 && n4 {
            a += 1;
        }
        if !n4 && n5 {
            a += 1;
        }
        if !n5 && n6 {
            a += 1;
        }
        if !n6 && n7 {
            a += 1;
        }
        if !n7 && n0 {
            a += 1;
        }
        if a != 1 {
            return false;
        }
        if first_sub {
            (!n0 || !n2 || !n4) && (!n2 || !n4 || !n6)
        } else {
            (!n0 || !n2 || !n6) && (!n0 || !n4 || !n6)
        }
    }

    /// One marking-and-sweeping sub-pass over the working image.
    #[verifier::rlimit(100)]
    fn single_pass(&mut self, first_sub: bool) -> (pruned: usize)
        requires
            old(self).image.wf(),
        ensures
            final(self).image.wf(),
            final(self).image.spec_width() == old(self).image.spec_width(),
            final(self).image.spec_height() == old(self).image.spec_height(),
            final(self).image.grid() =~= pass_result(
                old(self).image.grid(),
                old(self).image.spec_height() as int,
                old(self).image.spec_width() as int,
                first_sub,
            ),
            (pruned == 0) <==> no_prunable(
                old(self).image.grid(),
                old(self).image.spec_height() as int,
                old(self).image.spec_width() as int,
                first_sub,
            ),
            pruned == 0 ==> final(self).image.grid() == old(self).image.grid(),
            count_foreground(final(self).image.grid()) + pruned == count_foreground(
                old(self).image.grid(),
            ),
    {
        let ghost s0 = self.image.grid();
        let ghost hh = self.image.spec_height() as int;
        let ghost ww = self.image.spec_width() as int;
        let height: usize = self.image.height();
        let width: usize = self.image.width();

        // Mark phase: record, against the unchanged image, which pixels the
        // sub-pass prunes.
        let mut marks: Vec<bool> = Vec::new();
        let mut y: usize = 0;
        while y < height
            invariant
                self.image.wf(),
                self.image.grid() == s0,
                self.image.spec_height() == height,
                self.image.spec_width() == width,
                hh == height as int,
                ww == width as int,
                y <= height,
                marks@.len() == y * width,
                forall|k: int|
                    0 <= k < y * width ==> marks@[k] == prunable(s0, hh, ww, k % ww, k / ww, first_sub),
            decreases height - y,
        {
            let mut x: usize = 0;
            while x < width
                invariant
                    self.image.wf(),
                    self.image.grid() == s0,
                    self.image.spec_height() == height,
                    self.image.spec_width() == width,
                    hh == height as int,
                    ww == width as int,
                    y < height,
                    x <= width,
                    marks@.len() == y * width + x,
                    forall|k: int|
                        0 <= k < y * width + x ==> marks@[k] == prunable(
                            s0,
                            hh,
                            ww,
                            k % ww,
                            k / ww,
                            first_sub,
                        ),
                decreases width - x,
            {
                let m: bool = if x == 0 || x == width - 1 || y == 0 || y == height - 1 {
                    false
                } else {
                    Self::is_prunable(&self.image, x, y, first_sub)
                };
                marks.push(m);
                proof {
                    seq_util::lemma_row_major_divmod(y as int, x as int, ww);
                }
                x += 1;
            }
            y += 1;
            proof {
                assert((y - 1) * width + width == y * width) by (nonlinear_arith);
            }
        }
        proof {
            assert(marks@.len() == s0.len());
        }

        // Sweep phase: clear the marked pixels, counting removals.
        let total: usize = marks.len();
        let mut pruned: usize = 0;
        let mut k: usize = 0;
        while k < total
            invariant
                self.image.wf(),
                self.image.spec_height() == height,
                self.image.spec_width() == width,
                hh == height as int,
                ww == width as int,
                total == marks@.len(),
                total == s0.len(),
                self.image.grid().len() == s0.len(),
                k <= total,
                sweep_ok(self.image.grid(), s0, marks@, k as int),
                forall|j: int|
                    0 <= j < total ==> marks@[j] == prunable(s0, hh, ww, j % ww, j / ww, first_sub),
                pruned == seq_util::count_if(marks@.take(k as int), |b: bool| b),
                pruned <= k,
            decreases total - k,
        {
            proof {
                assert(marks@.take(k + 1).drop_last() =~= marks@.take(k as int));
            }
            let ghost gk = self.image.grid();
            if marks[k] {
                self.image.set_flat(k, false);
                pruned += 1;
                proof {
                    assert(self.image.grid() == gk.update(k as int, false));
                }
            }
            proof {
                assert forall|j: int| 0 <= j < self.image.grid().len() implies self.image.grid()[j]
                    == (if j < k + 1 {
                    s0[j] && !marks@[j]
                } else {
                    s0[j]
                }) by {
                    assert(gk[j] == (if j < k as int {
                        s0[j] && !marks@[j]
                    } else {
                        s0[j]
                    }));
                    if marks@[k as int] {
                        assert(self.image.grid() == gk.update(k as int, false));
                    } else {
                        assert(self.image.grid() == gk);
                    }
                }
                assert(sweep_ok(self.image.grid(), s0, marks@, k + 1));
            }
            k += 1;
        }

        proof {
            let f = |b: bool| b;
            assert(marks@.take(total as int) =~= marks@);
            // The final image is exactly the sub-pass's specified result.
            assert forall|j: int| 0 <= j < s0.len() implies self.image.grid()[j] == pass_result(
                s0,
                hh,
                ww,
                first_sub,
            )[j] by {
                assert(sweep_ok(self.image.grid(), s0, marks@, total as int));
                assert(self.image.grid()[j] == (s0[j] && !marks@[j]));
                assert(marks@[j] == prunable(s0, hh, ww, j % ww, j / ww, first_sub));
            }
            assert(self.image.grid() =~= pass_result(s0, hh, ww, first_sub));
            // pruned == 0 exactly when nothing was prunable.
            seq_util::lemma_count_if_zero(marks@, f);
            if pruned == 0 {
                assert forall|x: int, y2: int| !#[trigger] prunable(s0, hh, ww, x, y2, first_sub) by {
                    if 0 <= x < ww && 0 <= y2 < hh {
                        seq_util::lemma_row_major_divmod(y2, x, ww);
                        crate::grid_map::GridMap::lemma_row_major(y2, x, hh, ww);
                        assert(!marks@[y2 * ww + x]);
                    }
                }
                assert forall|j: int| 0 <= j < s0.len() implies self.image.grid()[j] == s0[j] by {
                    assert(!marks@[j]);
                }
                assert(self.image.grid() =~= s0);
            } else {
                assert(!(forall|j: int| 0 <= j < marks@.len() ==> !f(marks@[j])));
            }
            // A marked pixel stood foreground: pruning it drops the count.
            assert forall|j: int| 0 <= j < s0.len() && marks@[j] implies s0[j] by {
                assert(s0.len() == hh * ww);
                assert(ww != 0);
                vstd::arithmetic::div_mod::lemma_fundamental_div_mod(j, ww);
                assert(marks@[j] == prunable(s0, hh, ww, j % ww, j / ww, first_sub));
                assert(BoolGrid::at(s0, ww, j / ww, j % ww) == s0[(j / ww) * ww + (j % ww)]);
                assert((j / ww) * ww + (j % ww) == j);
            }
            lemma_sweep_count(s0, marks@, self.image.grid(), pruned as nat);
        }
        pruned
    }

    /// Thin the grid's foreground to a one-pixel-wide skeleton.
    ///
    /// The result is exactly `spec_thin` of the input — the deterministic
    /// iteration of the two sub-passes to their joint fixed point: a
    /// pointwise subset of the input that differs only in interior pixels.
    /// Running the thinner on a fixed point (in particular on its own
    /// output) removes zero pixels and returns the image unchanged.
    pub fn thin_grid(&mut self, grid: &BoolGrid) -> (r: BoolGrid)
        requires
            grid.wf(),
        ensures
            final(self).spec_scratch().len() == 0,
            r.grid() == spec_thin(
                grid.grid(),
                grid.spec_height() as int,
                grid.spec_width() as int,
            ),
            r.wf(),
            r.spec_width() == grid.spec_width(),
            r.spec_height() == grid.spec_height(),
            forall|k: int| 0 <= k < r.grid().len() ==> (r.grid()[k] ==> grid.grid()[k]),
            is_thinning_fixed_point(
                r.grid(),
                grid.spec_height() as int,
                grid.spec_width() as int,
            ),
            is_thinning_fixed_point(
                grid.grid(),
                grid.spec_height() as int,
                grid.spec_width() as int,
            ) ==> r.grid() == grid.grid(),
            forall|x: int, y: int|
                0 <= x < grid.spec_width() && 0 <= y < grid.spec_height() && !(1 <= x
                    < grid.spec_width() - 1 && 1 <= y < grid.spec_height() - 1)
                    ==> #[trigger] BoolGrid::at(r.grid(), grid.spec_width() as int, y, x)
                    == BoolGrid::at(grid.grid(), grid.spec_width() as int, y, x),
    {
        let ghost s0 = grid.grid();
        let ghost hh = grid.spec_height() as int;
        let ghost ww = grid.spec_width() as int;
        self.image = grid.clone_grid();
        loop
            invariant
                self.image.wf(),
                self.image.spec_height() as int == hh,
                self.image.spec_width() as int == ww,
                self.image.grid().len() == s0.len(),
                forall|k: int| 0 <= k < s0.len() ==> (self.image.grid()[k] ==> s0[k]),
                is_thinning_fixed_point(s0, hh, ww) ==> self.image.grid() == s0,
                spec_thin(self.image.grid(), hh, ww) == spec_thin(s0, hh, ww),
                forall|x: int, y: int|
                    0 <= x < ww && 0 <= y < hh && !(1 <= x < ww - 1 && 1 <= y < hh - 1)
                        ==> #[trigger] BoolGrid::at(self.image.grid(), ww, y, x) == BoolGrid::at(
                        s0,
                        ww,
                        y,
                        x,
                    ),
            ensures
                self.image.wf(),
                self.image.spec_height() as int == hh,
                self.image.spec_width() as int == ww,
                forall|k: int| 0 <= k < s0.len() ==> (self.image.grid()[k] ==> s0[k]),
                is_thinning_fixed_point(self.image.grid(), hh, ww),
                self.image.grid() == spec_thin(s0, hh, ww),
                is_thinning_fixed_point(s0, hh, ww) ==> self.image.grid() == s0,
                forall|x: int, y: int|
                    0 <= x < ww && 0 <= y < hh && !(1 <= x < ww - 1 && 1 <= y < hh - 1)
                        ==> #[trigger] BoolGrid::at(self.image.grid(), ww, y, x) == BoolGrid::at(
                        s0,
                        ww,
                        y,
                        x,
                    ),
            decreases count_foreground(self.image.grid()),
        {
            let ghost before = self.image.grid();
            let p1 = self.single_pass(true);
            let ghost mid = self.image.grid();
            let p2 = self.single_pass(false);
            proof {
                lemma_pass_keeps_frame(before, mid, hh, ww, true);
                lemma_pass_keeps_frame(mid, self.image.grid(), hh, ww, false);
                // One spec step of the iterated thinning.
                let after = self.image.grid();
                assert(mid == pass_result(before, hh, ww, true));
                assert(after == pass_result(mid, hh, ww, false));
                if p1 == 0 && p2 == 0 {
                    assert(after == before);
                    assert(spec_thin(before, hh, ww) == before);
                } else {
                    assert(count_foreground(after) < count_foreground(before));
                    assert(after != before);
                    assert(spec_thin(before, hh, ww) == spec_thin(after, hh, ww));
                }
                if is_thinning_fixed_point(s0, hh, ww) {
                    assert(before == s0);
                    assert(no_prunable(before, hh, ww, true));
                    assert(p1 == 0);
                    assert(mid == before);
                    assert(no_prunable(mid, hh, ww, false));
                    assert(p2 == 0);
                }
            }
            if p1 == 0 && p2 == 0 {
                proof {
                    assert(mid == before);
                    assert(self.image.grid() == before);
                    let after = self.image.grid();
                    assert(no_prunable(after, hh, ww, true));
                    assert(no_prunable(after, hh, ww, false));
                }
                break ;
            }
        }
        let r = self.image.clone_grid();
        self.image = BoolGrid::filled(0, 0, false);
        r
    }

    /// Run the thinner on an occupancy image held in an ndarray buffer.
    pub fn run(&mut self, occupancy_map: &BoolArray2) -> (r: BoolArray2)
        ensures
            final(self).spec_scratch().len() == 0,
            arr2::bool_grid_of(r) == spec_thin(
                arr2::bool_grid_of(*occupancy_map),
                arr2::bool_grid_dim_of(*occupancy_map).0 as int,
                arr2::bool_grid_dim_of(*occupancy_map).1 as int,
            ),
            arr2::bool_grid_dim_of(r) == arr2::bool_grid_dim_of(*occupancy_map),
            forall|k: int|
                0 <= k < arr2::bool_grid_of(r).len() ==> (arr2::bool_grid_of(r)[k]
                    ==> arr2::bool_grid_of(*occupancy_map)[k]),
            is_thinning_fixed_point(
                arr2::bool_grid_of(r),
                arr2::bool_grid_dim_of(*occupancy_map).0 as int,
                arr2::bool_grid_dim_of(*occupancy_map).1 as int,
            ),
            is_thinning_fixed_point(
                arr2::bool_grid_of(*occupancy_map),
                arr2::bool_grid_dim_of(*occupancy_map).0 as int,
                arr2::bool_grid_dim_of(*occupancy_map).1 as int,
            ) ==> arr2::bool_grid_of(r) == arr2::bool_grid_of(*occupancy_map),
            forall|x: int, y: int|
                #![trigger BoolGrid::at(arr2::bool_grid_of(r), arr2::bool_grid_dim_of(*occupancy_map).1 as int, y, x)]
                ({
                    let h = arr2::bool_grid_dim_of(*occupancy_map).0 as int;
                    let w = arr2::bool_grid_dim_of(*occupancy_map).1 as int;
                    0 <= x < w && 0 <= y < h && !(1 <= x < w - 1 && 1 <= y < h - 1)
                        ==> BoolGrid::at(arr2::bool_grid_of(r), w, y, x) == BoolGrid::at(
                        arr2::bool_grid_of(*occupancy_map),
                        w,
                        y,
                        x,
                    )
                }),
    {
        let g = BoolGrid::from_array(occupancy_map);
        let thinned = self.thin_grid(&g);
        thinned.to_array()
    }
}

/// A sub-pass changes nothing outside the interior, and the marked pixels
/// are exactly what the count accounts for.
proof fn lemma_sweep_count(s0: Seq<bool>, marks: Seq<bool>, s1: Seq<bool>, pruned: nat)
    requires
        marks.len() == s0.len(),
        s1.len() == s0.len(),
        forall|j: int| 0 <= j < s0.len() ==> s1[j] == (s0[j] && !marks[j]),
        forall|j: int| 0 <= j < s0.len() ==> (marks[j] ==> s0[j]),
        pruned == seq_util::count_if(marks, |b: bool| b),
    ensures
        count_foreground(s1) + pruned == count_foreground(s0),
    decreases s0.len(),
{
    let f = |b: bool| b;
    if s0.len() > 0 {
        let n = s0.len() - 1;
        assert(forall|j: int| 0 <= j < n ==> s0.drop_last()[j] == s0[j]);
        assert(forall|j: int| 0 <= j < n ==> s1.drop_last()[j] == s1[j]);
        assert(forall|j: int| 0 <= j < n ==> marks.drop_last()[j] == marks[j]);
        lemma_sweep_count(
            s0.drop_last(),
            marks.drop_last(),
            s1.drop_last(),
            seq_util::count_if(marks.drop_last(), f),
        );
    }
}

/// A sub-pass that leaves the marked set empty leaves the image unchanged,
/// and any sub-pass keeps pixels only where they stood.
proof fn lemma_pass_keeps_frame(s0: Seq<bool>, s1: Seq<bool>, h: int, w: int, first_sub: bool)
    requires
        s0.len() == h * w,
        s1 =~= pass_result(s0, h, w, first_sub),
    ensures
        forall|k: int| 0 <= k < s0.len() ==> (s1[k] ==> s0[k]),
        forall|x: int, y: int|
            0 <= x < w && 0 <= y < h && !(1 <= x < w - 1 && 1 <= y < h - 1) ==> #[trigger] BoolGrid::at(
                s1,
                w,
                y,
                x,
            ) == BoolGrid::at(s0, w, y, x),
{
    assert forall|x: int, y: int|
        0 <= x < w && 0 <= y < h && !(1 <= x < w - 1 && 1 <= y < h - 1) implies #[trigger] BoolGrid::at(
        s1,
        w,
        y,
        x,
    ) == BoolGrid::at(s0, w, y, x) by {
        crate::grid_map::GridMap::lemma_row_major(y, x, h, w);
        seq_util::lemma_row_major_divmod(y, x, w);
    }
}

} // verus!
