//! Which control points and parameters each piece of a PPW curve is built from.
//!
//! A PPW curve is drawn segment by segment; each segment blends two rational
//! Bézier arcs over neighbouring control points. The arithmetic lives with the
//! caller; this module decides, for a path, which points, weights and
//! phi / psi pair each segment uses.

use vstd::prelude::*;
use crate::path::{PPWPath, spec_valid};

verus! {

/// Converts PPW paths into polylines.
pub struct PPWCurve;

/// One segment of a PPW curve, by the indices of what it is built from.
#[derive(Debug, Clone, Copy, PartialEq, Eq, Structural)]
pub enum CurvePiece {
    /// A straight line between two control points (a two-point path).
    Line { from: usize, to: usize },
    /// The first segment of an open path: a line from `cp1` to `cp2` blended
    /// with the arc over `cp1, cp2, cp3`.
    Start { cp1: usize, cp2: usize, cp3: usize, w2: usize, param: usize },
    /// An inner segment: the arcs over `cp0, cp1, cp2` and `cp1, cp2, cp3`, blended.
    Middle { cp0: usize, cp1: usize, cp2: usize, cp3: usize, w1: usize, w2: usize, param: usize },
    /// The last segment of an open path: the arc over `cp0, cp1, cp2` blended
    /// with a line from `cp1` to `cp2`.
    End { cp0: usize, cp1: usize, cp2: usize, w1: usize, param: usize },
}

/// The inner segment starting at point `i` of a closed path of `n` points.
pub open spec fn closed_piece(n: int, i: int) -> CurvePiece {
    CurvePiece::Middle {
        cp0: ((i + n - 1) % n) as usize,
        cp1: i as usize,
        cp2: ((i + 1) % n) as usize,
        cp3: ((i + 2) % n) as usize,
        w1: (i % n) as usize,
        w2: ((i + 1) % n) as usize,
        param: i as usize,
    }
}

/// The inner segment starting at point `i` of an open path.
pub open spec fn open_piece(i: int) -> CurvePiece {
    CurvePiece::Middle {
        cp0: (i - 1) as usize,
        cp1: i as usize,
        cp2: (i + 1) as usize,
        cp3: (i + 2) as usize,
        w1: i as usize,
        w2: (i + 1) as usize,
        param: i as usize,
    }
}

/// The segments of the curve of a path with `n` control points: none for an
/// invalid path or a single point, one line for two points, `n` inner
/// segments when closed, and for an open path a start segment, `n - 3` inner
/// ones and an end segment.
pub open spec fn spec_segment_plan(n: int, is_closed: bool, valid: bool) -> Seq<CurvePiece> {
    if !valid || n == 1 {
        Seq::empty()
    } else if n == 2 {
        seq![CurvePiece::Line { from: 0, to: 1 }]
    } else if is_closed {
        Seq::new(n as nat, |i: int| closed_piece(n, i))
    } else {
        seq![CurvePiece::Start { cp1: 0, cp2: 1, cp3: 2, w2: 1, param: 0 }] + Seq::new(
            (n - 3) as nat,
            |k: int| open_piece(k + 1),
        ) + seq![CurvePiece::End { cp0: (n - 3) as usize, cp1: (n - 2) as usize, cp2: (n - 1) as usize, w1: (n - 2) as usize, param: (n - 2) as usize }]
    }
}

/// In the plan of a valid closed path of `n >= 3` points there are `n`
/// segments, and segment `i` is built round the closure from the point before
/// point `i` (the last point, for `i == 0`), point `i` itself and the two points
/// after it (wrapping to the first points), with weights `i` and the next
/// point's, and phi / psi pair `i`.
pub proof fn lemma_closed_plan_uses_cyclic_neighbours(n: int, i: int)
    requires
        3 <= n,
        0 <= i < n,
    ensures
        spec_segment_plan(n, true, true).len() == n,
        spec_segment_plan(n, true, true)[i] == (CurvePiece::Middle {
            cp0: (if i == 0 { n - 1 } else { i - 1 }) as usize,
            cp1: i as usize,
            cp2: (if i + 1 < n { i + 1 } else { 0 }) as usize,
            cp3: (if i + 2 < n { i + 2 } else { i + 2 - n }) as usize,
            w1: i as usize,
            w2: (if i + 1 < n { i + 1 } else { 0 }) as usize,
            param: i as usize,
        }),
{
    if i == 0 {
        vstd::arithmetic::div_mod::lemma_small_mod((n - 1) as nat, n as nat);
    } else {
        vstd::arithmetic::div_mod::lemma_mod_add_multiples_vanish(i - 1, n);
        vstd::arithmetic::div_mod::lemma_small_mod((i - 1) as nat, n as nat);
    }
    if i + 1 < n {
        vstd::arithmetic::div_mod::lemma_small_mod((i + 1) as nat, n as nat);
    } else {
        vstd::arithmetic::div_mod::lemma_mod_self_0(n);
    }
    if i + 2 < n {
        vstd::arithmetic::div_mod::lemma_small_mod((i + 2) as nat, n as nat);
    } else {
        vstd::arithmetic::div_mod::lemma_mod_add_multiples_vanish(i + 2 - n, n);
        vstd::arithmetic::div_mod::lemma_small_mod((i + 2 - n) as nat, n as nat);
    }
    vstd::arithmetic::div_mod::lemma_small_mod(i as nat, n as nat);
}

/// In the plan of a valid open path of `n >= 3` points there are `n - 1`
/// segments, one per pair of neighbouring points: segment `i` runs from point
/// `i` to point `i + 1`; the first blends a line with the arc over points 0,
/// 1, 2, the last the arc over the last three points with a line, and every
/// other segment `i` uses points `i - 1` to `i + 2`, weights `i` and `i + 1`
/// and phi / psi pair `i`.
pub proof fn lemma_open_plan_uses_neighbours(n: int, i: int)
    requires
        3 <= n,
        0 <= i < n - 1,
    ensures
        spec_segment_plan(n, false, true).len() == n - 1,
        i == 0 ==> spec_segment_plan(n, false, true)[i] == (CurvePiece::Start { cp1: 0, cp2: 1, cp3: 2, w2: 1, param: 0 }),
        i == n - 2 ==> spec_segment_plan(n, false, true)[i] == (CurvePiece::End {
            cp0: (n - 3) as usize,
            cp1: (n - 2) as usize,
            cp2: (n - 1) as usize,
            w1: (n - 2) as usize,
            param: (n - 2) as usize,
        }),
        0 < i < n - 2 ==> spec_segment_plan(n, false, true)[i] == (CurvePiece::Middle {
            cp0: (i - 1) as usize,
            cp1: i as usize,
            cp2: (i + 1) as usize,
            cp3: (i + 2) as usize,
            w1: i as usize,
            w2: (i + 1) as usize,
            param: i as usize,
        }),
{
    let first = seq![CurvePiece::Start { cp1: 0, cp2: 1, cp3: 2, w2: 1, param: 0 }];
    let mid = Seq::new((n - 3) as nat, |k: int| open_piece(k + 1));
    let last = seq![CurvePiece::End { cp0: (n - 3) as usize, cp1: (n - 2) as usize, cp2: (n - 1) as usize, w1: (n - 2) as usize, param: (n - 2) as usize }];
    assert(spec_segment_plan(n, false, true) == first + mid + last);
    if 0 < i < n - 2 {
        assert((first + mid + last)[i] == mid[i - 1]);
    }
}

impl PPWCurve {
    /// The segments of the curve of `path`, in drawing order.
    pub fn segment_plan<P: Copy, S: Copy>(path: &PPWPath<P, S>) -> (r: Vec<CurvePiece>)
        ensures
            r@ == spec_segment_plan(path@.control_points.len() as int, path.is_closed, spec_valid(path@)),
    {
        if !path.validate() {
            return Vec::new();
        }
        let n = path.control_points.len();
        if n == 1 {
            return Vec::new();
        }
        if n == 2 {
            let r = vec![CurvePiece::Line { from: 0, to: 1 }];
            assert(r@ =~= spec_segment_plan(n as int, path.is_closed, true));
            return r;
        }
        let mut r: Vec<CurvePiece> = Vec::new();
        if path.is_closed {
            let mut i: usize = 0;
            while i < n
                invariant
                    n >= 3,
                    0 <= i <= n,
                    r@ =~= Seq::new(i as nat, |k: int| closed_piece(n as int, k)),
                decreases n - i,
            {
                let cp0 = if i == 0 { n - 1 } else { i - 1 };
                let cp2 = if i + 1 < n { i + 1 } else { 0 };
                let cp3 = if i < n - 2 { i + 2 } else { i - (n - 2) };
                proof {
                    let ni = n as int;
                    let ii = i as int;
                    if i == 0 {
                        vstd::arithmetic::div_mod::lemma_small_mod((ni - 1) as nat, ni as nat);
                    } else {
                        vstd::arithmetic::div_mod::lemma_mod_add_multiples_vanish(ii - 1, ni);
                        vstd::arithmetic::div_mod::lemma_small_mod((ii - 1) as nat, ni as nat);
                    }
                    if i + 1 < n {
                        vstd::arithmetic::div_mod::lemma_small_mod((ii + 1) as nat, ni as nat);
                    } else {
                        vstd::arithmetic::div_mod::lemma_mod_self_0(ni);
                    }
                    if i + 2 < n {
                        vstd::arithmetic::div_mod::lemma_small_mod((ii + 2) as nat, ni as nat);
                    } else {
                        vstd::arithmetic::div_mod::lemma_mod_add_multiples_vanish(ii + 2 - ni, ni);
                        vstd::arithmetic::div_mod::lemma_small_mod((ii + 2 - ni) as nat, ni as nat);
                    }
                    vstd::arithmetic::div_mod::lemma_small_mod(ii as nat, ni as nat);
                }
                r.push(CurvePiece::Middle { cp0, cp1: i, cp2, cp3, w1: i, w2: cp2, param: i });
                i = i + 1;
            }
        } else {
            r.push(CurvePiece::Start { cp1: 0, cp2: 1, cp3: 2, w2: 1, param: 0 });
            let mut i: usize = 1;
            while i < n - 2
                invariant
                    n >= 3,
                    1 <= i <= n - 2,
                    r@ =~= seq![CurvePiece::Start { cp1: 0, cp2: 1, cp3: 2, w2: 1, param: 0 }] + Seq::new(
                        (i - 1) as nat,
                        |k: int| open_piece(k + 1),
                    ),
                decreases n - i,
            {
                r.push(CurvePiece::Middle { cp0: i - 1, cp1: i, cp2: i + 1, cp3: i + 2, w1: i, w2: i + 1, param: i });
                i = i + 1;
            }
            r.push(CurvePiece::End { cp0: n - 3, cp1: n - 2, cp2: n - 1, w1: n - 2, param: n - 2 });
        }
        r
    }
}

} // verus!
