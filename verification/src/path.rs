//! PPW paths: control points with per-point weights and per-segment phi / psi
//! parameters. Coordinates and parameters are opaque values `P` and `S`; this
//! module keeps the structure of a path consistent.

use vstd::prelude::*;
use crate::selection::{sorted_unique, strictly_increasing};

verus! {

/// The values a path uses for parameters it has to create.
#[derive(Clone, Copy)]
pub struct SegmentDefaults<S> {
    /// Weight of a new control point.
    pub weight: S,
    /// Phi of a new segment.
    pub phi: S,
    /// Psi of a new segment.
    pub psi: S,
}

/// A PPW path. An open path with `n` points has `n` weights and `n - 1` phis and
/// psis; a closed one has `n` of each.
#[derive(Debug, Clone)]
pub struct PPWPath<P, S> {
    pub is_closed: bool,
    pub control_points: Vec<P>,
    pub weights: Vec<S>,
    pub phis: Vec<S>,
    pub psis: Vec<S>,
    pub fill_enabled: bool,
    pub fill_color: [u8; 4],
    pub stroke_width: S,
    pub stroke_color: [u8; 4],
}

/// The mathematical model of a path.
pub struct PathView<P, S> {
    pub is_closed: bool,
    pub control_points: Seq<P>,
    pub weights: Seq<S>,
    pub phis: Seq<S>,
    pub psis: Seq<S>,
    pub fill_enabled: bool,
    pub fill_color: Seq<u8>,
    pub stroke_width: S,
    pub stroke_color: Seq<u8>,
}

impl<P, S> View for PPWPath<P, S> {
    type V = PathView<P, S>;

    open spec fn view(&self) -> PathView<P, S> {
        PathView {
            is_closed: self.is_closed,
            control_points: self.control_points@,
            weights: self.weights@,
            phis: self.phis@,
            psis: self.psis@,
            fill_enabled: self.fill_enabled,
            fill_color: self.fill_color@,
            stroke_width: self.stroke_width,
            stroke_color: self.stroke_color@,
        }
    }
}

/// Number of segments of a path with `n` points.
pub open spec fn segment_count(n: int, is_closed: bool) -> int {
    if is_closed {
        n
    } else if n > 0 {
        n - 1
    } else {
        0
    }
}

/// Whether the parameter lists fit the control points, as a curve needs them.
pub open spec fn spec_valid(p: PathView<impl Sized, impl Sized>) -> bool {
    let n = p.control_points.len();
    if p.is_closed {
        n >= 3 && n == p.weights.len() && n == p.phis.len() && n == p.psis.len()
    } else {
        n >= 2 && n == p.weights.len() && n == p.phis.len() + 1 && n == p.psis.len() + 1
    }
}

/// `s` cut or padded with `x` to length `n` (`Vec::resize`).
pub open spec fn resized<T>(s: Seq<T>, n: int, x: T) -> Seq<T> {
    if n <= s.len() {
        s.take(n)
    } else {
        s + Seq::new((n - s.len()) as nat, |i: int| x)
    }
}

/// The path with its weights, phis and psis resized to fit its control points,
/// new entries taking the defaults.
pub open spec fn spec_rebuilt<P, S>(p: PathView<P, S>, d: SegmentDefaults<S>) -> PathView<P, S> {
    let n = p.control_points.len() as int;
    PathView {
        weights: resized(p.weights, n, d.weight),
        phis: resized(p.phis, segment_count(n, p.is_closed), d.phi),
        psis: resized(p.psis, segment_count(n, p.is_closed), d.psi),
        ..p
    }
}

/// Resizes `v` to `n` entries, padding with `x`.
pub fn resize_copy<T: Copy>(v: &mut Vec<T>, n: usize, x: T)
    ensures
        final(v)@ == resized(old(v)@, n as int, x),
{
    if n <= v.len() {
        v.truncate(n);
        assert(v@ =~= resized(old(v)@, n as int, x));
    } else {
        let start = v.len();
        while v.len() < n
            invariant
                start == old(v)@.len(),
                start <= v@.len() <= n,
                v@ =~= old(v)@ + Seq::new((v@.len() - start) as nat, |i: int| x),
            decreases n - v@.len(),
        {
            v.push(x);
        }
    }
}

/// A copy of a vector of `Copy` values.
pub fn copy_vec<T: Copy>(v: &Vec<T>) -> (r: Vec<T>)
    ensures
        r@ == v@,
{
    let mut r: Vec<T> = Vec::new();
    let mut i: usize = 0;
    while i < v.len()
        invariant
            0 <= i <= v@.len(),
            r@ == v@.take(i as int),
        decreases v@.len() - i,
    {
        r.push(v[i]);
        i = i + 1;
        assert(r@ =~= v@.take(i as int));
    }
    assert(v@.take(v@.len() as int) =~= v@);
    r
}

/// An open path without points, unfilled, stroked black with `stroke_width`.
pub open spec fn empty_path_view<P, S>(stroke_width: S) -> PathView<P, S> {
    PathView {
        is_closed: false,
        control_points: Seq::empty(),
        weights: Seq::empty(),
        phis: Seq::empty(),
        psis: Seq::empty(),
        fill_enabled: false,
        fill_color: seq![120u8, 170u8, 255u8, 70u8],
        stroke_width,
        stroke_color: seq![0u8, 0u8, 0u8, 255u8],
    }
}

impl<P: Copy, S: Copy> PPWPath<P, S> {
    /// An open path without points, unfilled, stroked black with `stroke_width`.
    pub fn empty(stroke_width: S) -> (r: Self)
        ensures
            r@ == empty_path_view::<P, S>(stroke_width),
    {
        let r = PPWPath {
            is_closed: false,
            control_points: Vec::new(),
            weights: Vec::new(),
            phis: Vec::new(),
            psis: Vec::new(),
            fill_enabled: false,
            fill_color: [120, 170, 255, 70],
            stroke_width,
            stroke_color: [0, 0, 0, 255],
        };
        assert(r@.fill_color =~= seq![120u8, 170u8, 255u8, 70u8]);
        assert(r@.stroke_color =~= seq![0u8, 0u8, 0u8, 255u8]);
        assert(r@.control_points =~= Seq::<P>::empty());
        assert(r@.weights =~= Seq::<S>::empty());
        assert(r@.phis =~= Seq::<S>::empty());
        assert(r@.psis =~= Seq::<S>::empty());
        r
    }

    /// A copy of this path.
    pub fn duplicate(&self) -> (r: Self)
        ensures
            r@ == self@,
    {
        PPWPath {
            is_closed: self.is_closed,
            control_points: copy_vec(&self.control_points),
            weights: copy_vec(&self.weights),
            phis: copy_vec(&self.phis),
            psis: copy_vec(&self.psis),
            fill_enabled: self.fill_enabled,
            fill_color: self.fill_color,
            stroke_width: self.stroke_width,
            stroke_color: self.stroke_color,
        }
    }

    /// Whether the parameter lists fit the control points.
    pub fn validate(&self) -> (r: bool)
        ensures
            r == spec_valid(self@),
    {
        let n = self.control_points.len();
        let weights_len = self.weights.len();
        let phis_len = self.phis.len();
        let psis_len = self.psis.len();
        if self.is_closed {
            n >= 3 && n == weights_len && n == phis_len && n == psis_len
        } else {
            n >= 2 && n == weights_len && phis_len < n && n == phis_len + 1 && psis_len < n && n
                == psis_len + 1
        }
    }

    /// Resizes weights, phis and psis to fit the control points: `n` weights,
    /// and `n` (closed) or `n - 1` (open) phis and psis.
    pub fn rebuild_open_segment_params(&mut self, d: SegmentDefaults<S>)
        ensures
            final(self)@ == spec_rebuilt(old(self)@, d),
    {
        let n = self.control_points.len();
        let seg_count = if self.is_closed {
            n
        } else if n > 0 {
            n - 1
        } else {
            0
        };
        resize_copy(&mut self.weights, n, d.weight);
        resize_copy(&mut self.phis, seg_count, d.phi);
        resize_copy(&mut self.psis, seg_count, d.psi);
    }

    /// Appends a control point with the default weight and refits the parameters.
    pub fn add_point(&mut self, point: P, d: SegmentDefaults<S>)
        ensures
            final(self)@ == spec_rebuilt(
                PathView {
                    control_points: old(self)@.control_points.push(point),
                    weights: old(self)@.weights.push(d.weight),
                    ..old(self)@
                },
                d,
            ),
    {
        self.control_points.push(point);
        self.weights.push(d.weight);
        self.rebuild_open_segment_params(d);
    }

    /// Moves control point `index` to `point`; an index past the end changes nothing.
    pub fn move_point(&mut self, index: usize, point: P)
        ensures
            index < old(self)@.control_points.len() ==> final(self)@ == (PathView {
                control_points: old(self)@.control_points.update(index as int, point),
                ..old(self)@
            }),
            index >= old(self)@.control_points.len() ==> final(self)@ == old(self)@,
    {
        if index < self.control_points.len() {
            self.control_points.set(index, point);
        }
    }

    /// Removes the last control point and weight (if any) and refits the parameters.
    pub fn remove_last_point(&mut self, d: SegmentDefaults<S>)
        ensures
            final(self)@ == spec_rebuilt(
                PathView {
                    control_points: drop_last_or_empty(old(self)@.control_points),
                    weights: drop_last_or_empty(old(self)@.weights),
                    ..old(self)@
                },
                d,
            ),
    {
        self.control_points.pop();
        self.weights.pop();
        self.rebuild_open_segment_params(d);
    }
}

/// `s` without its last element; the empty sequence stays empty.
pub open spec fn drop_last_or_empty<T>(s: Seq<T>) -> Seq<T> {
    if s.len() == 0 {
        s
    } else {
        s.drop_last()
    }
}

} // verus!

verus! {

/// `s` without the elements at the positions in `rm`.
pub open spec fn without_positions<T>(s: Seq<T>, rm: Set<int>) -> Seq<T>
    decreases s.len(),
{
    if s.len() == 0 {
        s
    } else {
        without_positions(s.drop_last(), rm) + if rm.contains(s.len() - 1) {
            Seq::<T>::empty()
        } else {
            seq![s.last()]
        }
    }
}

/// Removing the positions `rm` keeps every other element of `s`, in its
/// order: the result lists `s` at ascending positions `pos`, which are exactly
/// the positions of `s` not in `rm`.
pub proof fn lemma_without_positions_keeps_the_rest<T>(s: Seq<T>, rm: Set<int>) -> (pos: Seq<int>)
    ensures
        pos.len() == without_positions(s, rm).len(),
        forall|k: int| 0 <= k < pos.len() ==> 0 <= #[trigger] pos[k] < s.len() && !rm.contains(pos[k]),
        forall|k: int| 0 <= k < pos.len() ==> without_positions(s, rm)[k] == s[#[trigger] pos[k]],
        forall|k: int, l: int| 0 <= k < l < pos.len() ==> pos[k] < pos[l],
        forall|i: int| 0 <= i < s.len() && !rm.contains(i) ==> exists|k: int| 0 <= k < pos.len() && #[trigger] pos[k] == i,
    decreases s.len(),
{
    if s.len() == 0 {
        Seq::empty()
    } else {
        let init = s.drop_last();
        let before = lemma_without_positions_keeps_the_rest(init, rm);
        let w0 = without_positions(init, rm);
        let last = s.len() - 1;
        if rm.contains(last) {
            assert(without_positions(s, rm) =~= w0);
            assert forall|i: int| 0 <= i < s.len() && !rm.contains(i) implies exists|k: int|
                0 <= k < before.len() && #[trigger] before[k] == i by {
                assert(i < init.len());
            }
            before
        } else {
            let pos = before.push(last);
            assert(without_positions(s, rm) =~= w0.push(s.last()));
            assert forall|i: int| 0 <= i < s.len() && !rm.contains(i) implies exists|k: int|
                0 <= k < pos.len() && #[trigger] pos[k] == i by {
                if i == last {
                    assert(pos[before.len() as int] == i);
                } else {
                    let k = choose|k: int| 0 <= k < before.len() && #[trigger] before[k] == i;
                    assert(pos[k] == i);
                }
            }
            assert forall|k: int| 0 <= k < pos.len() implies without_positions(s, rm)[k] == s[#[trigger] pos[k]] by {
                if k < before.len() {
                    assert(without_positions(s, rm)[k] == w0[k]);
                }
            }
            pos
        }
    }
}

/// Refitting a path gives it one weight per control point and one phi and psi
/// per segment (as many as points when closed, one fewer when open); the
/// weights and parameters it had are kept up to those lengths and missing ones
/// take the defaults; nothing else changes.
pub proof fn lemma_rebuilt_fits<P, S>(p: PathView<P, S>, d: SegmentDefaults<S>)
    ensures
        ({
            let r = spec_rebuilt(p, d);
            let n = p.control_points.len() as int;
            let segs = if p.is_closed { n } else if n > 0 { n - 1 } else { 0 };
            &&& r.weights.len() == n
            &&& r.phis.len() == segs
            &&& r.psis.len() == segs
            &&& forall|i: int| 0 <= i < n ==> #[trigger] r.weights[i] == (if i < p.weights.len() { p.weights[i] } else { d.weight })
            &&& forall|i: int| 0 <= i < segs ==> #[trigger] r.phis[i] == (if i < p.phis.len() { p.phis[i] } else { d.phi })
            &&& forall|i: int| 0 <= i < segs ==> #[trigger] r.psis[i] == (if i < p.psis.len() { p.psis[i] } else { d.psi })
            &&& r.control_points == p.control_points
            &&& r.is_closed == p.is_closed
            &&& r.fill_enabled == p.fill_enabled
            &&& r.fill_color == p.fill_color
            &&& r.stroke_width == p.stroke_width
            &&& r.stroke_color == p.stroke_color
        }),
{
}

/// Removing no position below the length keeps the sequence.
proof fn lemma_without_none<T>(s: Seq<T>, rm: Set<int>)
    requires
        forall|i: int| 0 <= i < s.len() ==> !rm.contains(i),
    ensures
        without_positions(s, rm) == s,
    decreases s.len(),
{
    if s.len() > 0 {
        lemma_without_none(s.drop_last(), rm);
        assert(s.drop_last().push(s.last()) =~= s);
    }
}

/// Removing one more position, below all the others, removes that element from
/// what is left.
proof fn lemma_without_one_more<T>(s: Seq<T>, rm: Set<int>, p: int)
    requires
        0 <= p < s.len(),
        forall|r: int| rm.contains(r) ==> r > p,
    ensures
        without_positions(s, rm.insert(p)) == without_positions(s, rm).remove(p),
    decreases s.len(),
{
    let n = s.len() as int;
    if n - 1 == p {
        lemma_without_none(s.drop_last(), rm.insert(p));
        lemma_without_none(s.drop_last(), rm);
        assert(without_positions(s, rm) =~= s);
        assert(s.remove(p) =~= s.drop_last());
        assert(without_positions(s, rm.insert(p)) =~= s.drop_last());
    } else {
        lemma_without_one_more(s.drop_last(), rm, p);
        let a = without_positions(s.drop_last(), rm);
        lemma_without_len_ge(s.drop_last(), rm, p);
        if rm.contains(n - 1) {
            assert(without_positions(s, rm) == a);
        } else {
            assert(a.remove(p).push(s.last()) =~= a.push(s.last()).remove(p));
        }
    }
}

/// Positions below every removed one keep their elements.
proof fn lemma_without_len_ge<T>(s: Seq<T>, rm: Set<int>, p: int)
    requires
        0 <= p < s.len(),
        forall|r: int| rm.contains(r) ==> r > p,
    ensures
        without_positions(s, rm).len() > p,
        without_positions(s, rm).take(p + 1) == s.take(p + 1),
    decreases s.len(),
{
    let n = s.len() as int;
    if n - 1 == p {
        lemma_without_none(s.drop_last(), rm);
        assert(without_positions(s, rm) =~= s);
    } else {
        lemma_without_len_ge(s.drop_last(), rm, p);
        let a = without_positions(s.drop_last(), rm);
        assert(a.take(p + 1) =~= s.drop_last().take(p + 1));
        assert(s.drop_last().take(p + 1) =~= s.take(p + 1));
        if !rm.contains(n - 1) {
            assert(a.push(s.last()).take(p + 1) =~= a.take(p + 1));
        }
    }
}

/// The positions listed in `idx`.
pub open spec fn position_set(idx: Seq<usize>) -> Set<int> {
    Set::new(|i: int| exists|k: int| 0 <= k < idx.len() && idx[k] == i)
}

/// Removes, from the back, the elements at the ascending positions `idx` that
/// exist in `v`.
fn remove_positions<T>(v: &mut Vec<T>, idx: &Vec<usize>)
    requires
        strictly_increasing(idx@),
    ensures
        final(v)@ == without_positions(old(v)@, position_set(idx@)),
{
    let ghost s = old(v)@;
    let mut k: usize = idx.len();
    proof {
        lemma_without_none(s, position_set(idx@.skip(k as int)));
    }
    while k > 0
        invariant
            0 <= k <= idx@.len(),
            strictly_increasing(idx@),
            s == old(v)@,
            v@ == without_positions(s, position_set(idx@.skip(k as int))),
        decreases k,
    {
        k = k - 1;
        let p = idx[k];
        let ghost later = position_set(idx@.skip(k + 1));
        proof {
            let cur = idx@.skip(k as int);
            let nxt = idx@.skip(k + 1);
            assert forall|i: int| position_set(cur).contains(i) implies later.insert(p as int).contains(i) by {
                let j = choose|j: int| 0 <= j < cur.len() && #[trigger] cur[j] == i;
                if j > 0 {
                    assert(nxt[j - 1] == i);
                }
            }
            assert forall|i: int| later.insert(p as int).contains(i) implies position_set(cur).contains(i) by {
                if i == p {
                    assert(cur[0] == i);
                } else {
                    let j = choose|j: int| 0 <= j < nxt.len() && #[trigger] nxt[j] == i;
                    assert(cur[j + 1] == i);
                }
            }
            assert(position_set(cur) =~= later.insert(p as int));
            assert forall|r: int| later.contains(r) implies r > p by {
                let t = idx@.skip(k + 1);
                let j = choose|j: int| 0 <= j < t.len() && #[trigger] t[j] == r;
                assert(idx@[k + 1 + j] == r);
            }
        }
        proof {
            lemma_without_len_le(s, later);
        }
        if p < v.len() {
            proof {
                lemma_without_len_ge(s, later, p as int);
                lemma_without_one_more(s, later, p as int);
            }
            v.remove(p);
        } else {
            proof {
                if p < s.len() {
                    lemma_without_len_ge(s, later, p as int);
                }
                lemma_without_extra(s, later, p as int);
            }
        }
    }
    assert(idx@.skip(0) =~= idx@);
}

/// Removing positions never lengthens a sequence.
proof fn lemma_without_len_le<T>(s: Seq<T>, rm: Set<int>)
    ensures
        without_positions(s, rm).len() <= s.len(),
    decreases s.len(),
{
    if s.len() > 0 {
        lemma_without_len_le(s.drop_last(), rm);
    }
}

/// Removing a position past the end changes nothing.
proof fn lemma_without_extra<T>(s: Seq<T>, rm: Set<int>, p: int)
    requires
        p >= s.len(),
    ensures
        without_positions(s, rm.insert(p)) == without_positions(s, rm),
    decreases s.len(),
{
    if s.len() > 0 {
        lemma_without_extra(s.drop_last(), rm, p);
    }
}

impl<P: Copy, S: Copy> PPWPath<P, S> {
    /// Removes the control points (and their weights) at the given indices and
    /// refits the parameters; an empty list changes nothing.
    pub fn remove_points(&mut self, indices: &[usize], d: SegmentDefaults<S>)
        ensures
            indices@.len() == 0 ==> final(self)@ == old(self)@,
            indices@.len() > 0 ==> final(self)@ == spec_rebuilt(
                PathView {
                    control_points: without_positions(
                        old(self)@.control_points,
                        Set::new(|i: int| exists|k: int| 0 <= k < indices@.len() && indices@[k] == i),
                    ),
                    weights: without_positions(
                        old(self)@.weights,
                        Set::new(|i: int| exists|k: int| 0 <= k < indices@.len() && indices@[k] == i),
                    ),
                    ..old(self)@
                },
                d,
            ),
    {
        if indices.len() == 0 {
            return;
        }
        let remove = sorted_unique(indices);
        proof {
            assert(position_set(remove@) =~= Set::new(
                |i: int| exists|k: int| 0 <= k < indices@.len() && indices@[k] == i,
            )) by {
                assert forall|i: int| position_set(remove@).contains(i) implies (exists|k: int|
                    0 <= k < indices@.len() && indices@[k] == i) by {
                    let j = choose|j: int| 0 <= j < remove@.len() && remove@[j] == i;
                    assert(remove@.contains(remove@[j]));
                }
                assert forall|i: int| (exists|k: int| 0 <= k < indices@.len() && indices@[k] == i)
                    implies position_set(remove@).contains(i) by {
                    let k = choose|k: int| 0 <= k < indices@.len() && indices@[k] == i;
                    assert(indices@.contains(indices@[k]));
                    assert(remove@.contains(indices@[k]));
                }
            }
        }
        remove_positions(&mut self.control_points, &remove);
        remove_positions(&mut self.weights, &remove);
        self.rebuild_open_segment_params(d);
    }
}

} // verus!

verus! {

/// The control point (its index) that ends segment `a` of a path with `n`
/// points: the next one, or the first one for the last segment of a closed path.
pub open spec fn segment_end(n: int, is_closed: bool, a: int) -> Option<int> {
    if a + 1 < n {
        Some(a + 1)
    } else if is_closed {
        Some(0)
    } else {
        None
    }
}

/// The segment that `split_path_at_segment` splits: the requested one if it
/// exists, else `longest`.
pub open spec fn split_segment(n: int, is_closed: bool, segment_index: Option<usize>, longest: usize) -> int {
    match segment_index {
        Some(i) if i < segment_count(n, is_closed) => i as int,
        _ => longest as int,
    }
}

/// The segment that a split cuts runs from point `a` to the point after it:
/// `a + 1`, or point 0 when `a` is the closing segment of a closed path. It
/// is the requested segment when the path has it, else `longest`.
pub proof fn lemma_split_segment_ends(n: int, is_closed: bool, segment_index: Option<usize>, longest: usize)
    requires
        2 <= n,
        longest < segment_count(n, is_closed),
    ensures
        ({
            let a = split_segment(n, is_closed, segment_index, longest);
            let segs = if is_closed { n } else { n - 1 };
            &&& 0 <= a < segs
            &&& (segment_index is Some && segment_index.unwrap() < segs) ==> a == segment_index.unwrap()
            &&& (segment_index is None || segment_index.unwrap() >= segs) ==> a == longest
            &&& segment_end(n, is_closed, a) == Some(if a + 1 < n { a + 1 } else { 0 })
        }),
{
}

impl<P: Copy, S: Copy> PPWPath<P, S> {
    /// Splits a segment of the path at its midpoint: the segment `segment_index`
    /// if the path has it, otherwise `longest` (the longest segment, which the
    /// caller measures). The new point gets the default weight and the
    /// parameters are refitted. Returns the new point's index; `None` when the
    /// path has fewer than two points. (Inserting the weight panics when the
    /// weights are fewer than the new point's index, which `requires` rules out.)
    pub fn split_path_at_segment<F: Fn(P, P) -> P>(
        &mut self,
        segment_index: Option<usize>,
        longest: usize,
        midpoint: F,
        d: SegmentDefaults<S>,
    ) -> (r: Option<usize>)
        requires
            old(self)@.control_points.len() >= 2 ==> longest < segment_count(
                old(self)@.control_points.len() as int,
                old(self)@.is_closed,
            ),
            old(self)@.control_points.len() >= 2 ==> split_segment(
                old(self)@.control_points.len() as int,
                old(self)@.is_closed,
                segment_index,
                longest,
            ) + 1 <= old(self)@.weights.len(),
            forall|a: P, b: P| call_requires(midpoint, (a, b)),
        ensures
            old(self)@.control_points.len() < 2 ==> r is None && final(self)@ == old(self)@,
            old(self)@.control_points.len() >= 2 ==> {
                let n = old(self)@.control_points.len() as int;
                let a = split_segment(n, old(self)@.is_closed, segment_index, longest);
                let b = segment_end(n, old(self)@.is_closed, a).unwrap();
                &&& r == Some((a + 1) as usize)
                &&& exists|m: P| #[trigger] call_ensures(
                    midpoint,
                    (old(self)@.control_points[a], old(self)@.control_points[b]),
                    m,
                ) && final(self)@ == spec_rebuilt(
                    PathView {
                        control_points: old(self)@.control_points.insert(a + 1, m),
                        weights: old(self)@.weights.insert(a + 1, d.weight),
                        ..old(self)@
                    },
                    d,
                )
            },
    {
        let n = self.control_points.len();
        if n < 2 {
            return None;
        }
        let seg_count = if self.is_closed { n } else { n - 1 };
        let a = match segment_index {
            Some(i) if i < seg_count => i,
            _ => longest,
        };
        let b = if a + 1 < n {
            a + 1
        } else {
            0
        };
        let m = midpoint(self.control_points[a], self.control_points[b]);
        self.control_points.insert(a + 1, m);
        self.weights.insert(a + 1, d.weight);
        self.rebuild_open_segment_params(d);
        Some(a + 1)
    }
}

} // verus!

verus! {

/// How many of the ascending indices `idx` fall below `n` (they come first).
pub open spec fn count_below(idx: Seq<usize>, n: int) -> int
    decreases idx.len(),
{
    if idx.len() == 0 {
        0
    } else if idx.last() < n {
        count_below(idx.drop_last(), n) + 1
    } else {
        count_below(idx.drop_last(), n)
    }
}

/// In an ascending list the indices below `n` are exactly the first `count_below` ones.
proof fn lemma_count_below(idx: Seq<usize>, n: int)
    requires
        strictly_increasing(idx),
    ensures
        0 <= count_below(idx, n) <= idx.len(),
        forall|j: int| 0 <= j < idx.len() ==> (idx[j] < n <==> j < count_below(idx, n)),
    decreases idx.len(),
{
    if idx.len() > 0 {
        let init = idx.drop_last();
        assert(strictly_increasing(init));
        lemma_count_below(init, n);
        let c = count_below(init, n);
        if idx.last() < n {
            assert forall|j: int| 0 <= j < init.len() implies idx[j] < n by {
                assert(idx[j] < idx.last());
            }
            assert(c == init.len()) by {
                if c < init.len() {
                    assert(init[c] < n);
                }
            }
        }
        assert forall|j: int| 0 <= j < idx.len() implies (idx[j] < n ==> j < count_below(idx, n)) by {
            if j < init.len() {
                assert(init[j] == idx[j]);
            }
        }
        assert forall|j: int| 0 <= j < idx.len() implies (j < count_below(idx, n) ==> idx[j] < n) by {
            if j < init.len() {
                assert(init[j] == idx[j]);
            }
        }
    }
}

/// The open path made of the selected points of `src` (ascending indices
/// `idx`): their coordinates and weights (the default weight where the weight
/// is missing), default phi / psi except between points that were neighbours in
/// `src`, which keep that segment's parameters, and `src`'s colors and stroke
/// width, unfilled.
pub open spec fn spec_copied_subpath<P, S>(src: PathView<P, S>, idx: Seq<usize>, d: SegmentDefaults<S>) -> PathView<P, S> {
    let m = count_below(idx, src.control_points.len() as int);
    let segs = if m > 0 { m - 1 } else { 0 };
    PathView {
        is_closed: false,
        control_points: Seq::new(m as nat, |j: int| src.control_points[idx[j] as int]),
        weights: Seq::new(
            m as nat,
            |j: int|
                if idx[j] < src.weights.len() {
                    src.weights[idx[j] as int]
                } else {
                    d.weight
                },
        ),
        phis: Seq::new(
            segs as nat,
            |k: int|
                if idx[k + 1] == idx[k] + 1 && idx[k] < src.phis.len() {
                    src.phis[idx[k] as int]
                } else {
                    d.phi
                },
        ),
        psis: Seq::new(
            segs as nat,
            |k: int|
                if idx[k + 1] == idx[k] + 1 && idx[k] < src.psis.len() {
                    src.psis[idx[k] as int]
                } else {
                    d.psi
                },
        ),
        fill_enabled: false,
        fill_color: src.fill_color,
        stroke_width: src.stroke_width,
        stroke_color: src.stroke_color,
    }
}

/// A copy of selected points of a path is an open, unfilled path that keeps
/// the source path's fill color, stroke color and stroke width, and whose
/// control points are the selected points that exist in the source, in their
/// order: point `j` of the copy is source point `idx[j]`, and every selected
/// index below the source's point count is copied. Neighbouring selected points
/// keep the phi and psi of the source segment between them.
pub proof fn lemma_copied_subpath_keeps_style<P, S>(src: PathView<P, S>, idx: Seq<usize>, d: SegmentDefaults<S>)
    requires
        strictly_increasing(idx),
    ensures
        ({
            let c = spec_copied_subpath(src, idx, d);
            let n = src.control_points.len();
            &&& c.stroke_color == src.stroke_color
            &&& c.fill_color == src.fill_color
            &&& c.stroke_width == src.stroke_width
            &&& !c.is_closed
            &&& !c.fill_enabled
            &&& c.control_points.len() <= idx.len()
            &&& forall|j: int| 0 <= j < c.control_points.len() ==> idx[j] < n && #[trigger] c.control_points[j] == src.control_points[idx[j] as int]
            &&& forall|j: int| 0 <= j < idx.len() && #[trigger] idx[j] < n ==> j < c.control_points.len()
            &&& forall|k: int|
                0 <= k < c.phis.len() && idx[k + 1] == idx[k] + 1 && idx[k] < src.phis.len() ==> #[trigger] c.phis[k]
                    == src.phis[idx[k] as int]
            &&& forall|k: int|
                0 <= k < c.psis.len() && idx[k + 1] == idx[k] + 1 && idx[k] < src.psis.len() ==> #[trigger] c.psis[k]
                    == src.psis[idx[k] as int]
        }),
{
    lemma_count_below(idx, src.control_points.len() as int);
}

/// The parameter for segment `k` of a copy: the source's, for neighbouring
/// points, when the source has it.
fn copied_param<S: Copy>(src: &Vec<S>, a: usize, b: usize, default: S) -> (r: S)
    ensures
        r == (if b == a + 1 && a < src@.len() { src@[a as int] } else { default }),
{
    if a < src.len() && b == a + 1 {
        src[a]
    } else {
        default
    }
}

impl<P: Copy, S: Copy> PPWPath<P, S> {
    /// The selected points of this path (ascending `point_indices`) as a new open path.
    pub fn copied_subpath(&self, point_indices: &[usize], d: SegmentDefaults<S>) -> (r: Self)
        requires
            strictly_increasing(point_indices@),
        ensures
            r@ == spec_copied_subpath(self@, point_indices@, d),
    {
        let ghost idx = point_indices@;
        let n = self.control_points.len();
        proof {
            lemma_count_below(idx, n as int);
        }
        let ghost m = count_below(idx, n as int);
        let mut points: Vec<P> = Vec::new();
        let mut weights: Vec<S> = Vec::new();
        let mut i: usize = 0;
        while i < point_indices.len()
            invariant
                0 <= i <= idx.len(),
                idx == point_indices@,
                n == self.control_points@.len(),
                0 <= m <= idx.len(),
                forall|j: int| 0 <= j < idx.len() ==> (idx[j] < n <==> j < m),
                points@.len() == (if i < m { i as int } else { m }),
                weights@.len() == points@.len(),
                forall|j: int| 0 <= j < points@.len() ==> points@[j] == self.control_points@[idx[j] as int],
                forall|j: int|
                    0 <= j < weights@.len() ==> weights@[j] == (if idx[j] < self.weights@.len() {
                        self.weights@[idx[j] as int]
                    } else {
                        d.weight
                    }),
            decreases idx.len() - i,
        {
            let idx_i = point_indices[i];
            if idx_i < n {
                points.push(self.control_points[idx_i]);
                let w = if idx_i < self.weights.len() {
                    self.weights[idx_i]
                } else {
                    d.weight
                };
                weights.push(w);
            }
            i = i + 1;
        }
        let count = points.len();
        let segs = if count > 0 { count - 1 } else { 0 };
        let mut phis: Vec<S> = Vec::new();
        let mut psis: Vec<S> = Vec::new();
        let mut k: usize = 0;
        while k < segs
            invariant
                0 <= k <= segs,
                count == m,
                segs == (if m > 0 { m - 1 } else { 0 }),
                m <= idx.len(),
                idx == point_indices@,
                phis@.len() == k,
                psis@.len() == k,
                forall|q: int|
                    0 <= q < k ==> phis@[q] == (if idx[q + 1] == idx[q] + 1 && idx[q] < self.phis@.len() {
                        self.phis@[idx[q] as int]
                    } else {
                        d.phi
                    }),
                forall|q: int|
                    0 <= q < k ==> psis@[q] == (if idx[q + 1] == idx[q] + 1 && idx[q] < self.psis@.len() {
                        self.psis@[idx[q] as int]
                    } else {
                        d.psi
                    }),
            decreases segs - k,
        {
            let a = point_indices[k];
            let b = point_indices[k + 1];
            phis.push(copied_param(&self.phis, a, b, d.phi));
            psis.push(copied_param(&self.psis, a, b, d.psi));
            k = k + 1;
        }
        let r = PPWPath {
            is_closed: false,
            control_points: points,
            weights,
            phis,
            psis,
            fill_enabled: false,
            fill_color: self.fill_color,
            stroke_width: self.stroke_width,
            stroke_color: self.stroke_color,
        };
        proof {
            let want = spec_copied_subpath(self@, idx, d);
            assert(r@.control_points =~= want.control_points);
            assert(r@.weights =~= want.weights);
            assert(r@.phis =~= want.phis);
            assert(r@.psis =~= want.psis);
        }
        r
    }
}

} // verus!
