//! Polylines of PPW curves and their triangulation for filling.

use vstd::prelude::*;

verus! {

/// The polyline of a PPW curve, whole and per segment.
#[derive(Debug, Clone)]
pub struct PPWPolygon<P> {
    pub polygon: Vec<P>,
    pub segments: Vec<Vec<P>>,
}

impl<P> PPWPolygon<P> {
    /// A polygon without points or segments.
    pub fn empty() -> (r: Self)
        ensures
            r.polygon@.len() == 0,
            r.segments@.len() == 0,
    {
        PPWPolygon { polygon: Vec::new(), segments: Vec::new() }
    }
}

/// A triangulation: the cleaned vertices and, three by three, the vertex
/// indices of each triangle.
#[derive(Debug, Clone)]
pub struct TriangulateResult<P> {
    pub vertices: Vec<P>,
    pub indices: Vec<usize>,
}

/// The geometric tests that triangulation asks of polygon vertices. Their
/// arithmetic belongs to the point type; triangulation only combines the answers.
/// Each test is a function of its arguments, named by its `spec_` counterpart,
/// which is all that the triangulation's contract relies on. An
/// implementation defines each counterpart as the answer of its test; the
/// editor implements the tests for its floating-point points outside this
/// library, where the counterparts are compiled as ordinary functions that
/// call the tests. What that implementation is trusted for is only that each
/// answer depends on the arguments alone.
pub trait TriangulationGeometry: Copy {
    /// The answer of `far_apart`.
    spec fn spec_far_apart(a: Self, b: Self) -> bool;

    /// The answer of `coincide`.
    spec fn spec_coincide(first: Self, last: Self) -> bool;

    /// The answer of `clockwise`.
    spec fn spec_clockwise(points: &[Self]) -> bool;

    /// The answer of `is_convex`.
    spec fn spec_is_convex(a: Self, b: Self, c: Self) -> bool;

    /// The answer of `point_in_triangle`.
    spec fn spec_point_in_triangle(p: Self, a: Self, b: Self, c: Self) -> bool;

    /// Whether `b` is far enough from the previous vertex `a` to be kept.
    fn far_apart(a: Self, b: Self) -> (r: bool)
        ensures
            r == Self::spec_far_apart(a, b),
    ;

    /// Whether the first and last vertex are so close that the last one only
    /// closes the outline again.
    fn coincide(first: Self, last: Self) -> (r: bool)
        ensures
            r == Self::spec_coincide(first, last),
    ;

    /// Whether the outline runs clockwise (negative signed area).
    fn clockwise(points: &[Self]) -> (r: bool)
        ensures
            r == Self::spec_clockwise(points),
    ;

    /// Whether the corner `a, b, c` turns left (is convex for a counter-clockwise outline).
    fn is_convex(a: Self, b: Self, c: Self) -> (r: bool)
        ensures
            r == Self::spec_is_convex(a, b, c),
    ;

    /// Whether `p` lies in (or on) the triangle `a, b, c`.
    fn point_in_triangle(p: Self, a: Self, b: Self, c: Self) -> (r: bool)
        ensures
            r == Self::spec_point_in_triangle(p, a, b, c),
    ;
}

/// The vertices kept from the first `i` of `points`: a vertex is kept when
/// nothing is kept yet or it lies far enough from the last kept vertex.
pub open spec fn kept_vertices<G: TriangulationGeometry>(points: Seq<G>, i: int) -> Seq<G>
    decreases i,
{
    if i <= 0 {
        Seq::empty()
    } else {
        let prev = kept_vertices(points, i - 1);
        let p = points[i - 1];
        if prev.len() == 0 || G::spec_far_apart(prev.last(), p) {
            prev.push(p)
        } else {
            prev
        }
    }
}

/// The cleaned polyline: the kept vertices, without the last one when there
/// are at least two and it coincides with the first.
pub open spec fn cleaned<G: TriangulationGeometry>(points: Seq<G>) -> Seq<G> {
    let k = kept_vertices(points, points.len() as int);
    if k.len() >= 2 && G::spec_coincide(k[0], k.last()) {
        k.drop_last()
    } else {
        k
    }
}

/// The corner at position `i` of the remaining outline `order`: the vertex
/// before it, the vertex itself and the vertex after it (cyclically).
pub open spec fn corner(order: Seq<usize>, i: int) -> (usize, usize, usize) {
    let m = order.len() as int;
    (order[if i == 0 { m - 1 } else { i - 1 }], order[i], order[if i + 1 < m { i + 1 } else { 0 }])
}

/// Whether the corner at position `i` of `order` is an ear: it is convex and
/// no other remaining vertex lies in its triangle.
pub open spec fn is_ear<G: TriangulationGeometry>(v: Seq<G>, order: Seq<usize>, i: int) -> bool {
    let (a, b, c) = corner(order, i);
    &&& G::spec_is_convex(v[a as int], v[b as int], v[c as int])
    &&& forall|j: int|
        0 <= j < order.len() && order[j] != a && order[j] != b && order[j] != c ==> !G::spec_point_in_triangle(
            v[#[trigger] order[j] as int],
            v[a as int],
            v[b as int],
            v[c as int],
        )
}

/// The first ear of `order` at position `i` or later.
pub open spec fn first_ear_from<G: TriangulationGeometry>(v: Seq<G>, order: Seq<usize>, i: int) -> Option<int>
    decreases order.len() - i,
{
    if i < 0 || i >= order.len() {
        None
    } else if is_ear(v, order, i) {
        Some(i)
    } else {
        first_ear_from(v, order, i + 1)
    }
}

/// The fan from vertex 0 over `n` vertices: triangles `0, t, t + 1` for
/// `t` from 1 to `n - 2`.
pub open spec fn fan_indices(n: int) -> Seq<usize> {
    Seq::new((3 * (n - 2)) as nat, |k: int| (if k % 3 == 0 { 0 } else { k / 3 + k % 3 }) as usize)
}

/// Ear clipping from the remaining outline `order` with the triangles
/// `indices` found so far: while more than three vertices remain, the first
/// ear is cut off; when no ear exists, the whole result is the fan from
/// vertex 0; the last three vertices make the last triangle.
pub open spec fn clip_ears<G: TriangulationGeometry>(v: Seq<G>, order: Seq<usize>, indices: Seq<usize>) -> Seq<usize>
    decreases order.len(),
{
    if order.len() <= 3 {
        if order.len() == 3 {
            indices + order
        } else {
            indices
        }
    } else {
        match first_ear_from(v, order, 0) {
            Some(e) => if 0 <= e < order.len() {
                let (a, b, c) = corner(order, e);
                clip_ears(v, order.remove(e), indices.push(a).push(b).push(c))
            } else {
                indices
            },
            None => fan_indices(v.len() as int),
        }
    }
}

/// The vertex order that ear clipping starts from: counter-clockwise, so
/// reversed when the outline runs clockwise.
pub open spec fn initial_order(n: int, clockwise: bool) -> Seq<usize> {
    Seq::new(n as nat, |j: int| (if clockwise { n - 1 - j } else { j }) as usize)
}

/// The answer of `clockwise` for an outline with the vertices `v`.
pub open spec fn clockwise_of<G: TriangulationGeometry>(v: Seq<G>) -> bool {
    G::spec_clockwise(choose|s: &[G]| s@ == v)
}

/// The triangulation of a polyline: its cleaned vertices and the ear-clipping
/// triangles, or nothing at all when fewer than three vertices are left.
pub open spec fn triangulation<G: TriangulationGeometry>(polygon: Seq<G>) -> (Seq<G>, Seq<usize>) {
    let v = cleaned(polygon);
    if v.len() < 3 {
        (Seq::empty(), Seq::empty())
    } else {
        (v, clip_ears(v, initial_order(v.len() as int, clockwise_of(v)), Seq::empty()))
    }
}

/// Shape helpers on polylines.
pub struct ShapeUtil;

/// Whether every triangle of `indices` names three different vertices below `n`.
pub open spec fn proper_triangles(indices: Seq<usize>, n: int) -> bool {
    &&& indices.len() % 3 == 0
    &&& forall|k: int| 0 <= k < indices.len() ==> #[trigger] indices[k] < n
    &&& forall|t: int| 0 <= t < indices.len() / 3 ==> #[trigger] distinct_corners(indices, t)
}

/// Whether triangle `t` of `indices` names three different vertices.
pub open spec fn distinct_corners(indices: Seq<usize>, t: int) -> bool {
    &&& indices[3 * t] != indices[3 * t + 1]
    &&& indices[3 * t + 1] != indices[3 * t + 2]
    &&& indices[3 * t] != indices[3 * t + 2]
}

/// The polyline without vertices that repeat their predecessor, and without a
/// last vertex that repeats the first.
pub fn clean_polygon<G: TriangulationGeometry>(points: &[G]) -> (out: Vec<G>)
    ensures
        out@ == cleaned(points@),
{
    let mut out: Vec<G> = Vec::new();
    let mut i: usize = 0;
    while i < points.len()
        invariant
            0 <= i <= points@.len(),
            out@ == kept_vertices(points@, i as int),
        decreases points@.len() - i,
    {
        let p = points[i];
        let keep = if out.len() == 0 {
            true
        } else {
            G::far_apart(out[out.len() - 1], p)
        };
        if keep {
            out.push(p);
        }
        i = i + 1;
    }
    if out.len() >= 2 && G::coincide(out[0], out[out.len() - 1]) {
        out.pop();
    }
    out
}

/// Whether the corner at position `i` of `order` is an ear of `vertices`.
fn ear_at<G: TriangulationGeometry>(vertices: &[G], order: &[usize], i: usize) -> (r: bool)
    requires
        3 <= order@.len(),
        i < order@.len(),
        forall|j: int| 0 <= j < order@.len() ==> #[trigger] order@[j] < vertices@.len(),
    ensures
        r == is_ear(vertices@, order@, i as int),
{
    let m = order.len();
    let i0 = order[if i == 0 { m - 1 } else { i - 1 }];
    let i1 = order[i];
    let i2 = order[if i + 1 < m { i + 1 } else { 0 }];
    assert((i0, i1, i2) == corner(order@, i as int));
    if !G::is_convex(vertices[i0], vertices[i1], vertices[i2]) {
        return false;
    }
    let mut j: usize = 0;
    while j < m
        invariant
            m == order@.len(),
            0 <= j <= m,
            i0 < vertices@.len(),
            i1 < vertices@.len(),
            i2 < vertices@.len(),
            i < m,
            (i0, i1, i2) == corner(order@, i as int),
            forall|q: int| 0 <= q < order@.len() ==> #[trigger] order@[q] < vertices@.len(),
            forall|q: int|
                0 <= q < j && order@[q] != i0 && order@[q] != i1 && order@[q] != i2 ==> !G::spec_point_in_triangle(
                    vertices@[#[trigger] order@[q] as int],
                    vertices@[i0 as int],
                    vertices@[i1 as int],
                    vertices@[i2 as int],
                ),
        decreases m - j,
    {
        let other = order[j];
        if other != i0 && other != i1 && other != i2 {
            if G::point_in_triangle(vertices[other], vertices[i0], vertices[i1], vertices[i2]) {
                assert(order@[j as int] == other);
                assert(!is_ear(vertices@, order@, i as int)) by {
                    let (a, b, c) = corner(order@, i as int);
                    assert(a == i0 && b == i1 && c == i2);
                    assert(0 <= j < order@.len() && order@[j as int] != a && order@[j as int] != b && order@[j as int] != c);
                }
                return false;
            }
        }
        j = j + 1;
    }
    true
}

/// The position of the first ear of `order`, if any.
fn find_ear<G: TriangulationGeometry>(vertices: &[G], order: &[usize]) -> (r: Option<usize>)
    requires
        3 <= order@.len(),
        forall|j: int| 0 <= j < order@.len() ==> #[trigger] order@[j] < vertices@.len(),
    ensures
        r matches Some(e) ==> e < order@.len() && first_ear_from(vertices@, order@, 0) == Some(e as int),
        r is None ==> first_ear_from(vertices@, order@, 0) is None,
{
    let m = order.len();
    let mut i: usize = 0;
    while i < m
        invariant
            m == order@.len(),
            3 <= m,
            0 <= i <= m,
            forall|j: int| 0 <= j < order@.len() ==> #[trigger] order@[j] < vertices@.len(),
            forall|q: int| 0 <= q < i ==> !is_ear(vertices@, order@, q),
        decreases m - i,
    {
        if ear_at(vertices, order, i) {
            proof {
                lemma_first_ear(vertices@, order@, 0, i as int);
            }
            return Some(i);
        }
        i = i + 1;
    }
    proof {
        lemma_first_ear(vertices@, order@, 0, m as int);
    }
    None
}

impl ShapeUtil {
    /// Triangulates a polyline by ear clipping: cleans it, then repeatedly cuts
    /// off the first convex corner whose triangle holds no other vertex. If at
    /// some step no such corner exists it falls back to a fan from the first
    /// vertex. Fewer than three cleaned vertices give an empty result.
    pub fn triangulate_polygon<G: TriangulationGeometry>(polygon: &[G]) -> (r: TriangulateResult<G>)
        requires
            polygon@.len() * polygon@.len() <= usize::MAX,
        ensures
            (r.vertices@, r.indices@) == triangulation(polygon@),
            r.vertices@.len() == 0 ==> r.indices@.len() == 0,
            r.vertices@.len() > 0 ==> {
                &&& r.vertices@.len() >= 3
                &&& r.indices@.len() == 3 * (r.vertices@.len() - 2)
                &&& proper_triangles(r.indices@, r.vertices@.len() as int)
                &&& forall|v: usize| v < r.vertices@.len() ==> r.indices@.contains(v)
            },
    {
        let vertices = clean_polygon(polygon);
        let n = vertices.len();
        if n < 3 {
            return TriangulateResult { vertices: Vec::new(), indices: Vec::new() };
        }
        proof {
            lemma_kept_len(polygon@, polygon@.len() as int);
        }
        assert(n * n <= polygon@.len() * polygon@.len()) by (nonlinear_arith)
            requires
                n <= polygon@.len(),
        ;
        let mut order: Vec<usize> = Vec::new();
        let outline = vertices.as_slice();
        let clockwise = G::clockwise(outline);
        proof {
            let c = choose|s: &[G]| s@ == vertices@;
            assert(outline@ == vertices@);
            assert(c =~= outline);
            assert(clockwise == clockwise_of(vertices@));
        }
        let mut k: usize = 0;
        while k < n
            invariant
                0 <= k <= n,
                order@.len() == k,
                forall|j: int| 0 <= j < k ==> order@[j] == (if clockwise { n - 1 - j } else { j }),
            decreases n - k,
        {
            if clockwise {
                order.push(n - 1 - k);
            } else {
                order.push(k);
            }
            k = k + 1;
        }
        let ghost target = clip_ears(vertices@, order@, Seq::empty());
        proof {
            assert(order@ =~= initial_order(n as int, clockwise));
            assert forall|a: int, b: int| 0 <= a < b < order@.len() implies order@[a] != order@[b] by {}
            assert forall|v: usize| v < n implies order@.contains(v) by {
                if clockwise {
                    assert(order@[n - 1 - v] == v);
                } else {
                    assert(order@[v as int] == v);
                }
            }
        }
        let mut indices: Vec<usize> = Vec::new();
        let mut guard: usize = 0;
        let limit = n * n;
        assert(n < n * n) by (nonlinear_arith)
            requires
                3 <= n,
        ;
        while order.len() > 3 && guard < limit
            invariant
                3 <= n,
                limit == n * n,
                n < limit,
                vertices@ == cleaned(polygon@),
                3 <= order@.len() <= n,
                guard == n - order@.len(),
                vertices@.len() == n,
                forall|a: int, b: int| 0 <= a < b < order@.len() ==> order@[a] != order@[b],
                forall|j: int| 0 <= j < order@.len() ==> #[trigger] order@[j] < n,
                indices@.len() == 3 * (n - order@.len()),
                proper_triangles(indices@, n as int),
                forall|v: usize| v < n ==> (order@.contains(v) || indices@.contains(v)),
                clip_ears(vertices@, order@, indices@) == target,
                target == triangulation(polygon@).1,
            decreases order@.len(),
        {
            guard = guard + 1;
            let m = order.len();
            let ear = find_ear(vertices.as_slice(), order.as_slice());
            match ear {
                Some(e) => {
                    let prev = if e == 0 { m - 1 } else { e - 1 };
                    let next = if e + 1 < m { e + 1 } else { 0 };
                    let i0 = order[prev];
                    let i1 = order[e];
                    let i2 = order[next];
                    let ghost old_indices = indices@;
                    let ghost old_order = order@;
                    proof {
                        assert((i0, i1, i2) == corner(old_order, e as int));
                        assert(clip_ears(vertices@, old_order, old_indices) == clip_ears(
                            vertices@,
                            old_order.remove(e as int),
                            old_indices.push(i0).push(i1).push(i2),
                        ));
                    }
                    indices.push(i0);
                    indices.push(i1);
                    indices.push(i2);
                    order.remove(e);
                    proof {
                        lemma_push_triangle(old_indices, i0, i1, i2, n as int);
                        assert(indices@ == old_indices.push(i0).push(i1).push(i2));
                        assert(order@ == old_order.remove(e as int));
                        assert forall|a: int, b: int| 0 <= a < b < order@.len() implies order@[a] != order@[b] by {
                            let oa = if a < e { a } else { a + 1 };
                            let ob = if b < e { b } else { b + 1 };
                            assert(order@[a] == old_order[oa]);
                            assert(order@[b] == old_order[ob]);
                        }
                        assert forall|j: int| 0 <= j < order@.len() implies #[trigger] order@[j] < n by {
                            let oj = if j < e { j } else { j + 1 };
                            assert(order@[j] == old_order[oj]);
                        }
                        assert forall|v: usize| v < n implies (order@.contains(v)
                            || indices@.contains(v)) by {
                            if old_indices.contains(v) {
                                let q = choose|q: int| 0 <= q < old_indices.len() && old_indices[q] == v;
                                assert(indices@[q] == v);
                            } else if v == i1 {
                                assert(indices@[old_indices.len() as int + 1] == i1);
                            } else {
                                assert(old_order.contains(v));
                                let q = choose|q: int| 0 <= q < old_order.len() && old_order[q] == v;
                                assert(q != e);
                                if q < e {
                                    assert(order@[q] == v);
                                } else {
                                    assert(order@[q - 1] == v);
                                }
                            }
                        }
                    }
                },
                None => {
                    proof {
                        assert(target == fan_indices(n as int));
                    }
                    let mut fan: Vec<usize> = Vec::new();
                    let mut t: usize = 1;
                    while t < n - 1
                        invariant
                            3 <= n,
                            1 <= t <= n - 1,
                            fan@.len() == 3 * (t - 1),
                            forall|q: int| 0 <= q < t - 1 ==> #[trigger] fan_triangle(fan@, q),
                        decreases n - t,
                    {
                        let ghost before = fan@;
                        fan.push(0);
                        fan.push(t);
                        fan.push(t + 1);
                        proof {
                            assert forall|q: int| 0 <= q < t implies #[trigger] fan_triangle(fan@, q) by {
                                if q < t - 1 {
                                    assert(fan_triangle(before, q));
                                }
                            }
                        }
                        t = t + 1;
                    }
                    proof {
                        lemma_fan_triangles(fan@, n as int);
                        lemma_fan_indices(fan@, n as int);
                    }
                    return TriangulateResult { vertices, indices: fan };
                },
            }
        }
        let a = order[0];
        let b = order[1];
        let c = order[2];
        let ghost old_indices = indices@;
        indices.push(a);
        indices.push(b);
        indices.push(c);
        proof {
            assert(order@.len() == 3);
            assert(indices@ =~= old_indices + order@);
            lemma_push_triangle(old_indices, a, b, c, n as int);
            assert forall|v: usize| v < n implies indices@.contains(v) by {
                if old_indices.contains(v) {
                    let q = choose|q: int| 0 <= q < old_indices.len() && old_indices[q] == v;
                    assert(indices@[q] == v);
                } else {
                    assert(order@.contains(v));
                    let q = choose|q: int| 0 <= q < 3 && order@[q] == v;
                    assert(indices@[old_indices.len() as int + q] == v);
                }
            }
        }
        TriangulateResult { vertices, indices }
    }
}

/// The first ear from position `i`, if there is one, is an ear at a position
/// of `order` from `i` on.
proof fn lemma_first_ear_is_ear<G: TriangulationGeometry>(v: Seq<G>, order: Seq<usize>, i: int)
    requires
        0 <= i,
    ensures
        first_ear_from(v, order, i) matches Some(e) ==> i <= e < order.len() && is_ear(v, order, e),
        first_ear_from(v, order, i) is None ==> forall|q: int| i <= q < order.len() ==> !is_ear(v, order, q),
    decreases order.len() - i,
{
    if 0 <= i < order.len() && !is_ear(v, order, i) {
        lemma_first_ear_is_ear(v, order, i + 1);
    }
}

/// Ear clipping keeps the triangles found so far in front, unless it falls
/// back to the fan.
proof fn lemma_clip_keeps_prefix<G: TriangulationGeometry>(v: Seq<G>, order: Seq<usize>, indices: Seq<usize>)
    ensures
        clip_ears(v, order, indices) == fan_indices(v.len() as int) || (clip_ears(v, order, indices).len()
            >= indices.len() && clip_ears(v, order, indices).subrange(0, indices.len() as int) == indices),
    decreases order.len(),
{
    let r = clip_ears(v, order, indices);
    if order.len() <= 3 {
        if order.len() == 3 {
            assert((indices + order).subrange(0, indices.len() as int) =~= indices);
        } else {
            assert(indices.subrange(0, indices.len() as int) =~= indices);
        }
    } else {
        match first_ear_from(v, order, 0) {
            Some(e) => {
                if 0 <= e < order.len() {
                    let (a, b, c) = corner(order, e);
                    let next = indices.push(a).push(b).push(c);
                    lemma_clip_keeps_prefix(v, order.remove(e), next);
                    if r != fan_indices(v.len() as int) {
                        assert(r.subrange(0, indices.len() as int) =~= r.subrange(0, next.len() as int).subrange(
                            0,
                            indices.len() as int,
                        ));
                        assert(next.subrange(0, indices.len() as int) =~= indices);
                    }
                } else {
                    assert(indices.subrange(0, indices.len() as int) =~= indices);
                }
            },
            None => {},
        }
    }
}

/// Ear clipping only cuts empty convex corners. From an outline `order` of
/// more than three vertices (with the triangles `indices` found so far):
/// - when some vertex `b` of the outline, with its neighbours `a` before and
///   `c` after, turns left (`is_convex`) and no other vertex of the outline
///   lies in (or on) the triangle `a, b, c`, the result is not the fan
///   fallback unless a later step falls back; otherwise the next triangle
///   cut, right after `indices`, is such a corner `a, b, c` of the outline;
/// - when no vertex of the outline is such a corner, the result is the fan
///   from vertex 0.
/// `triangulate_polygon` runs ear clipping from the whole outline, so every
/// triangle it cuts holds no other vertex of what is left of the outline.
pub proof fn lemma_cut_ears_are_empty<G: TriangulationGeometry>(v: Seq<G>, order: Seq<usize>, indices: Seq<usize>)
    requires
        order.len() > 3,
    ensures
        ({
            let r = clip_ears(v, order, indices);
            let k = indices.len() as int;
            let m = order.len() as int;
            r == fan_indices(v.len() as int) || (r.len() >= k + 3 && r.subrange(0, k) == indices && exists|i: int|
                #![trigger order[i]]
                0 <= i < m && {
                    let a = r[k];
                    let b = r[k + 1];
                    let c = r[k + 2];
                    &&& b == order[i]
                    &&& a == order[if i == 0 { m - 1 } else { i - 1 }]
                    &&& c == order[if i + 1 < m { i + 1 } else { 0 }]
                    &&& G::spec_is_convex(v[a as int], v[b as int], v[c as int])
                    &&& forall|j: int|
                        0 <= j < m && order[j] != a && order[j] != b && order[j] != c
                            ==> !G::spec_point_in_triangle(
                            v[#[trigger] order[j] as int],
                            v[a as int],
                            v[b as int],
                            v[c as int],
                        )
                })
        }),
        ({
            let m = order.len() as int;
            (forall|i: int|
                #![trigger order[i]]
                0 <= i < m ==> {
                    let a = order[if i == 0 { m - 1 } else { i - 1 }];
                    let b = order[i];
                    let c = order[if i + 1 < m { i + 1 } else { 0 }];
                    !(G::spec_is_convex(v[a as int], v[b as int], v[c as int]) && forall|j: int|
                        0 <= j < m && order[j] != a && order[j] != b && order[j] != c
                            ==> !G::spec_point_in_triangle(
                            v[#[trigger] order[j] as int],
                            v[a as int],
                            v[b as int],
                            v[c as int],
                        ))
                }) ==> clip_ears(v, order, indices) == fan_indices(v.len() as int)
        }),
{
    let r = clip_ears(v, order, indices);
    let k = indices.len() as int;
    let m = order.len() as int;
    lemma_first_ear_is_ear(v, order, 0);
    match first_ear_from(v, order, 0) {
        Some(e) => {
            let (a, b, c) = corner(order, e);
            let next = indices.push(a).push(b).push(c);
            lemma_clip_keeps_prefix(v, order.remove(e), next);
            if r != fan_indices(v.len() as int) {
                assert(r.subrange(0, next.len() as int) == next);
                assert(r[k] == next[k]);
                assert(r[k + 1] == next[k + 1]);
                assert(r[k + 2] == next[k + 2]);
                assert(r.subrange(0, k) =~= next.subrange(0, k));
                assert(next.subrange(0, k) =~= indices);
                assert(is_ear(v, order, e));
            }
            let a2 = order[if e == 0 { m - 1 } else { e - 1 }];
            let b2 = order[e];
            let c2 = order[if e + 1 < m { e + 1 } else { 0 }];
            assert(is_ear(v, order, e));
            assert(G::spec_is_convex(v[a2 as int], v[b2 as int], v[c2 as int]));
        },
        None => {
            assert forall|i: int| 0 <= i < m implies !is_ear(v, order, i) by {}
        },
    }
}

/// The vertices kept from the first `i` points sit at ascending positions
/// `pos` among them, the first at position 0, and each is far from the one
/// before it.
proof fn lemma_kept_positions<G: TriangulationGeometry>(points: Seq<G>, i: int) -> (pos: Seq<int>)
    requires
        0 <= i <= points.len(),
    ensures
        pos.len() == kept_vertices(points, i).len(),
        forall|k: int| 0 <= k < pos.len() ==> 0 <= #[trigger] pos[k] < i,
        forall|k: int| 0 <= k < pos.len() ==> kept_vertices(points, i)[k] == points[#[trigger] pos[k]],
        forall|k: int, l: int| 0 <= k < l < pos.len() ==> pos[k] < pos[l],
        i > 0 ==> pos.len() > 0 && pos[0] == 0,
        forall|k: int|
            0 <= k < pos.len() - 1 ==> G::spec_far_apart(
                #[trigger] kept_vertices(points, i)[k],
                kept_vertices(points, i)[k + 1],
            ),
    decreases i,
{
    if i == 0 {
        Seq::empty()
    } else {
        let before = lemma_kept_positions(points, i - 1);
        let prev = kept_vertices(points, i - 1);
        let p = points[i - 1];
        if prev.len() == 0 || G::spec_far_apart(prev.last(), p) {
            let pos = before.push(i - 1);
            let now = kept_vertices(points, i);
            assert(now == prev.push(p));
            assert forall|k: int| 0 <= k < pos.len() - 1 implies G::spec_far_apart(#[trigger] now[k], now[k + 1]) by {
                if k < pos.len() - 2 {
                    assert(now[k] == prev[k] && now[k + 1] == prev[k + 1]);
                } else {
                    assert(now[k] == prev.last());
                }
            }
            pos
        } else {
            before
        }
    }
}

/// The cleaned polyline keeps the first point (if any) and a selection of the
/// others in their order, and each kept vertex lies far enough (`far_apart`)
/// from the one kept before it.
pub proof fn lemma_cleaned_keeps_order_and_spacing<G: TriangulationGeometry>(points: Seq<G>)
    ensures
        ({
            let c = cleaned(points);
            &&& c.len() <= points.len()
            &&& points.len() > 0 ==> c.len() > 0 && c[0] == points[0]
            &&& exists|pos: Seq<int>|
                pos.len() == c.len() && (forall|k: int| 0 <= k < pos.len() ==> 0 <= #[trigger] pos[k] < points.len()
                    && c[k] == points[pos[k]]) && (forall|k: int, l: int| 0 <= k < l < pos.len() ==> pos[k] < pos[l])
            &&& forall|k: int| 0 <= k < c.len() - 1 ==> G::spec_far_apart(#[trigger] c[k], c[k + 1])
        }),
{
    let n = points.len() as int;
    let pos = lemma_kept_positions(points, n);
    let kept = kept_vertices(points, n);
    let c = cleaned(points);
    if kept.len() >= 2 && G::spec_coincide(kept[0], kept.last()) {
        let p2 = pos.drop_last();
        assert(c == kept.drop_last());
        assert forall|k: int| 0 <= k < p2.len() implies 0 <= #[trigger] p2[k] < points.len() && c[k] == points[p2[k]] by {
            assert(p2[k] == pos[k]);
        }
        assert forall|k: int, l: int| 0 <= k < l < p2.len() implies p2[k] < p2[l] by {
            assert(p2[k] == pos[k] && p2[l] == pos[l]);
        }
        assert forall|k: int| 0 <= k < c.len() - 1 implies G::spec_far_apart(#[trigger] c[k], c[k + 1]) by {
            assert(c[k] == kept[k] && c[k + 1] == kept[k + 1]);
        }
        assert(p2.len() == c.len());
    } else {
        assert(c == kept);
        assert(pos.len() == c.len());
    }
    lemma_kept_len(points, n);
}

/// Ear clipping starts from every vertex once, in counter-clockwise order:
/// the outline's own order, or its reverse when it runs clockwise. The fan
/// fallback over `n` vertices is the triangles `0, t, t + 1` for `t` from 1 to
/// `n - 2`, in that order.
pub proof fn lemma_start_order_and_fan(n: int, clockwise: bool)
    requires
        3 <= n <= usize::MAX,
    ensures
        initial_order(n, clockwise).len() == n,
        forall|j: int|
            0 <= j < n ==> #[trigger] initial_order(n, clockwise)[j] == (if clockwise { n - 1 - j } else { j }),
        fan_indices(n).len() == 3 * (n - 2),
        forall|t: int|
            0 <= t < n - 2 ==> #[trigger] fan_indices(n)[3 * t] == 0 && fan_indices(n)[3 * t + 1] == t + 1
                && fan_indices(n)[3 * t + 2] == t + 2,
{
    assert forall|t: int| 0 <= t < n - 2 implies #[trigger] fan_indices(n)[3 * t] == 0 && fan_indices(n)[3 * t + 1]
        == t + 1 && fan_indices(n)[3 * t + 2] == t + 2 by {
        assert((3 * t) % 3 == 0 && (3 * t) / 3 == t);
        assert((3 * t + 1) % 3 == 1 && (3 * t + 1) / 3 == t);
        assert((3 * t + 2) % 3 == 2 && (3 * t + 2) / 3 == t);
    }
}

/// At most `i` vertices are kept from the first `i`.
proof fn lemma_kept_len<G: TriangulationGeometry>(points: Seq<G>, i: int)
    requires
        0 <= i,
    ensures
        kept_vertices(points, i).len() <= i,
    decreases i,
{
    if i > 0 {
        lemma_kept_len(points, i - 1);
    }
}

/// With no ear at positions `k` up to `i`, the first ear from `k` is the first
/// ear from `i`.
proof fn lemma_first_ear<G: TriangulationGeometry>(v: Seq<G>, order: Seq<usize>, k: int, i: int)
    requires
        0 <= k <= i <= order.len(),
        forall|q: int| k <= q < i ==> !is_ear(v, order, q),
    ensures
        first_ear_from(v, order, k) == first_ear_from(v, order, i),
    decreases i - k,
{
    if k < i {
        lemma_first_ear(v, order, k + 1, i);
    }
}

/// A list of fan triangles is `fan_indices`.
proof fn lemma_fan_indices(fan: Seq<usize>, n: int)
    requires
        3 <= n,
        fan.len() == 3 * (n - 2),
        forall|q: int| 0 <= q < n - 2 ==> #[trigger] fan_triangle(fan, q),
    ensures
        fan == fan_indices(n),
{
    assert forall|k: int| 0 <= k < fan.len() implies fan[k] == #[trigger] fan_indices(n)[k] by {
        let q = k / 3;
        assert(fan_triangle(fan, q));
        assert(k == 3 * q + k % 3);
    }
    assert(fan =~= fan_indices(n));
}

/// Appending a triangle of three different vertices keeps the list proper.
proof fn lemma_push_triangle(s: Seq<usize>, a: usize, b: usize, c: usize, n: int)
    requires
        proper_triangles(s, n),
        a < n,
        b < n,
        c < n,
        a != b,
        b != c,
        a != c,
    ensures
        proper_triangles(s.push(a).push(b).push(c), n),
{
    let t = s.push(a).push(b).push(c);
    let q = s.len() / 3;
    assert(t.len() / 3 == q + 1);
    assert forall|k: int| 0 <= k < q + 1 implies #[trigger] distinct_corners(t, k) by {
        if k < q {
            assert(distinct_corners(s, k));
            assert(t[3 * k] == s[3 * k]);
            assert(t[3 * k + 1] == s[3 * k + 1]);
            assert(t[3 * k + 2] == s[3 * k + 2]);
        } else {
            assert(3 * k == s.len());
        }
    }
}

/// Whether triangle `q` of `fan` is vertex 0 with vertices `q + 1` and `q + 2`.
spec fn fan_triangle(fan: Seq<usize>, q: int) -> bool {
    &&& fan[3 * q] == 0
    &&& fan[3 * q + 1] == q + 1
    &&& fan[3 * q + 2] == q + 2
}

/// A fan from vertex 0 is a proper triangulation touching every vertex.
proof fn lemma_fan_triangles(fan: Seq<usize>, n: int)
    requires
        3 <= n,
        fan.len() == 3 * (n - 2),
        forall|q: int| 0 <= q < n - 2 ==> #[trigger] fan_triangle(fan, q),
    ensures
        proper_triangles(fan, n),
        forall|v: usize| v < n ==> fan.contains(v),
{
    assert forall|k: int| 0 <= k < fan.len() implies #[trigger] fan[k] < n by {
        let q = k / 3;
        assert(fan_triangle(fan, q));
        assert(0 <= q < n - 2);
        assert(k == 3 * q || k == 3 * q + 1 || k == 3 * q + 2);
    }
    assert forall|t: int| 0 <= t < fan.len() / 3 implies #[trigger] distinct_corners(fan, t) by {
        assert(fan_triangle(fan, t));
    }
    assert forall|v: usize| v < n implies fan.contains(v) by {
        if v == 0 {
            assert(fan_triangle(fan, 0));
            assert(fan[0] == 0);
        } else if v < n - 1 {
            assert(fan_triangle(fan, v - 1));
            assert(fan[3 * (v - 1) + 1] == v);
        } else {
            assert(fan_triangle(fan, n - 3));
            assert(fan[3 * (n - 3) + 2] == v);
        }
    }
}

} // verus!
