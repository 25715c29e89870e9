//! Point and segment selections on the canvas, and the index lists they keep.

use vstd::prelude::*;
use vstd::relations::{sorted_by, total_ordering};
use vstd::seq_lib::lemma_sorted_unique;

verus! {

broadcast use vstd::seq_lib::group_to_multiset_ensures, vstd::multiset::group_multiset_axioms;

/// A control point of a path in the active layer.
#[derive(Debug, Clone, Copy, PartialEq, Eq, PartialOrd, Ord, Hash, Structural)]
pub struct PointSelection {
    pub path_index: usize,
    pub point_index: usize,
}

/// A segment (between two control points) of a path in the active layer.
#[derive(Debug, Clone, Copy, PartialEq, Eq, Structural)]
pub struct SegmentSelection {
    pub path_index: usize,
    pub segment_index: usize,
}

/// The order of point selections: by path, then by point (the derived `Ord`).
pub open spec fn node_le(a: PointSelection, b: PointSelection) -> bool {
    a.path_index < b.path_index || (a.path_index == b.path_index && a.point_index <= b.point_index)
}

/// The order of indices.
pub open spec fn index_le(a: usize, b: usize) -> bool {
    a <= b
}

/// The order of point selections is total.
pub proof fn lemma_node_le_total()
    ensures
        total_ordering(|a: PointSelection, b: PointSelection| node_le(a, b)),
{
}

/// The order of indices is total.
pub proof fn lemma_index_le_total()
    ensures
        total_ordering(|a: usize, b: usize| index_le(a, b)),
{
}

/// The position of the first occurrence of `x` in `s`.
pub open spec fn first_index<A>(s: Seq<A>, x: A) -> int {
    choose|i: int| 0 <= i < s.len() && s[i] == x && forall|j: int| 0 <= j < i ==> s[j] != x
}

/// An occurrence with none before it is the first occurrence.
pub proof fn lemma_first_index<A>(s: Seq<A>, x: A, i: int)
    requires
        0 <= i < s.len(),
        s[i] == x,
        forall|j: int| 0 <= j < i ==> s[j] != x,
    ensures
        first_index(s, x) == i,
        s.contains(x),
{
    let f = first_index(s, x);
    assert(0 <= f < s.len() && s[f] == x && forall|j: int| 0 <= j < f ==> s[j] != x);
    if f < i {
        assert(s[f] != x);
    }
    if i < f {
        assert(s[i] != x);
    }
}

fn node_le_exec(a: PointSelection, b: PointSelection) -> (r: bool)
    ensures
        r == node_le(a, b),
{
    a.path_index < b.path_index || (a.path_index == b.path_index && a.point_index <= b.point_index)
}

/// Inserts `x` into a sorted vector at its place.
fn insert_sorted_node(v: &mut Vec<PointSelection>, x: PointSelection)
    requires
        sorted_by(old(v)@, |a: PointSelection, b: PointSelection| node_le(a, b)),
    ensures
        sorted_by(final(v)@, |a: PointSelection, b: PointSelection| node_le(a, b)),
        final(v)@.to_multiset() == old(v)@.to_multiset().insert(x),
{
    let mut pos: usize = 0;
    while pos < v.len() && node_le_exec(v[pos], x)
        invariant
            0 <= pos <= v@.len(),
            v@ == old(v)@,
            forall|k: int| 0 <= k < pos ==> node_le(#[trigger] v@[k], x),
        decreases v@.len() - pos,
    {
        pos = pos + 1;
    }
    proof {
        vstd::seq_lib::to_multiset_insert(v@, pos as int, x);
    }
    v.insert(pos, x);
    proof {
        let leq = |a: PointSelection, b: PointSelection| node_le(a, b);
        let o = old(v)@;
        assert forall|i: int, j: int| 0 <= i < j < v@.len() implies #[trigger] leq(v@[i], v@[j]) by {
            if j < pos {
                assert(leq(o[i], o[j]));
            } else if j == pos {
                assert(node_le(o[i], x));
            } else if i < pos {
                assert(node_le(o[i], x));
                assert(!node_le(o[pos as int], x));
            } else if i == pos {
                assert(!node_le(o[pos as int], x));
                if pos < j - 1 {
                    assert(leq(o[pos as int], o[j - 1]));
                }
            } else {
                assert(leq(o[i - 1], o[j - 1]));
            }
        }
    }
}

/// `v` in sorted order (what `sort_unstable` gives for the derived order).
pub fn sort_nodes(v: &Vec<PointSelection>) -> (r: Vec<PointSelection>)
    ensures
        r@ == v@.sort_by(|a: PointSelection, b: PointSelection| node_le(a, b)),
{
    let ghost leq = |a: PointSelection, b: PointSelection| node_le(a, b);
    let mut r: Vec<PointSelection> = Vec::new();
    let mut i: usize = 0;
    while i < v.len()
        invariant
            0 <= i <= v@.len(),
            sorted_by(r@, |a: PointSelection, b: PointSelection| node_le(a, b)),
            r@.to_multiset() == v@.take(i as int).to_multiset(),
        decreases v@.len() - i,
    {
        insert_sorted_node(&mut r, v[i]);
        proof {
            assert(v@.take(i + 1) =~= v@.take(i as int).push(v@[i as int]));
        }
        i = i + 1;
    }
    proof {
        assert(v@.take(v@.len() as int) =~= v@);
        lemma_node_le_total();
        v@.lemma_sort_by_ensures(leq);
        lemma_sorted_unique(r@, v@.sort_by(leq), leq);
    }
    r
}

/// Selects `node` if it was not selected (keeping the list sorted), or
/// deselects its first occurrence.
pub fn toggle_node(nodes: &mut Vec<PointSelection>, node: PointSelection)
    ensures
        old(nodes)@.contains(node) ==> final(nodes)@ == old(nodes)@.remove(first_index(old(nodes)@, node)),
        !old(nodes)@.contains(node) ==> final(nodes)@ == old(nodes)@.push(node).sort_by(
            |a: PointSelection, b: PointSelection| node_le(a, b),
        ),
{
    let mut pos: usize = 0;
    while pos < nodes.len()
        invariant
            0 <= pos <= nodes@.len(),
            nodes@ == old(nodes)@,
            forall|k: int| 0 <= k < pos ==> nodes@[k] != node,
        decreases nodes@.len() - pos,
    {
        if nodes[pos] == node {
            proof {
                lemma_first_index(nodes@, node, pos as int);
            }
            nodes.remove(pos);
            return;
        }
        pos = pos + 1;
    }
    nodes.push(node);
    let sorted = sort_nodes(nodes);
    *nodes = sorted;
}

/// Selects `index` if it was not selected (keeping the list sorted), or
/// deselects its first occurrence.
pub fn toggle_index(indices: &mut Vec<usize>, index: usize)
    ensures
        old(indices)@.contains(index) ==> final(indices)@ == old(indices)@.remove(first_index(old(indices)@, index)),
        !old(indices)@.contains(index) ==> final(indices)@ == old(indices)@.push(index).sort_by(
            |a: usize, b: usize| index_le(a, b),
        ),
{
    let mut pos: usize = 0;
    while pos < indices.len()
        invariant
            0 <= pos <= indices@.len(),
            indices@ == old(indices)@,
            forall|k: int| 0 <= k < pos ==> indices@[k] != index,
        decreases indices@.len() - pos,
    {
        if indices[pos] == index {
            proof {
                lemma_first_index(indices@, index, pos as int);
            }
            indices.remove(pos);
            return;
        }
        pos = pos + 1;
    }
    indices.push(index);
    let sorted = sort_indices(indices);
    *indices = sorted;
}

/// Inserts `x` into a sorted vector at its place.
fn insert_sorted_index(v: &mut Vec<usize>, x: usize)
    requires
        sorted_by(old(v)@, |a: usize, b: usize| index_le(a, b)),
    ensures
        sorted_by(final(v)@, |a: usize, b: usize| index_le(a, b)),
        final(v)@.to_multiset() == old(v)@.to_multiset().insert(x),
{
    let mut pos: usize = 0;
    while pos < v.len() && v[pos] <= x
        invariant
            0 <= pos <= v@.len(),
            v@ == old(v)@,
            forall|k: int| 0 <= k < pos ==> #[trigger] v@[k] <= x,
        decreases v@.len() - pos,
    {
        pos = pos + 1;
    }
    proof {
        vstd::seq_lib::to_multiset_insert(v@, pos as int, x);
    }
    v.insert(pos, x);
    proof {
        let leq = |a: usize, b: usize| index_le(a, b);
        let o = old(v)@;
        assert forall|i: int, j: int| 0 <= i < j < v@.len() implies #[trigger] leq(v@[i], v@[j]) by {
            if j < pos {
                assert(leq(o[i], o[j]));
            } else if j == pos {
            } else if i < pos {
                assert(o[i] <= x);
                assert(!(o[pos as int] <= x));
            } else if i == pos {
                assert(!(o[pos as int] <= x));
                if pos < j - 1 {
                    assert(leq(o[pos as int], o[j - 1]));
                }
            } else {
                assert(leq(o[i - 1], o[j - 1]));
            }
        }
    }
}

/// `v` in ascending order (what `sort_unstable` gives).
pub fn sort_indices(v: &Vec<usize>) -> (r: Vec<usize>)
    ensures
        r@ == v@.sort_by(|a: usize, b: usize| index_le(a, b)),
{
    let ghost leq = |a: usize, b: usize| index_le(a, b);
    let mut r: Vec<usize> = Vec::new();
    let mut i: usize = 0;
    while i < v.len()
        invariant
            0 <= i <= v@.len(),
            sorted_by(r@, |a: usize, b: usize| index_le(a, b)),
            r@.to_multiset() == v@.take(i as int).to_multiset(),
        decreases v@.len() - i,
    {
        insert_sorted_index(&mut r, v[i]);
        proof {
            assert(v@.take(i + 1) =~= v@.take(i as int).push(v@[i as int]));
        }
        i = i + 1;
    }
    proof {
        assert(v@.take(v@.len() as int) =~= v@);
        lemma_index_le_total();
        v@.lemma_sort_by_ensures(leq);
        lemma_sorted_unique(r@, v@.sort_by(leq), leq);
    }
    r
}

} // verus!

verus! {

/// Whether `s` is in strictly ascending order.
pub open spec fn strictly_increasing(s: Seq<usize>) -> bool {
    forall|i: int, j: int| 0 <= i < j < s.len() ==> s[i] < s[j]
}

/// Inserts `x` at its place in a strictly ascending vector, unless already there.
fn insert_unique_sorted(v0: Vec<usize>, x: usize) -> (v: Vec<usize>)
    requires
        strictly_increasing(v0@),
    ensures
        strictly_increasing(v@),
        forall|y: usize| v@.contains(y) <==> (v0@.contains(y) || y == x),
{
    let mut v = v0;
    let mut pos: usize = 0;
    while pos < v.len() && v[pos] < x
        invariant
            0 <= pos <= v@.len(),
            v@ == v0@,
            forall|k: int| 0 <= k < pos ==> #[trigger] v@[k] < x,
        decreases v@.len() - pos,
    {
        pos = pos + 1;
    }
    if pos < v.len() && v[pos] == x {
        assert(v@.contains(x));
        return v;
    }
    v.insert(pos, x);
    proof {
        let o = v0@;
        assert forall|i: int, j: int| 0 <= i < j < v@.len() implies v@[i] < v@[j] by {
            if j < pos {
            } else if j == pos {
            } else if i < pos {
                assert(o[i] < x);
                assert(x < o[pos as int]);
                if pos < j - 1 {
                    assert(o[pos as int] < o[j - 1]);
                }
            } else if i == pos {
                if pos < j - 1 {
                    assert(o[pos as int] < o[j - 1]);
                }
            } else {
            }
        }
        assert forall|y: usize| v@.contains(y) <==> (o.contains(y) || y == x) by {
            if o.contains(y) {
                let k = choose|k: int| 0 <= k < o.len() && o[k] == y;
                if k < pos {
                    assert(v@[k] == y);
                } else {
                    assert(v@[k + 1] == y);
                }
            }
            if y == x {
                assert(v@[pos as int] == x);
            }
            if v@.contains(y) {
                let k = choose|k: int| 0 <= k < v@.len() && v@[k] == y;
                if k < pos {
                    assert(o[k] == y);
                    assert(o.contains(y));
                } else if k > pos {
                    assert(o[k - 1] == y);
                    assert(o.contains(y));
                }
            }
        }
    }
    assert(forall|y: usize| v@.contains(y) ==> (v0@.contains(y) || y == x));
    assert(forall|y: usize| (v0@.contains(y) || y == x) ==> v@.contains(y));
    v
}

/// The point indices selected on path `path_index`.
pub open spec fn selected_on_path(nodes: Seq<PointSelection>, path_index: usize, point: usize) -> bool {
    exists|k: int| 0 <= k < nodes.len() && nodes[k].path_index == path_index && nodes[k].point_index == point
}

/// The point indices that `nodes` selects on path `path_index`, ascending and
/// without repeats.
pub fn points_of_path(nodes: &[PointSelection], path_index: usize) -> (r: Vec<usize>)
    ensures
        strictly_increasing(r@),
        forall|p: usize| r@.contains(p) <==> selected_on_path(nodes@, path_index, p),
{
    let mut r: Vec<usize> = Vec::new();
    let mut i: usize = 0;
    while i < nodes.len()
        invariant
            0 <= i <= nodes@.len(),
            strictly_increasing(r@),
            forall|p: usize| r@.contains(p) <==> selected_on_path(nodes@.take(i as int), path_index, p),
        decreases nodes@.len() - i,
    {
        let node = nodes[i];
        if node.path_index == path_index {
            r = insert_unique_sorted(r, node.point_index);
        }
        proof {
            let t = nodes@.take(i + 1);
            assert forall|p: usize| r@.contains(p) <==> selected_on_path(t, path_index, p) by {
                if selected_on_path(t, path_index, p) {
                    let k = choose|k: int| 0 <= k < t.len() && t[k].path_index == path_index && t[k].point_index == p;
                    if k < i {
                        assert(nodes@.take(i as int)[k] == t[k]);
                        assert(selected_on_path(nodes@.take(i as int), path_index, p));
                    }
                }
                if selected_on_path(nodes@.take(i as int), path_index, p) {
                    let k = choose|k: int| 0 <= k < i && nodes@.take(i as int)[k].path_index == path_index
                        && nodes@.take(i as int)[k].point_index == p;
                    assert(t[k] == nodes@.take(i as int)[k]);
                }
                if node.path_index == path_index && p == node.point_index {
                    assert(t[i as int] == node);
                }
            }
        }
        i = i + 1;
    }
    assert(nodes@.take(nodes@.len() as int) =~= nodes@);
    r
}

/// Rebuilds the per-path point list of `selected_path` from the selected nodes:
/// ascending, without repeats.
pub fn sync_legacy_selection(selected_path: usize, selected_points: &mut Vec<usize>, selected_nodes: &[PointSelection])
    ensures
        strictly_increasing(final(selected_points)@),
        forall|p: usize| final(selected_points)@.contains(p) <==> selected_on_path(selected_nodes@, selected_path, p),
{
    *selected_points = points_of_path(selected_nodes, selected_path);
}

/// The ascending list of the distinct values of `indices` (`sort_unstable` then `dedup`).
pub fn sorted_unique(indices: &[usize]) -> (r: Vec<usize>)
    ensures
        strictly_increasing(r@),
        forall|p: usize| r@.contains(p) <==> indices@.contains(p),
{
    let mut r: Vec<usize> = Vec::new();
    let mut i: usize = 0;
    while i < indices.len()
        invariant
            0 <= i <= indices@.len(),
            strictly_increasing(r@),
            forall|p: usize| r@.contains(p) <==> indices@.take(i as int).contains(p),
        decreases indices@.len() - i,
    {
        r = insert_unique_sorted(r, indices[i]);
        proof {
            let t = indices@.take(i + 1);
            assert(t =~= indices@.take(i as int).push(indices@[i as int]));
            assert forall|p: usize| r@.contains(p) <==> t.contains(p) by {
                if t.contains(p) {
                    let k = choose|k: int| 0 <= k < t.len() && t[k] == p;
                    if k < i {
                        assert(indices@.take(i as int)[k] == p);
                    }
                }
                if indices@.take(i as int).contains(p) {
                    let k = choose|k: int| 0 <= k < i && indices@.take(i as int)[k] == p;
                    assert(t[k] == p);
                }
                if p == indices@[i as int] {
                    assert(t[i as int] == p);
                }
            }
        }
        i = i + 1;
    }
    assert(indices@.take(indices@.len() as int) =~= indices@);
    r
}

/// The distinct path indices of `nodes`, in the order they first appear.
pub open spec fn paths_in_order(nodes: Seq<PointSelection>) -> Seq<usize>
    decreases nodes.len(),
{
    if nodes.len() == 0 {
        Seq::empty()
    } else {
        let r = paths_in_order(nodes.drop_last());
        if r.contains(nodes.last().path_index) {
            r
        } else {
            r.push(nodes.last().path_index)
        }
    }
}

/// The distinct path indices of the selected nodes, in the order they first appear.
pub fn selected_paths_in_order(nodes: &[PointSelection]) -> (r: Vec<usize>)
    ensures
        r@ == paths_in_order(nodes@),
{
    let mut r: Vec<usize> = Vec::new();
    let mut i: usize = 0;
    while i < nodes.len()
        invariant
            0 <= i <= nodes@.len(),
            r@ == paths_in_order(nodes@.take(i as int)),
        decreases nodes@.len() - i,
    {
        let p = nodes[i].path_index;
        let mut k: usize = 0;
        let mut seen = false;
        while k < r.len()
            invariant
                0 <= k <= r@.len(),
                seen == r@.take(k as int).contains(p),
            decreases r@.len() - k,
        {
            let ghost before = r@.take(k as int);
            proof {
                assert(r@.take(k + 1) =~= before.push(r@[k as int]));
            }
            if r[k] == p {
                seen = true;
                proof {
                    assert(r@.take(k + 1)[k as int] == p);
                }
            }
            proof {
                let t = r@.take(k + 1);
                if before.contains(p) {
                    let j = choose|j: int| 0 <= j < before.len() && before[j] == p;
                    assert(t[j] == p);
                }
                if t.contains(p) && r@[k as int] != p {
                    let j = choose|j: int| 0 <= j < t.len() && t[j] == p;
                    assert(j < k);
                    assert(before[j] == p);
                }
            }
            k = k + 1;
        }
        assert(r@.take(r@.len() as int) =~= r@);
        proof {
            assert(nodes@.take(i + 1).drop_last() =~= nodes@.take(i as int));
            assert(nodes@.take(i + 1).last() == nodes@[i as int]);
        }
        if !seen {
            r.push(p);
        }
        i = i + 1;
    }
    assert(nodes@.take(nodes@.len() as int) =~= nodes@);
    r
}

/// The segments whose parameters can be edited at `point_index`: the one before
/// and the one after the point, when they exist.
pub open spec fn spec_editable_segment_indices(point_count: int, is_closed: bool, point_index: int) -> Seq<usize> {
    if point_count < 2 || point_index >= point_count {
        Seq::empty()
    } else if is_closed {
        let prev = (point_index + point_count - 1) % point_count;
        if prev == point_index {
            seq![prev as usize]
        } else {
            seq![prev as usize, point_index as usize]
        }
    } else {
        (if point_index > 0 { seq![(point_index - 1) as usize] } else { Seq::empty() }) + (if point_index
            + 1 < point_count {
            seq![point_index as usize]
        } else {
            Seq::empty()
        })
    }
}

/// The segments whose parameters can be edited at `point_index` of a path with
/// `point_count` points.
pub fn editable_segment_indices(point_count: usize, is_closed: bool, point_index: usize) -> (r: Vec<usize>)
    ensures
        r@ == spec_editable_segment_indices(point_count as int, is_closed, point_index as int),
{
    if point_count < 2 || point_index >= point_count {
        return Vec::new();
    }
    if is_closed {
        let prev = if point_index == 0 { point_count - 1 } else { point_index - 1 };
        proof {
            if point_index == 0 {
                vstd::arithmetic::div_mod::lemma_small_mod((point_count - 1) as nat, point_count as nat);
            } else {
                vstd::arithmetic::div_mod::lemma_mod_add_multiples_vanish(point_index - 1, point_count as int);
                vstd::arithmetic::div_mod::lemma_small_mod((point_index - 1) as nat, point_count as nat);
            }
        }
        let next = point_index;
        if prev == next {
            let r = vec![prev];
            assert(r@ =~= seq![prev]);
            r
        } else {
            let r = vec![prev, next];
            assert(r@ =~= seq![prev, next]);
            r
        }
    } else {
        let mut indices: Vec<usize> = Vec::new();
        if point_index > 0 {
            indices.push(point_index - 1);
        }
        if point_index + 1 < point_count {
            indices.push(point_index);
        }
        assert(indices@ =~= spec_editable_segment_indices(point_count as int, is_closed, point_index as int));
        indices
    }
}

} // verus!
