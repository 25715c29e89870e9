//! Copying selected control points out of their paths.

use vstd::prelude::*;
use crate::document::path_views;
use crate::path::{PPWPath, PathView, SegmentDefaults, spec_copied_subpath};
use crate::selection::{
    PointSelection, paths_in_order, points_of_path, selected_on_path, selected_paths_in_order, strictly_increasing,
};

verus! {

/// The points a copy works from: the selected nodes or, when there are none,
/// the selected points of the selected path.
pub open spec fn copy_source(selected_path: usize, selected_points: Seq<usize>, nodes: Seq<PointSelection>) -> Seq<PointSelection> {
    if nodes.len() == 0 {
        selected_points.map_values(|p: usize| PointSelection { path_index: selected_path, point_index: p })
    } else {
        nodes
    }
}

/// Whether `idx` lists, ascending and once each, the points `nodes` selects on path `j`.
pub open spec fn is_sorted_selection(idx: Seq<usize>, nodes: Seq<PointSelection>, j: usize) -> bool {
    &&& strictly_increasing(idx)
    &&& forall|p: usize| idx.contains(p) <==> selected_on_path(nodes, j, p)
}

/// The points `nodes` selects on path `j`, ascending and once each.
pub open spec fn sorted_selection(nodes: Seq<PointSelection>, j: usize) -> Seq<usize> {
    choose|idx: Seq<usize>| is_sorted_selection(idx, nodes, j)
}

/// Two ascending lists of the same values are equal.
proof fn lemma_sorted_unique(a: Seq<usize>, b: Seq<usize>)
    requires
        strictly_increasing(a),
        strictly_increasing(b),
        forall|p: usize| a.contains(p) <==> b.contains(p),
    ensures
        a == b,
    decreases a.len() + b.len(),
{
    if a.len() == 0 || b.len() == 0 {
        if a.len() > 0 {
            assert(a.contains(a[0]));
        }
        if b.len() > 0 {
            assert(b.contains(b[0]));
        }
        assert(a =~= b);
    } else {
        // Both start with the smallest value.
        assert(a.contains(a[0]));
        assert(b.contains(b[0]));
        let i = choose|i: int| 0 <= i < b.len() && b[i] == a[0];
        let k = choose|k: int| 0 <= k < a.len() && a[k] == b[0];
        if i > 0 {
            assert(b[0] < b[i]);
            if k > 0 {
                assert(a[0] < a[k]);
            }
        }
        assert(a[0] == b[0]);
        let a1 = a.skip(1);
        let b1 = b.skip(1);
        assert forall|p: usize| a1.contains(p) <==> b1.contains(p) by {
            if a1.contains(p) {
                let x = choose|x: int| 0 <= x < a1.len() && a1[x] == p;
                assert(a[x + 1] == p);
                assert(a.contains(p));
                let y = choose|y: int| 0 <= y < b.len() && b[y] == p;
                assert(p > a[0]);
                assert(y > 0);
                assert(b1[y - 1] == p);
            }
            if b1.contains(p) {
                let x = choose|x: int| 0 <= x < b1.len() && b1[x] == p;
                assert(b[x + 1] == p);
                assert(b.contains(p));
                let y = choose|y: int| 0 <= y < a.len() && a[y] == p;
                assert(p > b[0]);
                assert(y > 0);
                assert(a1[y - 1] == p);
            }
        }
        lemma_sorted_unique(a1, b1);
        assert(a =~= seq![a[0]] + a1);
        assert(b =~= seq![b[0]] + b1);
    }
}

/// The copies of the first `k` selected paths (in the order they are first
/// named): for each existing path, the open path of its selected points (see
/// `spec_copied_subpath`), left out when no selected point exists on it.
pub open spec fn copied_paths<P, S>(
    paths: Seq<PathView<P, S>>,
    source: Seq<PointSelection>,
    d: SegmentDefaults<S>,
    k: int,
) -> Seq<PathView<P, S>>
    decreases k,
{
    if k <= 0 {
        Seq::empty()
    } else {
        let prev = copied_paths(paths, source, d, k - 1);
        let j = paths_in_order(source)[k - 1];
        if j < paths.len() {
            let c = spec_copied_subpath(paths[j as int], sorted_selection(source, j), d);
            if c.control_points.len() > 0 {
                prev.push(c)
            } else {
                prev
            }
        } else {
            prev
        }
    }
}

/// The selected points of each selected path, copied as open paths (see
/// `copied_paths`), in the order the paths are first named by the selection.
pub fn copy_point_paths<P: Copy, S: Copy>(
    paths: &[PPWPath<P, S>],
    selected_path: usize,
    selected_points: &[usize],
    selected_nodes: &[PointSelection],
    d: SegmentDefaults<S>,
) -> (r: Vec<PPWPath<P, S>>)
    ensures
        path_views(r@) == copied_paths(
            path_views(paths@),
            copy_source(selected_path, selected_points@, selected_nodes@),
            d,
            paths_in_order(copy_source(selected_path, selected_points@, selected_nodes@)).len() as int,
        ),
{
    let ghost source = copy_source(selected_path, selected_points@, selected_nodes@);
    let mut nodes: Vec<PointSelection> = Vec::new();
    if selected_nodes.len() == 0 {
        let mut i: usize = 0;
        while i < selected_points.len()
            invariant
                0 <= i <= selected_points@.len(),
                nodes@ == selected_points@.take(i as int).map_values(
                    |p: usize| PointSelection { path_index: selected_path, point_index: p },
                ),
            decreases selected_points@.len() - i,
        {
            nodes.push(PointSelection { path_index: selected_path, point_index: selected_points[i] });
            i = i + 1;
            assert(nodes@ =~= selected_points@.take(i as int).map_values(
                |p: usize| PointSelection { path_index: selected_path, point_index: p },
            ));
        }
        assert(selected_points@.take(selected_points@.len() as int) =~= selected_points@);
    } else {
        let mut i: usize = 0;
        while i < selected_nodes.len()
            invariant
                0 <= i <= selected_nodes@.len(),
                nodes@ == selected_nodes@.take(i as int),
            decreases selected_nodes@.len() - i,
        {
            nodes.push(selected_nodes[i]);
            i = i + 1;
            assert(nodes@ =~= selected_nodes@.take(i as int));
        }
        assert(selected_nodes@.take(selected_nodes@.len() as int) =~= selected_nodes@);
    }
    assert(nodes@ == source);
    let order = selected_paths_in_order(nodes.as_slice());
    let ghost views = path_views(paths@);
    let mut r: Vec<PPWPath<P, S>> = Vec::new();
    let mut k: usize = 0;
    while k < order.len()
        invariant
            0 <= k <= order@.len(),
            order@ == paths_in_order(source),
            nodes@ == source,
            views == path_views(paths@),
            path_views(r@) == copied_paths(views, source, d, k as int),
        decreases order@.len() - k,
    {
        let j = order[k];
        if j < paths.len() {
            let idx = points_of_path(nodes.as_slice(), j);
            proof {
                assert(is_sorted_selection(idx@, source, j));
                let chosen = sorted_selection(source, j);
                assert(is_sorted_selection(chosen, source, j));
                lemma_sorted_unique(idx@, chosen);
                assert(views[j as int] == paths@[j as int]@);
            }
            let c = paths[j].copied_subpath(idx.as_slice(), d);
            if c.control_points.len() > 0 {
                let ghost before = r@;
                r.push(c);
                assert(path_views(r@) =~= path_views(before).push(c@));
            }
        }
        k = k + 1;
    }
    r
}

} // verus!
