//! What a mouse-wheel step over the canvas edits: the decision, and the list of
//! path parameters it touches. The caller applies the numeric steps.

use vstd::prelude::*;
use crate::document::{LayerKind, path_views};
use crate::path::{PPWPath, PathView};
use crate::selection::{PointSelection, paths_in_order, selected_paths_in_order};
use crate::tools::{
    ParamWheelTarget, Tool, is_fill_color_target, is_global_wheel_target, is_paint_color_target,
    requires_selected_nodes, segment_index_for_wheel_target, spec_is_fill_color_target,
    spec_is_global_wheel_target, spec_is_paint_color_target, spec_requires_selected_nodes,
    spec_segment_index_for_wheel_target,
};

verus! {

/// What a wheel step does.
#[derive(Debug, Clone, Copy, PartialEq, Eq, Structural)]
pub enum WheelAction {
    /// Nothing: the step does not apply.
    Ignore,
    /// Step a color channel (see `color_wheel_target`).
    AdjustColor,
    /// Resize the raster eraser.
    ResizeRasterEraser,
    /// Resize the raster brush.
    ResizeRasterBrush,
    /// Step parameters of the active layer's paths (see `wheel_edit_plan`).
    AdjustPaths,
}

/// The action of a wheel step for the active tool and target, whether nodes
/// are selected, and the active layer's lock and kind (`None`: no active layer).
pub open spec fn spec_wheel_action(
    tool: Tool,
    target: ParamWheelTarget,
    has_selected_nodes: bool,
    active_layer: Option<(bool, LayerKind)>,
) -> WheelAction {
    if !(tool is Select) && !spec_is_global_wheel_target(target) {
        WheelAction::Ignore
    } else if spec_requires_selected_nodes(target) && !has_selected_nodes {
        WheelAction::Ignore
    } else {
        match active_layer {
            None => WheelAction::Ignore,
            Some((locked, kind)) => if locked {
                WheelAction::Ignore
            } else if spec_is_fill_color_target(target) || spec_is_paint_color_target(target) {
                WheelAction::AdjustColor
            } else if target is StrokeWidth && kind == LayerKind::Raster {
                if tool is RasterEraser {
                    WheelAction::ResizeRasterEraser
                } else {
                    WheelAction::ResizeRasterBrush
                }
            } else {
                WheelAction::AdjustPaths
            },
        }
    }
}

/// Decides what a wheel step does (see `spec_wheel_action`).
pub fn wheel_action(
    tool: Tool,
    target: ParamWheelTarget,
    has_selected_nodes: bool,
    active_layer: Option<(bool, LayerKind)>,
) -> (r: WheelAction)
    ensures
        r == spec_wheel_action(tool, target, has_selected_nodes, active_layer),
{
    let is_select = match tool {
        Tool::Select => true,
        _ => false,
    };
    if !is_select && !is_global_wheel_target(target) {
        return WheelAction::Ignore;
    }
    if requires_selected_nodes(target) && !has_selected_nodes {
        return WheelAction::Ignore;
    }
    match active_layer {
        None => WheelAction::Ignore,
        Some((locked, kind)) => {
            if locked {
                WheelAction::Ignore
            } else if is_fill_color_target(target) || is_paint_color_target(target) {
                WheelAction::AdjustColor
            } else if (match target {
                ParamWheelTarget::StrokeWidth => true,
                _ => false,
            }) && kind == LayerKind::Raster {
                match tool {
                    Tool::RasterEraser => WheelAction::ResizeRasterEraser,
                    _ => WheelAction::ResizeRasterBrush,
                }
            } else {
                WheelAction::AdjustPaths
            }
        },
    }
}

/// The color a color wheel step edits.
#[derive(Debug, Clone, Copy, PartialEq, Eq, Structural)]
pub enum ColorWheelTarget {
    /// The raster brush color.
    RasterBrush,
    /// The fill color of the selected path.
    PathFill,
    /// The stroke color of the selected path.
    PathStroke,
    /// Nothing.
    Nothing,
}

/// The color a color step edits: the brush color for a stroke color target on a
/// raster layer, otherwise the selected path's fill or stroke color on a vector
/// layer that has that path.
pub open spec fn spec_color_wheel_target(target: ParamWheelTarget, kind: LayerKind, has_selected_path: bool) -> ColorWheelTarget {
    if spec_is_paint_color_target(target) && kind == LayerKind::Raster {
        ColorWheelTarget::RasterBrush
    } else if kind != LayerKind::Vector || !has_selected_path {
        ColorWheelTarget::Nothing
    } else if spec_is_fill_color_target(target) {
        ColorWheelTarget::PathFill
    } else {
        ColorWheelTarget::PathStroke
    }
}

/// Decides which color a color wheel step edits (see `spec_color_wheel_target`).
pub fn color_wheel_target(target: ParamWheelTarget, kind: LayerKind, has_selected_path: bool) -> (r: ColorWheelTarget)
    ensures
        r == spec_color_wheel_target(target, kind, has_selected_path),
{
    if is_paint_color_target(target) && kind == LayerKind::Raster {
        ColorWheelTarget::RasterBrush
    } else if kind != LayerKind::Vector || !has_selected_path {
        ColorWheelTarget::Nothing
    } else if is_fill_color_target(target) {
        ColorWheelTarget::PathFill
    } else {
        ColorWheelTarget::PathStroke
    }
}

/// One parameter that a wheel step changes.
#[derive(Debug, Clone, Copy, PartialEq, Eq, Structural)]
pub enum WheelEdit {
    StrokeWidth { path: usize },
    Weight { path: usize, point: usize },
    Psi { path: usize, segment: usize },
    Phi { path: usize, segment: usize },
}

/// The paths whose stroke width a step changes: the selected nodes' paths in
/// the order they first appear (the selected path when no node is selected),
/// among those that exist, as a list of the first `k` candidates.
pub open spec fn stroke_edits(candidates: Seq<usize>, path_count: int, k: int) -> Seq<WheelEdit>
    decreases k,
{
    if k <= 0 {
        Seq::empty()
    } else {
        let prev = stroke_edits(candidates, path_count, k - 1);
        if candidates[k - 1] < path_count {
            prev.push(WheelEdit::StrokeWidth { path: candidates[k - 1] })
        } else {
            prev
        }
    }
}

/// The weights a step changes: one per selected node (in order) whose path
/// and weight exist, among the first `k` nodes.
pub open spec fn weight_edits<P, S>(paths: Seq<PathView<P, S>>, nodes: Seq<PointSelection>, k: int) -> Seq<WheelEdit>
    decreases k,
{
    if k <= 0 {
        Seq::empty()
    } else {
        let prev = weight_edits(paths, nodes, k - 1);
        let n = nodes[k - 1];
        if n.path_index < paths.len() && n.point_index < paths[n.path_index as int].weights.len() {
            prev.push(WheelEdit::Weight { path: n.path_index, point: n.point_index })
        } else {
            prev
        }
    }
}

/// The psi (`psi` true) or phi segments a step changes, as (path, segment)
/// pairs: for each of the first `k` nodes, in order, the segment the target
/// names at that point, when its path and parameter exist and it was not
/// already taken.
pub open spec fn segment_edits<P, S>(
    paths: Seq<PathView<P, S>>,
    nodes: Seq<PointSelection>,
    target: ParamWheelTarget,
    psi: bool,
    k: int,
) -> Seq<(usize, usize)>
    decreases k,
{
    if k <= 0 {
        Seq::empty()
    } else {
        let prev = segment_edits(paths, nodes, target, psi, k - 1);
        let n = nodes[k - 1];
        if n.path_index >= paths.len() {
            prev
        } else {
            let p = paths[n.path_index as int];
            let params = if psi { p.psis } else { p.phis };
            match spec_segment_index_for_wheel_target(p.control_points.len() as int, p.is_closed, n.point_index as int, target) {
                None => prev,
                Some(s) => if prev.contains((n.path_index, s as usize)) || s >= params.len() {
                    prev
                } else {
                    prev.push((n.path_index, s as usize))
                },
            }
        }
    }
}

/// The parameters a wheel step changes on `paths` (the active layer's) for a
/// target: stroke widths, weights, psis or phis; none for a color target.
pub open spec fn spec_wheel_edit_plan<P, S>(
    paths: Seq<PathView<P, S>>,
    selected_path: usize,
    nodes: Seq<PointSelection>,
    target: ParamWheelTarget,
) -> Seq<WheelEdit> {
    match target {
        ParamWheelTarget::StrokeWidth => {
            let candidates = if nodes.len() == 0 { seq![selected_path] } else { paths_in_order(nodes) };
            stroke_edits(candidates, paths.len() as int, candidates.len() as int)
        },
        ParamWheelTarget::Weight => weight_edits(paths, nodes, nodes.len() as int),
        ParamWheelTarget::PsiPrev | ParamWheelTarget::PsiNext => segment_edits(
            paths,
            nodes,
            target,
            true,
            nodes.len() as int,
        ).map_values(|e: (usize, usize)| WheelEdit::Psi { path: e.0, segment: e.1 }),
        ParamWheelTarget::PhiPrev | ParamWheelTarget::PhiNext => segment_edits(
            paths,
            nodes,
            target,
            false,
            nodes.len() as int,
        ).map_values(|e: (usize, usize)| WheelEdit::Phi { path: e.0, segment: e.1 }),
        _ => Seq::empty(),
    }
}

/// Whether `pairs` holds `(a, b)`.
fn contains_pair(pairs: &Vec<(usize, usize)>, a: usize, b: usize) -> (r: bool)
    ensures
        r == pairs@.contains((a, b)),
{
    let mut i: usize = 0;
    while i < pairs.len()
        invariant
            0 <= i <= pairs@.len(),
            forall|k: int| 0 <= k < i ==> pairs@[k] != (a, b),
        decreases pairs@.len() - i,
    {
        if pairs[i].0 == a && pairs[i].1 == b {
            assert(pairs@[i as int] == (a, b));
            return true;
        }
        i = i + 1;
    }
    false
}

/// The psi or phi segments a step changes (see `segment_edits`).
fn plan_segments<P: Copy, S: Copy>(
    paths: &[PPWPath<P, S>],
    nodes: &[PointSelection],
    target: ParamWheelTarget,
    psi: bool,
) -> (r: Vec<(usize, usize)>)
    ensures
        r@ == segment_edits(path_views(paths@), nodes@, target, psi, nodes@.len() as int),
{
    let ghost views = path_views(paths@);
    let mut r: Vec<(usize, usize)> = Vec::new();
    let mut i: usize = 0;
    while i < nodes.len()
        invariant
            0 <= i <= nodes@.len(),
            views == path_views(paths@),
            r@ == segment_edits(views, nodes@, target, psi, i as int),
        decreases nodes@.len() - i,
    {
        let n = nodes[i];
        if n.path_index < paths.len() {
            let p = &paths[n.path_index];
            assert(views[n.path_index as int] == p@);
            match segment_index_for_wheel_target(p.control_points.len(), p.is_closed, n.point_index, target) {
                Some(s) => {
                    let count = if psi { p.psis.len() } else { p.phis.len() };
                    if !contains_pair(&r, n.path_index, s) && s < count {
                        r.push((n.path_index, s));
                    }
                },
                None => {},
            }
        }
        i = i + 1;
    }
    r
}

/// The parameters a wheel step changes on the active layer's paths (see
/// `spec_wheel_edit_plan`).
pub fn wheel_edit_plan<P: Copy, S: Copy>(
    paths: &[PPWPath<P, S>],
    selected_path: usize,
    nodes: &[PointSelection],
    target: ParamWheelTarget,
) -> (r: Vec<WheelEdit>)
    ensures
        r@ == spec_wheel_edit_plan(path_views(paths@), selected_path, nodes@, target),
{
    let ghost views = path_views(paths@);
    match target {
        ParamWheelTarget::StrokeWidth => {
            let candidates = if nodes.len() == 0 {
                let c = vec![selected_path];
                assert(c@ =~= seq![selected_path]);
                c
            } else {
                selected_paths_in_order(nodes)
            };
            let mut r: Vec<WheelEdit> = Vec::new();
            let mut i: usize = 0;
            while i < candidates.len()
                invariant
                    0 <= i <= candidates@.len(),
                    r@ == stroke_edits(candidates@, paths@.len() as int, i as int),
                decreases candidates@.len() - i,
            {
                if candidates[i] < paths.len() {
                    r.push(WheelEdit::StrokeWidth { path: candidates[i] });
                }
                i = i + 1;
            }
            r
        },
        ParamWheelTarget::Weight => {
            let mut r: Vec<WheelEdit> = Vec::new();
            let mut i: usize = 0;
            while i < nodes.len()
                invariant
                    0 <= i <= nodes@.len(),
                    views == path_views(paths@),
                    r@ == weight_edits(views, nodes@, i as int),
                decreases nodes@.len() - i,
            {
                let n = nodes[i];
                if n.path_index < paths.len() {
                    assert(views[n.path_index as int] == paths@[n.path_index as int]@);
                    if n.point_index < paths[n.path_index].weights.len() {
                        r.push(WheelEdit::Weight { path: n.path_index, point: n.point_index });
                    }
                }
                i = i + 1;
            }
            r
        },
        ParamWheelTarget::PsiPrev | ParamWheelTarget::PsiNext | ParamWheelTarget::PhiPrev
        | ParamWheelTarget::PhiNext => {
            let psi = match target {
                ParamWheelTarget::PsiPrev | ParamWheelTarget::PsiNext => true,
                _ => false,
            };
            let pairs = plan_segments(paths, nodes, target, psi);
            let mut r: Vec<WheelEdit> = Vec::new();
            let mut i: usize = 0;
            while i < pairs.len()
                invariant
                    0 <= i <= pairs@.len(),
                    r@.len() == i,
                    forall|k: int| 0 <= k < i ==> #[trigger] r@[k] == (if psi {
                        WheelEdit::Psi { path: pairs@[k].0, segment: pairs@[k].1 }
                    } else {
                        WheelEdit::Phi { path: pairs@[k].0, segment: pairs@[k].1 }
                    }),
                decreases pairs@.len() - i,
            {
                let (a, b) = pairs[i];
                if psi {
                    r.push(WheelEdit::Psi { path: a, segment: b });
                } else {
                    r.push(WheelEdit::Phi { path: a, segment: b });
                }
                i = i + 1;
            }
            proof {
                if psi {
                    assert(r@ =~= pairs@.map_values(|e: (usize, usize)| WheelEdit::Psi { path: e.0, segment: e.1 }));
                } else {
                    assert(r@ =~= pairs@.map_values(|e: (usize, usize)| WheelEdit::Phi { path: e.0, segment: e.1 }));
                }
            }
            r
        },
        _ => Vec::new(),
    }
}

/// Whether no pair occurs twice in `s`.
pub open spec fn no_repeats(s: Seq<(usize, usize)>) -> bool {
    forall|i: int, j: int| 0 <= i < j < s.len() ==> s[i] != s[j]
}

/// A wheel step on psis or phis changes each segment at most once, and it
/// changes the segment that the target names at every selected point whose
/// path and parameter exist.
pub proof fn lemma_segment_edits_cover_once<P, S>(
    paths: Seq<PathView<P, S>>,
    nodes: Seq<PointSelection>,
    target: ParamWheelTarget,
    psi: bool,
    k: int,
)
    requires
        0 <= k <= nodes.len(),
    ensures
        no_repeats(segment_edits(paths, nodes, target, psi, k)),
        forall|q: int|
            #![trigger nodes[q]]
            0 <= q < k && nodes[q].path_index < paths.len() ==> {
                let p = paths[nodes[q].path_index as int];
                let params = if psi { p.psis } else { p.phis };
                match spec_segment_index_for_wheel_target(
                    p.control_points.len() as int,
                    p.is_closed,
                    nodes[q].point_index as int,
                    target,
                ) {
                    Some(s) => s < params.len() ==> segment_edits(paths, nodes, target, psi, k).contains(
                        (nodes[q].path_index, s as usize),
                    ),
                    None => true,
                }
            },
    decreases k,
{
    if k > 0 {
        lemma_segment_edits_cover_once(paths, nodes, target, psi, k - 1);
        let prev = segment_edits(paths, nodes, target, psi, k - 1);
        let cur = segment_edits(paths, nodes, target, psi, k);
        assert forall|x: (usize, usize)| prev.contains(x) implies cur.contains(x) by {
            let i = choose|i: int| 0 <= i < prev.len() && prev[i] == x;
            if cur != prev {
                assert(cur[i] == x);
            }
        }
        if cur != prev {
            let n = nodes[k - 1];
            let p = paths[n.path_index as int];
            let s = spec_segment_index_for_wheel_target(p.control_points.len() as int, p.is_closed, n.point_index as int, target).unwrap();
            assert(cur == prev.push((n.path_index, s as usize)));
            assert(!prev.contains((n.path_index, s as usize)));
            assert forall|i: int, j: int| 0 <= i < j < cur.len() implies cur[i] != cur[j] by {
                if j == cur.len() - 1 {
                    assert(prev.contains(cur[i]));
                }
            }
            assert(cur.contains((n.path_index, s as usize))) by {
                assert(cur[cur.len() - 1] == (n.path_index, s as usize));
            }
        }
    }
}

/// A wheel step on weights changes, in order, the weight of every selected
/// point whose path and weight exist, and nothing else.
pub proof fn lemma_weight_edits_cover<P, S>(paths: Seq<PathView<P, S>>, nodes: Seq<PointSelection>, k: int)
    requires
        0 <= k <= nodes.len(),
    ensures
        forall|e: WheelEdit| #[trigger] weight_edits(paths, nodes, k).contains(e) ==> exists|q: int|
            0 <= q < k && e == (WheelEdit::Weight { path: nodes[q].path_index, point: nodes[q].point_index })
                && nodes[q].path_index < paths.len() && nodes[q].point_index < paths[nodes[q].path_index as int].weights.len(),
        forall|q: int|
            0 <= q < k && nodes[q].path_index < paths.len() && nodes[q].point_index < paths[nodes[q].path_index as int].weights.len()
                ==> #[trigger] weight_edits(paths, nodes, k).contains(
                WheelEdit::Weight { path: nodes[q].path_index, point: nodes[q].point_index },
            ),
    decreases k,
{
    if k > 0 {
        lemma_weight_edits_cover(paths, nodes, k - 1);
        let prev = weight_edits(paths, nodes, k - 1);
        let cur = weight_edits(paths, nodes, k);
        assert forall|e: WheelEdit| cur.contains(e) implies exists|q: int|
            0 <= q < k && e == (WheelEdit::Weight { path: nodes[q].path_index, point: nodes[q].point_index })
                && nodes[q].path_index < paths.len() && nodes[q].point_index < paths[nodes[q].path_index as int].weights.len() by {
            let i = choose|i: int| 0 <= i < cur.len() && cur[i] == e;
            if i < prev.len() {
                assert(prev[i] == e);
                assert(prev.contains(e));
            } else {
                assert(e == (WheelEdit::Weight { path: nodes[k - 1].path_index, point: nodes[k - 1].point_index }));
            }
        }
        assert forall|q: int|
            0 <= q < k && nodes[q].path_index < paths.len() && nodes[q].point_index < paths[nodes[q].path_index as int].weights.len()
                implies #[trigger] cur.contains(WheelEdit::Weight { path: nodes[q].path_index, point: nodes[q].point_index }) by {
            let e = WheelEdit::Weight { path: nodes[q].path_index, point: nodes[q].point_index };
            if q < k - 1 {
                assert(prev.contains(e));
                let i = choose|i: int| 0 <= i < prev.len() && prev[i] == e;
                assert(cur[i] == e);
            } else {
                assert(cur[cur.len() - 1] == e);
            }
        }
    }
}

} // verus!
