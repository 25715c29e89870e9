//! How presses, clicks and drags on the canvas change what is selected: the
//! selected path, nodes, points, segment and placed image.

use vstd::prelude::*;
use vstd::relations::{sorted_by, total_ordering};
use vstd::seq_lib::{lemma_no_dup_in_concat, lemma_sorted_unique};
use crate::clipboard::copy_source;
use crate::document::{Layer, LayerView};
use crate::selection::{
    PointSelection, SegmentSelection, first_index, lemma_first_index, lemma_node_le_total, node_le, selected_on_path,
    strictly_increasing,
    sort_nodes, sync_legacy_selection, toggle_node,
};

verus! {

/// What is selected on the canvas.
pub struct Selection {
    /// The path that point lists and new points refer to.
    pub selected_path: usize,
    /// The selected control points, over all paths of the active layer.
    pub selected_nodes: Vec<PointSelection>,
    /// The selected points of `selected_path`, ascending.
    pub selected_points: Vec<usize>,
    /// The point that panels show.
    pub selected_point: Option<usize>,
    pub selected_segment: Option<SegmentSelection>,
    pub selected_image: Option<usize>,
}

/// The mathematical model of a selection.
pub struct SelectionView {
    pub path: usize,
    pub nodes: Seq<PointSelection>,
    pub points: Seq<usize>,
    pub point: Option<usize>,
    pub segment: Option<SegmentSelection>,
    pub image: Option<usize>,
}

impl View for Selection {
    type V = SelectionView;

    open spec fn view(&self) -> SelectionView {
        SelectionView {
            path: self.selected_path,
            nodes: self.selected_nodes@,
            points: self.selected_points@,
            point: self.selected_point,
            segment: self.selected_segment,
            image: self.selected_image,
        }
    }
}

/// Whether the point list is the one the nodes give for the selected path:
/// ascending, and holding exactly the points selected on that path.
pub open spec fn points_synced(s: SelectionView) -> bool {
    &&& strictly_increasing(s.points)
    &&& forall|p: usize| s.points.contains(p) <==> selected_on_path(s.nodes, s.path, p)
}

/// `s` with no nodes, points or point selected (and, if `segment_too`, no segment).
pub open spec fn cleared(s: SelectionView, segment_too: bool) -> SelectionView {
    SelectionView {
        nodes: Seq::empty(),
        points: Seq::empty(),
        point: None,
        segment: if segment_too { None } else { s.segment },
        ..s
    }
}

/// The nodes after toggling `node`: its first occurrence removed if it was
/// selected, else added in order.
pub open spec fn toggled_nodes(nodes: Seq<PointSelection>, node: PointSelection) -> Seq<PointSelection> {
    if nodes.contains(node) {
        nodes.remove(first_index(nodes, node))
    } else {
        nodes.push(node).sort_by(|a: PointSelection, b: PointSelection| node_le(a, b))
    }
}

/// What lies under the pointer for the select tool, in the order the canvas
/// tests for it.
#[derive(Debug, Clone, Copy)]
pub enum CanvasHit {
    /// A placed image of the active layer; `on_corner` when on its resize corner.
    Image { index: usize, on_corner: bool },
    /// The resize handle of the selected path (tested on presses only).
    PathResizeHandle { path_index: usize },
    /// A control point of the active layer.
    Point(PointSelection),
    /// A segment of a path of the active layer.
    Segment(SegmentSelection),
    Nothing,
}

/// The drag that a press of the select tool begins.
#[derive(Debug, Clone, Copy, PartialEq, Eq, Structural)]
pub enum DragStart {
    /// No drag: the press only selects.
    Stay,
    MoveImage,
    ResizeImage,
    ResizePath,
    /// Moving the selected points, grabbed at this point of the selected path.
    MovePoint(usize),
    /// Dragging out a selection rectangle.
    SelectionRect,
}

/// The paths' points: every point of the `k`-th of `counts.len()` paths
/// starting at path `first`, the `k`-th having `counts[k]` points.
pub open spec fn all_nodes(first: int, counts: Seq<usize>) -> Seq<PointSelection>
    decreases counts.len(),
{
    if counts.len() == 0 {
        Seq::empty()
    } else {
        let k = counts.len() - 1;
        all_nodes(first, counts.drop_last()) + Seq::new(
            counts[k] as nat,
            |j: int| PointSelection { path_index: (first + k) as usize, point_index: j as usize },
        )
    }
}

/// `s` sorted by path, then point.
pub open spec fn in_node_order(s: Seq<PointSelection>) -> Seq<PointSelection> {
    s.sort_by(|a: PointSelection, b: PointSelection| node_le(a, b))
}

/// The nodes after adding, one by one, each hit not yet among them.
pub open spec fn merged_nodes(base: Seq<PointSelection>, hits: Seq<PointSelection>) -> Seq<PointSelection>
    decreases hits.len(),
{
    if hits.len() == 0 {
        base
    } else {
        let m = merged_nodes(base, hits.drop_last());
        if m.contains(hits.last()) { m } else { m.push(hits.last()) }
    }
}

impl Selection {
    /// Rebuilds the point list from the nodes.
    fn sync(&mut self)
        ensures
            points_synced(final(self)@),
            final(self)@ == (SelectionView { points: final(self)@.points, ..old(self)@ }),
    {
        sync_legacy_selection(self.selected_path, &mut self.selected_points, self.selected_nodes.as_slice());
    }

    /// Drops the selected nodes, points and point (and, if `segment_too`, the segment).
    fn clear(&mut self, segment_too: bool)
        ensures
            final(self)@ == cleared(old(self)@, segment_too),
    {
        self.selected_nodes.clear();
        self.selected_points.clear();
        self.selected_point = None;
        if segment_too {
            self.selected_segment = None;
        }
    }

    /// A press of the select tool on `hit` (Shift held if `shift`): what it
    /// selects, and which drag it begins.
    pub fn press(&mut self, hit: CanvasHit, shift: bool) -> (r: DragStart)
        ensures
            match hit {
                CanvasHit::Image { index, on_corner } => {
                    &&& final(self)@ == (SelectionView { image: Some(index), ..cleared(old(self)@, true) })
                    &&& r == if on_corner { DragStart::ResizeImage } else { DragStart::MoveImage }
                },
                CanvasHit::PathResizeHandle { path_index } => {
                    &&& final(self)@ == (SelectionView { path: path_index, image: None, ..old(self)@ })
                    &&& r == DragStart::ResizePath
                },
                CanvasHit::Point(node) => {
                    &&& final(self)@.path == node.path_index
                    &&& final(self)@.nodes == if shift {
                        toggled_nodes(old(self)@.nodes, node)
                    } else if old(self)@.nodes.contains(node) {
                        old(self)@.nodes
                    } else {
                        seq![node]
                    }
                    &&& points_synced(final(self)@)
                    &&& final(self)@.point == Some(node.point_index)
                    &&& final(self)@.segment is None
                    &&& final(self)@.image == old(self)@.image
                    &&& r == DragStart::MovePoint(node.point_index)
                },
                CanvasHit::Segment(seg) => {
                    &&& final(self)@ == (SelectionView {
                        path: seg.path_index,
                        segment: Some(seg),
                        ..if shift { old(self)@ } else { cleared(old(self)@, false) }
                    })
                    &&& r == DragStart::Stay
                },
                CanvasHit::Nothing => {
                    &&& final(self)@ == if shift { old(self)@ } else { cleared(old(self)@, true) }
                    &&& r == DragStart::SelectionRect
                },
            },
    {
        match hit {
            CanvasHit::Image { index, on_corner } => {
                self.selected_image = Some(index);
                self.clear(true);
                if on_corner { DragStart::ResizeImage } else { DragStart::MoveImage }
            },
            CanvasHit::PathResizeHandle { path_index } => {
                self.selected_path = path_index;
                self.selected_image = None;
                DragStart::ResizePath
            },
            CanvasHit::Point(node) => {
                self.selected_path = node.path_index;
                if shift {
                    toggle_node(&mut self.selected_nodes, node);
                } else if !contains_node(&self.selected_nodes, node) {
                    self.selected_nodes.clear();
                    self.selected_nodes.push(node);
                    assert(self.selected_nodes@ =~= seq![node]);
                }
                self.sync();
                self.selected_segment = None;
                self.selected_point = Some(node.point_index);
                DragStart::MovePoint(node.point_index)
            },
            CanvasHit::Segment(seg) => {
                self.selected_path = seg.path_index;
                self.selected_segment = Some(seg);
                if !shift {
                    self.clear(false);
                }
                DragStart::Stay
            },
            CanvasHit::Nothing => {
                if !shift {
                    self.clear(true);
                }
                DragStart::SelectionRect
            },
        }
    }

    /// A click of the select tool on `hit` (Shift held if `shift`).
    pub fn click(&mut self, hit: CanvasHit, shift: bool)
        requires
            !(hit is PathResizeHandle),
        ensures
            match hit {
                CanvasHit::Image { index, on_corner } => final(self)@ == (SelectionView {
                    image: Some(index),
                    ..cleared(old(self)@, true)
                }),
                CanvasHit::Point(node) => {
                    &&& final(self)@.path == node.path_index
                    &&& final(self)@.nodes == if shift { toggled_nodes(old(self)@.nodes, node) } else { seq![node] }
                    &&& points_synced(final(self)@)
                    &&& final(self)@.point == if final(self)@.points.len() > 0 {
                        Some(final(self)@.points.last())
                    } else {
                        None
                    }
                    &&& final(self)@.segment is None
                    &&& final(self)@.image == old(self)@.image
                },
                CanvasHit::Segment(seg) => final(self)@ == (SelectionView {
                    path: seg.path_index,
                    segment: Some(seg),
                    ..if shift { old(self)@ } else { cleared(old(self)@, false) }
                }),
                _ => final(self)@ == if shift { old(self)@ } else { cleared(old(self)@, true) },
            },
    {
        match hit {
            CanvasHit::Image { index, on_corner: _ } => {
                self.selected_image = Some(index);
                self.clear(true);
            },
            CanvasHit::Point(node) => {
                self.selected_path = node.path_index;
                if shift {
                    toggle_node(&mut self.selected_nodes, node);
                } else {
                    self.selected_nodes.clear();
                    self.selected_nodes.push(node);
                    assert(self.selected_nodes@ =~= seq![node]);
                }
                self.sync();
                self.selected_segment = None;
                self.selected_point = last_point(&self.selected_points);
            },
            CanvasHit::Segment(seg) => {
                self.selected_path = seg.path_index;
                self.selected_segment = Some(seg);
                if !shift {
                    self.clear(false);
                }
            },
            _ => {
                if !shift {
                    self.clear(true);
                }
            },
        }
    }

    /// Selects just point `point_index` of the selected path (the add-point tool).
    pub fn select_only(&mut self, point_index: usize)
        ensures
            final(self)@.path == old(self)@.path,
            final(self)@.nodes == seq![PointSelection { path_index: old(self)@.path, point_index }],
            points_synced(final(self)@),
            final(self)@.point == Some(point_index),
            final(self)@.segment is None,
            final(self)@.image == old(self)@.image,
    {
        let node = PointSelection { path_index: self.selected_path, point_index };
        self.selected_nodes.clear();
        self.selected_nodes.push(node);
        assert(self.selected_nodes@ =~= seq![node]);
        self.sync();
        self.selected_segment = None;
        self.selected_point = Some(point_index);
    }

    /// Ends a selection rectangle that covered `hits`: with Shift they join
    /// the selected nodes, else they replace them; the nodes end up in order,
    /// and the last one names the selected path and point.
    pub fn finish_rect(&mut self, hits: &[PointSelection], shift: bool)
        ensures
            final(self)@.nodes == in_node_order(merged_nodes(if shift { old(self)@.nodes } else { Seq::empty() }, hits@)),
            final(self)@.nodes.len() > 0 ==> final(self)@.path == final(self)@.nodes.last().path_index
                && final(self)@.point == Some(final(self)@.nodes.last().point_index),
            final(self)@.nodes.len() == 0 ==> final(self)@.path == old(self)@.path && final(self)@.point is None,
            points_synced(final(self)@),
            final(self)@.segment is None,
            final(self)@.image == old(self)@.image,
    {
        let mut merged: Vec<PointSelection> = if shift { self.selected_nodes.clone() } else { Vec::new() };
        let ghost base = merged@;
        let mut i: usize = 0;
        while i < hits.len()
            invariant
                0 <= i <= hits@.len(),
                merged@ == merged_nodes(base, hits@.take(i as int)),
            decreases hits@.len() - i,
        {
            proof {
                assert(hits@.take(i + 1).drop_last() =~= hits@.take(i as int));
                assert(hits@.take(i + 1).last() == hits@[i as int]);
            }
            if !contains_node(&merged, hits[i]) {
                merged.push(hits[i]);
            }
            i = i + 1;
        }
        assert(hits@.take(hits@.len() as int) =~= hits@);
        self.selected_nodes = sort_nodes(&merged);
        let n = self.selected_nodes.len();
        if n > 0 {
            let active = self.selected_nodes[n - 1];
            self.selected_path = active.path_index;
            self.selected_point = Some(active.point_index);
        } else {
            self.selected_point = None;
        }
        self.sync();
        self.selected_segment = None;
    }

    /// After pasting: the nodes are put in order, and the last one (if any)
    /// names the selected path and point, whose point list is rebuilt.
    pub fn after_paste(&mut self)
        ensures
            final(self)@.nodes == in_node_order(old(self)@.nodes),
            final(self)@.nodes.len() > 0 ==> {
                &&& final(self)@.path == final(self)@.nodes.last().path_index
                &&& final(self)@.point == Some(final(self)@.nodes.last().point_index)
                &&& points_synced(final(self)@)
            },
            final(self)@.nodes.len() == 0 ==> (SelectionView { nodes: old(self)@.nodes, ..final(self)@ }) == old(self)@,
            final(self)@.segment == old(self)@.segment,
            final(self)@.image == old(self)@.image,
    {
        self.selected_nodes = sort_nodes(&self.selected_nodes);
        let n = self.selected_nodes.len();
        if n > 0 {
            let active = self.selected_nodes[n - 1];
            self.selected_path = active.path_index;
            self.selected_point = Some(active.point_index);
            self.sync();
        }
    }

    /// Selects every point of the paths just added: `counts.len()` paths from
    /// path `first` on, with `counts[k]` points each; the first becomes the
    /// selected path and its last point the selected point.
    pub fn select_new_paths(&mut self, first: usize, counts: &[usize])
        requires
            first + counts@.len() <= usize::MAX,
        ensures
            final(self)@.path == first,
            final(self)@.nodes == all_nodes(first as int, counts@),
            points_synced(final(self)@),
            final(self)@.point == if final(self)@.points.len() > 0 {
                Some(final(self)@.points.last())
            } else {
                None
            },
            final(self)@.segment is None,
            final(self)@.image == old(self)@.image,
    {
        self.selected_path = first;
        let mut nodes: Vec<PointSelection> = Vec::new();
        let mut k: usize = 0;
        while k < counts.len()
            invariant
                0 <= k <= counts@.len(),
                first + counts@.len() <= usize::MAX,
                nodes@ == all_nodes(first as int, counts@.take(k as int)),
            decreases counts@.len() - k,
        {
            let ghost before = nodes@;
            let count = counts[k];
            let mut j: usize = 0;
            while j < count
                invariant
                    0 <= j <= count,
                    k < counts@.len(),
                    first + counts@.len() <= usize::MAX,
                    nodes@ == before + Seq::new(
                        j as nat,
                        |q: int| PointSelection { path_index: (first + k) as usize, point_index: q as usize },
                    ),
                decreases count - j,
            {
                nodes.push(PointSelection { path_index: first + k, point_index: j });
                j = j + 1;
                assert(nodes@ =~= before + Seq::new(
                    j as nat,
                    |q: int| PointSelection { path_index: (first + k) as usize, point_index: q as usize },
                ));
            }
            proof {
                let t = counts@.take(k + 1);
                assert(t.drop_last() =~= counts@.take(k as int));
                assert(t[k as int] == count);
            }
            k = k + 1;
        }
        assert(counts@.take(counts@.len() as int) =~= counts@);
        self.selected_nodes = nodes;
        self.sync();
        self.selected_segment = None;
        self.selected_point = last_point(&self.selected_points);
    }
}

/// Whether `node` is among `nodes`.
fn contains_node(nodes: &Vec<PointSelection>, node: PointSelection) -> (r: bool)
    ensures
        r == nodes@.contains(node),
{
    let mut i: usize = 0;
    while i < nodes.len()
        invariant
            0 <= i <= nodes@.len(),
            forall|k: int| 0 <= k < i ==> nodes@[k] != node,
        decreases nodes@.len() - i,
    {
        if nodes[i] == node {
            return true;
        }
        i = i + 1;
    }
    false
}

/// The last entry of `points`, if any.
fn last_point(points: &Vec<usize>) -> (r: Option<usize>)
    ensures
        r == if points@.len() > 0 { Some(points@.last()) } else { None::<usize> },
{
    let n = points.len();
    if n > 0 {
        Some(points[n - 1])
    } else {
        None
    }
}

/// Whether the nodes are in order without repeats, as every change of the
/// selection leaves them.
pub open spec fn nodes_ordered(nodes: Seq<PointSelection>) -> bool {
    sorted_by(nodes, |a: PointSelection, b: PointSelection| node_le(a, b)) && nodes.no_duplicates()
}

proof fn lemma_remove_sorted(s: Seq<PointSelection>, i: int)
    requires
        nodes_ordered(s),
        0 <= i < s.len(),
    ensures
        nodes_ordered(s.remove(i)),
{
    let r = s.remove(i);
    assert forall|a: int, b: int| 0 <= a < b < r.len() implies #[trigger] node_le(r[a], r[b]) by {
        let a2 = if a < i { a } else { a + 1 };
        let b2 = if b < i { b } else { b + 1 };
        assert(r[a] == s[a2] && r[b] == s[b2]);
        let leq = |x: PointSelection, y: PointSelection| node_le(x, y);
        assert(leq(s[a2], s[b2]));
    }
    assert forall|a: int, b: int| 0 <= a < r.len() && 0 <= b < r.len() && a != b implies r[a] != r[b] by {
        let a2 = if a < i { a } else { a + 1 };
        let b2 = if b < i { b } else { b + 1 };
        assert(r[a] == s[a2] && r[b] == s[b2]);
    }
}

/// A sorted rearrangement of a sequence without repeats has none either.
proof fn lemma_sorted_keeps_unique(s: Seq<PointSelection>)
    requires
        s.no_duplicates(),
    ensures
        nodes_ordered(s.sort_by(|a: PointSelection, b: PointSelection| node_le(a, b))),
        s.sort_by(|a: PointSelection, b: PointSelection| node_le(a, b)).to_multiset() == s.to_multiset(),
{
    broadcast use vstd::seq_lib::group_to_multiset_ensures, vstd::multiset::group_multiset_axioms;
    let leq = |a: PointSelection, b: PointSelection| node_le(a, b);
    lemma_node_le_total();
    s.lemma_sort_by_ensures(leq);
    let t = s.sort_by(leq);
    s.lemma_multiset_has_no_duplicates();
    assert forall|x: PointSelection| t.to_multiset().contains(x) implies t.to_multiset().count(x) == 1 by {
        assert(s.to_multiset().contains(x));
    }
    t.lemma_multiset_has_no_duplicates_conv();
}

/// The first occurrence of a node in a sequence without repeats is its only one.
proof fn lemma_only_index(s: Seq<PointSelection>, x: PointSelection, i: int)
    requires
        s.no_duplicates(),
        0 <= i < s.len(),
        s[i] == x,
    ensures
        first_index(s, x) == i,
{
    lemma_first_index(s, x, i);
}

/// Toggling a node keeps ordered nodes ordered, and toggling it again gives
/// them back.
pub proof fn lemma_toggle_twice(nodes: Seq<PointSelection>, node: PointSelection)
    requires
        nodes_ordered(nodes),
    ensures
        nodes_ordered(toggled_nodes(nodes, node)),
        toggled_nodes(toggled_nodes(nodes, node), node) == nodes,
{
    broadcast use vstd::seq_lib::group_to_multiset_ensures, vstd::multiset::group_multiset_axioms;
    let leq = |a: PointSelection, b: PointSelection| node_le(a, b);
    lemma_node_le_total();
    if nodes.contains(node) {
        let i = choose|i: int| 0 <= i < nodes.len() && nodes[i] == node;
        lemma_only_index(nodes, node, i);
        let t = nodes.remove(i);
        lemma_remove_sorted(nodes, i);
        assert(!t.contains(node)) by {
            if t.contains(node) {
                let j = choose|j: int| 0 <= j < t.len() && t[j] == node;
                let j2 = if j < i { j } else { j + 1 };
                assert(nodes[j2] == node);
            }
        }
        let u = t.push(node);
        assert(u.no_duplicates()) by {
            assert forall|a: int, b: int| 0 <= a < u.len() && 0 <= b < u.len() && a != b implies u[a] != u[b] by {
                if a < t.len() && b < t.len() {
                } else if a < t.len() {
                    assert(t.contains(u[a]));
                } else {
                    assert(t.contains(u[b]));
                }
            }
        }
        lemma_sorted_keeps_unique(u);
        let back = u.sort_by(leq);
        assert(u.to_multiset() =~= nodes.to_multiset()) by {
            assert(t.to_multiset() =~= nodes.to_multiset().remove(node));
        }
        lemma_sorted_unique(back, nodes, leq);
    } else {
        let u = nodes.push(node);
        assert(u.no_duplicates()) by {
            assert forall|a: int, b: int| 0 <= a < u.len() && 0 <= b < u.len() && a != b implies u[a] != u[b] by {
                if a < nodes.len() && b < nodes.len() {
                } else if a < nodes.len() {
                    assert(nodes.contains(u[a]));
                } else {
                    assert(nodes.contains(u[b]));
                }
            }
        }
        lemma_sorted_keeps_unique(u);
        let t = u.sort_by(leq);
        assert(t.to_multiset().contains(node));
        assert(t.contains(node));
        let i = choose|i: int| 0 <= i < t.len() && t[i] == node;
        lemma_only_index(t, node, i);
        let back = t.remove(i);
        lemma_remove_sorted(t, i);
        assert(back.to_multiset() =~= nodes.to_multiset()) by {
            assert(back.to_multiset() =~= t.to_multiset().remove(node));
        }
        lemma_sorted_unique(back, nodes, leq);
    }
}

/// What `merged_nodes` holds: the base and the hits, with no repeats if the
/// base had none.
proof fn lemma_merged_nodes(base: Seq<PointSelection>, hits: Seq<PointSelection>)
    ensures
        forall|x: PointSelection| #[trigger] merged_nodes(base, hits).contains(x) <==> base.contains(x) || hits.contains(x),
        base.no_duplicates() ==> merged_nodes(base, hits).no_duplicates(),
    decreases hits.len(),
{
    if hits.len() > 0 {
        let h = hits.drop_last();
        lemma_merged_nodes(base, h);
        let m = merged_nodes(base, h);
        let x = hits.last();
        assert forall|y: PointSelection| #[trigger] merged_nodes(base, hits).contains(y) <==> base.contains(y) || hits.contains(y) by {
            if hits.contains(y) && !h.contains(y) {
                let k = choose|k: int| 0 <= k < hits.len() && hits[k] == y;
                if k < h.len() {
                    assert(h[k] == y);
                }
                assert(y == x);
                if !m.contains(x) {
                    assert(m.push(x)[m.len() as int] == x);
                }
            }
            if h.contains(y) {
                let k = choose|k: int| 0 <= k < h.len() && h[k] == y;
                assert(hits[k] == y);
            }
            if !m.contains(x) && m.push(x).contains(y) && y != x {
                let k = choose|k: int| 0 <= k < m.len() + 1 && m.push(x)[k] == y;
                assert(m[k] == y);
            }
            if m.contains(y) && !m.contains(x) {
                let k = choose|k: int| 0 <= k < m.len() && m[k] == y;
                assert(m.push(x)[k] == y);
            }
        }
        if base.no_duplicates() && !m.contains(x) {
            let u = m.push(x);
            assert forall|a: int, b: int| 0 <= a < u.len() && 0 <= b < u.len() && a != b implies u[a] != u[b] by {
                if a < m.len() && b < m.len() {
                } else if a < m.len() {
                    assert(m.contains(u[a]));
                } else {
                    assert(m.contains(u[b]));
                }
            }
        }
    }
}

/// The points of new paths in order: every node names one of the paths, and
/// they come sorted without repeats.
proof fn lemma_all_nodes(first: int, counts: Seq<usize>)
    requires
        0 <= first,
        first + counts.len() <= usize::MAX,
    ensures
        nodes_ordered(all_nodes(first, counts)),
        forall|i: int| 0 <= i < all_nodes(first, counts).len() ==> first <= #[trigger] all_nodes(first, counts)[i].path_index
            < first + counts.len(),
    decreases counts.len(),
{
    if counts.len() > 0 {
        let k = counts.len() - 1;
        let c = counts.drop_last();
        lemma_all_nodes(first, c);
        let a = all_nodes(first, c);
        let b = Seq::new(counts[k] as nat, |j: int| PointSelection { path_index: (first + k) as usize, point_index: j as usize });
        assert(all_nodes(first, counts) == a + b);
        let r = a + b;
        assert forall|i: int, j: int| 0 <= i < j < r.len() implies #[trigger] node_le(r[i], r[j]) by {
            if j < a.len() {
                assert(r[i] == a[i] && r[j] == a[j]);
                let leq = |x: PointSelection, y: PointSelection| node_le(x, y);
                assert(leq(a[i], a[j]));
            } else if i < a.len() {
                assert(r[i] == a[i]);
                assert(r[j] == b[j - a.len()]);
            } else {
                assert(r[i] == b[i - a.len()]);
                assert(r[j] == b[j - a.len()]);
            }
        }
        assert(b.no_duplicates()) by {
            assert forall|i: int, j: int| 0 <= i < b.len() && 0 <= j < b.len() && i != j implies b[i] != b[j] by {
                assert(b[i].point_index == i as usize);
                assert(b[j].point_index == j as usize);
            }
        }
        assert forall|i: int, j: int| 0 <= i < a.len() && 0 <= j < b.len() implies a[i] != b[j] by {
            assert(a[i].path_index < first + c.len());
        }
        lemma_no_dup_in_concat(a, b);
        assert forall|i: int| 0 <= i < r.len() implies first <= #[trigger] r[i].path_index < first + counts.len() by {
            if i < a.len() {
                assert(r[i] == a[i]);
            } else {
                assert(r[i] == b[i - a.len()]);
            }
        }
    }
}

/// Every way the canvas changes the selected nodes keeps them in order and
/// free of repeats: toggling a node, selecting a single node, ending a
/// selection rectangle (joining the earlier nodes or not), and selecting the
/// points of new paths. A selection rectangle's nodes are exactly the earlier
/// ones (with Shift) and those it covered.
pub proof fn lemma_selection_stays_ordered(
    nodes: Seq<PointSelection>,
    node: PointSelection,
    hits: Seq<PointSelection>,
    first: usize,
    counts: Seq<usize>,
)
    requires
        nodes_ordered(nodes),
        first + counts.len() <= usize::MAX,
    ensures
        nodes_ordered(toggled_nodes(nodes, node)),
        nodes_ordered(seq![node]),
        nodes_ordered(in_node_order(merged_nodes(nodes, hits))),
        nodes_ordered(in_node_order(merged_nodes(Seq::empty(), hits))),
        forall|x: PointSelection| #[trigger] in_node_order(merged_nodes(nodes, hits)).contains(x)
            <==> nodes.contains(x) || hits.contains(x),
        forall|x: PointSelection| #[trigger] in_node_order(merged_nodes(Seq::empty(), hits)).contains(x)
            <==> hits.contains(x),
        nodes_ordered(all_nodes(first as int, counts)),
{
    broadcast use vstd::seq_lib::group_to_multiset_ensures, vstd::multiset::group_multiset_axioms;
    lemma_toggle_twice(nodes, node);
    lemma_merged_nodes(nodes, hits);
    lemma_merged_nodes(Seq::empty(), hits);
    let m1 = merged_nodes(nodes, hits);
    let m2 = merged_nodes(Seq::<PointSelection>::empty(), hits);
    lemma_sorted_keeps_unique(m1);
    lemma_sorted_keeps_unique(m2);
    let leq = |a: PointSelection, b: PointSelection| node_le(a, b);
    assert forall|x: PointSelection| #[trigger] m1.sort_by(leq).contains(x) <==> nodes.contains(x) || hits.contains(x) by {
        assert(m1.sort_by(leq).to_multiset().count(x) == m1.to_multiset().count(x));
    }
    assert forall|x: PointSelection| #[trigger] m2.sort_by(leq).contains(x) <==> hits.contains(x) by {
        assert(m2.sort_by(leq).to_multiset().count(x) == m2.to_multiset().count(x));
    }
    lemma_all_nodes(first as int, counts);
}

/// Whether `n` names a control point of `layer`.
pub open spec fn point_exists<P, S>(layer: LayerView<P, S>, n: PointSelection) -> bool {
    n.path_index < layer.paths.len() && n.point_index < layer.paths[n.path_index as int].control_points.len()
}

/// The control points that moving the selection shifts, each once and in
/// order: the selected nodes (or, with none, the selected points of the
/// selected path) that exist in `layer`.
pub fn move_targets<P, S>(
    layer: &Layer<P, S>,
    selected_path: usize,
    selected_points: &[usize],
    selected_nodes: &[PointSelection],
) -> (r: Vec<PointSelection>)
    ensures
        nodes_ordered(r@),
        forall|n: PointSelection| #[trigger] r@.contains(n) <==> copy_source(
            selected_path,
            selected_points@,
            selected_nodes@,
        ).contains(n) && point_exists(layer@, n),
{
    let ghost source = copy_source(selected_path, selected_points@, selected_nodes@);
    let mut found: Vec<PointSelection> = Vec::new();
    let use_nodes = selected_nodes.len() > 0;
    let count = if use_nodes { selected_nodes.len() } else { selected_points.len() };
    assert(count == source.len());
    let mut i: usize = 0;
    while i < count
        invariant
            0 <= i <= count,
            count == source.len(),
            use_nodes == (selected_nodes@.len() > 0),
            source == copy_source(selected_path, selected_points@, selected_nodes@),
            found@.no_duplicates(),
            forall|n: PointSelection| #[trigger] found@.contains(n) <==> source.take(i as int).contains(n) && point_exists(
                layer@,
                n,
            ),
        decreases count - i,
    {
        let n = if use_nodes {
            selected_nodes[i]
        } else {
            PointSelection { path_index: selected_path, point_index: selected_points[i] }
        };
        assert(n == source[i as int]);
        let exists = n.path_index < layer.paths.len() && n.point_index < layer.paths[n.path_index].control_points.len();
        assert(exists == point_exists(layer@, n));
        let ghost before = found@;
        if exists && !contains_node(&found, n) {
            found.push(n);
            proof {
                assert forall|a: int, b: int| 0 <= a < found@.len() && 0 <= b < found@.len() && a != b implies found@[a]
                    != found@[b] by {
                    if a < before.len() && b < before.len() {
                    } else if a < before.len() {
                        assert(before.contains(found@[a]));
                    } else {
                        assert(before.contains(found@[b]));
                    }
                }
            }
        }
        proof {
            let t = source.take(i + 1);
            assert(t =~= source.take(i as int).push(n));
            assert forall|m: PointSelection| #[trigger] found@.contains(m) <==> t.contains(m) && point_exists(layer@, m) by {
                if t.contains(m) {
                    let x = choose|x: int| 0 <= x < t.len() && t[x] == m;
                    if x < i {
                        assert(source.take(i as int)[x] == m);
                        assert(source.take(i as int).contains(m));
                    }
                }
                if source.take(i as int).contains(m) {
                    let x = choose|x: int| 0 <= x < i && source.take(i as int)[x] == m;
                    assert(t[x] == m);
                }
                if m == n {
                    assert(t[i as int] == m);
                }
                if found@.contains(m) && !before.contains(m) {
                    let x = choose|x: int| 0 <= x < found@.len() && found@[x] == m;
                    if x < before.len() {
                        assert(before[x] == m);
                    }
                }
                if before.contains(m) && exists && !before.contains(n) {
                    let x = choose|x: int| 0 <= x < before.len() && before[x] == m;
                    assert(found@[x] == m);
                }
                if m == n && exists && !before.contains(n) {
                    assert(found@[before.len() as int] == m);
                }
            }
        }
        i = i + 1;
    }
    assert(source.take(count as int) =~= source);
    let sorted = sort_nodes(&found);
    proof {
        broadcast use vstd::seq_lib::group_to_multiset_ensures, vstd::multiset::group_multiset_axioms;
        lemma_sorted_keeps_unique(found@);
        assert forall|m: PointSelection| #[trigger] sorted@.contains(m) <==> found@.contains(m) by {
            assert(sorted@.to_multiset().count(m) == found@.to_multiset().count(m));
        }
    }
    sorted
}

} // verus!
