use mohe_ji::canvas_select::{move_targets, CanvasHit, DragStart, Selection};
use mohe_ji::document::Layer;
use mohe_ji::path::PPWPath;
use mohe_ji::selection::{PointSelection, SegmentSelection};

fn n(path_index: usize, point_index: usize) -> PointSelection {
    PointSelection { path_index, point_index }
}

fn sample() -> Selection {
    Selection {
        selected_path: 0,
        selected_nodes: vec![n(0, 1), n(1, 0)],
        selected_points: vec![1],
        selected_point: Some(1),
        selected_segment: Some(SegmentSelection { path_index: 0, segment_index: 0 }),
        selected_image: None,
    }
}

#[test]
fn press_on_image_clears_points() {
    let mut s = sample();
    assert_eq!(s.press(CanvasHit::Image { index: 2, on_corner: true }, false), DragStart::ResizeImage);
    assert_eq!(s.selected_image, Some(2));
    assert!(s.selected_nodes.is_empty() && s.selected_points.is_empty());
    assert_eq!((s.selected_point, s.selected_segment), (None, None));
    let mut s = sample();
    assert_eq!(s.press(CanvasHit::Image { index: 0, on_corner: false }, true), DragStart::MoveImage);
}

#[test]
fn press_on_resize_handle() {
    let mut s = sample();
    s.selected_image = Some(4);
    assert_eq!(s.press(CanvasHit::PathResizeHandle { path_index: 1 }, false), DragStart::ResizePath);
    assert_eq!((s.selected_path, s.selected_image), (1, None));
    assert_eq!(s.selected_nodes, vec![n(0, 1), n(1, 0)]);
}

#[test]
fn press_on_point_keeps_a_selected_point_group() {
    let mut s = sample();
    assert_eq!(s.press(CanvasHit::Point(n(1, 0)), false), DragStart::MovePoint(0));
    assert_eq!(s.selected_nodes, vec![n(0, 1), n(1, 0)]);
    assert_eq!(s.selected_path, 1);
    assert_eq!(s.selected_points, vec![0]);
    assert_eq!((s.selected_point, s.selected_segment), (Some(0), None));

    let mut s = sample();
    s.press(CanvasHit::Point(n(2, 5)), false);
    assert_eq!(s.selected_nodes, vec![n(2, 5)]);
    assert_eq!(s.selected_points, vec![5]);
}

#[test]
fn shift_press_toggles() {
    let mut s = sample();
    s.press(CanvasHit::Point(n(0, 0)), true);
    assert_eq!(s.selected_nodes, vec![n(0, 0), n(0, 1), n(1, 0)]);
    assert_eq!(s.selected_points, vec![0, 1]);
    s.press(CanvasHit::Point(n(0, 0)), true);
    assert_eq!(s.selected_nodes, vec![n(0, 1), n(1, 0)]);
    assert_eq!(s.selected_points, vec![1]);
}

#[test]
fn press_on_segment_and_empty_space() {
    let seg = SegmentSelection { path_index: 1, segment_index: 3 };
    let mut s = sample();
    assert_eq!(s.press(CanvasHit::Segment(seg), true), DragStart::Stay);
    assert_eq!((s.selected_path, s.selected_segment), (1, Some(seg)));
    assert_eq!(s.selected_nodes.len(), 2);
    let mut s = sample();
    s.press(CanvasHit::Segment(seg), false);
    assert!(s.selected_nodes.is_empty() && s.selected_point.is_none());
    let mut s = sample();
    assert_eq!(s.press(CanvasHit::Nothing, true), DragStart::SelectionRect);
    assert_eq!(s.selected_nodes.len(), 2);
    assert!(s.selected_segment.is_some());
    s.press(CanvasHit::Nothing, false);
    assert!(s.selected_nodes.is_empty() && s.selected_segment.is_none());
}

#[test]
fn click_on_point_replaces_or_toggles() {
    let mut s = sample();
    s.click(CanvasHit::Point(n(1, 0)), false);
    assert_eq!(s.selected_nodes, vec![n(1, 0)]);
    assert_eq!((s.selected_path, s.selected_point), (1, Some(0)));
    let mut s = sample();
    s.click(CanvasHit::Point(n(0, 3)), true);
    assert_eq!(s.selected_nodes, vec![n(0, 1), n(0, 3), n(1, 0)]);
    assert_eq!(s.selected_points, vec![1, 3]);
    assert_eq!(s.selected_point, Some(3));
    s.click(CanvasHit::Point(n(0, 1)), true);
    s.click(CanvasHit::Point(n(0, 3)), true);
    assert_eq!(s.selected_points, Vec::<usize>::new());
    assert_eq!(s.selected_point, None);
}

#[test]
fn click_on_image_or_nothing() {
    let mut s = sample();
    s.click(CanvasHit::Image { index: 1, on_corner: true }, true);
    assert_eq!(s.selected_image, Some(1));
    assert!(s.selected_nodes.is_empty());
    let mut s = sample();
    s.click(CanvasHit::Nothing, true);
    assert_eq!(s.selected_nodes.len(), 2);
    s.click(CanvasHit::Nothing, false);
    assert!(s.selected_nodes.is_empty() && s.selected_segment.is_none());
}

#[test]
fn rect_selection() {
    let hits = vec![n(2, 1), n(0, 4), n(2, 1), n(2, 0)];
    let mut s = sample();
    s.finish_rect(&hits, false);
    assert_eq!(s.selected_nodes, vec![n(0, 4), n(2, 0), n(2, 1)]);
    assert_eq!((s.selected_path, s.selected_point), (2, Some(1)));
    assert_eq!(s.selected_points, vec![0, 1]);
    assert_eq!(s.selected_segment, None);

    let mut s = sample();
    s.finish_rect(&hits, true);
    assert_eq!(s.selected_nodes, vec![n(0, 1), n(0, 4), n(1, 0), n(2, 0), n(2, 1)]);

    let mut s = sample();
    s.finish_rect(&[], false);
    assert!(s.selected_nodes.is_empty());
    assert_eq!((s.selected_path, s.selected_point), (0, None));
    assert!(s.selected_points.is_empty());
}

#[test]
fn new_paths_are_selected() {
    let mut s = sample();
    s.select_new_paths(3, &[2, 3]);
    assert_eq!(s.selected_path, 3);
    assert_eq!(s.selected_nodes, vec![n(3, 0), n(3, 1), n(4, 0), n(4, 1), n(4, 2)]);
    assert_eq!(s.selected_points, vec![0, 1]);
    assert_eq!(s.selected_point, Some(1));
    let mut s = sample();
    s.select_new_paths(7, &[]);
    assert!(s.selected_nodes.is_empty());
    assert_eq!((s.selected_path, s.selected_point), (7, None));
}

#[test]
fn select_only_one_point() {
    let mut s = sample();
    s.select_only(4);
    assert_eq!(s.selected_nodes, vec![n(0, 4)]);
    assert_eq!(s.selected_points, vec![4]);
    assert_eq!((s.selected_point, s.selected_segment), (Some(4), None));
}

#[test]
fn move_targets_each_existing_point_once() {
    let mut p0: PPWPath<(i32, i32), u32> = PPWPath::empty(1);
    p0.control_points = vec![(0, 0), (1, 1), (2, 2)];
    let mut p1: PPWPath<(i32, i32), u32> = PPWPath::empty(1);
    p1.control_points = vec![(5, 5)];
    let layer = Layer::with_paths("L".to_string(), vec![p0, p1]);
    let nodes = vec![n(1, 0), n(0, 2), n(1, 0), n(0, 7), n(9, 0), n(0, 0)];
    assert_eq!(move_targets(&layer, 0, &[], &nodes), vec![n(0, 0), n(0, 2), n(1, 0)]);
    assert_eq!(move_targets(&layer, 0, &[2, 2, 1, 5], &[]), vec![n(0, 1), n(0, 2)]);
    assert_eq!(move_targets(&layer, 1, &[0], &[]), vec![n(1, 0)]);
    assert!(move_targets(&layer, 3, &[0], &[]).is_empty());
    assert!(move_targets(&layer, 0, &[], &[]).is_empty());
}

#[test]
fn after_paste_orders_and_picks_last() {
    let mut s = Selection {
        selected_path: 0,
        selected_nodes: vec![n(3, 1), n(2, 5), n(3, 0)],
        selected_points: vec![],
        selected_point: None,
        selected_segment: None,
        selected_image: Some(1),
    };
    s.after_paste();
    assert_eq!(s.selected_nodes, vec![n(2, 5), n(3, 0), n(3, 1)]);
    assert_eq!((s.selected_path, s.selected_point), (3, Some(1)));
    assert_eq!(s.selected_points, vec![0, 1]);
    assert_eq!(s.selected_image, Some(1));
    let mut e = sample();
    e.selected_nodes.clear();
    e.after_paste();
    assert_eq!((e.selected_path, e.selected_point, e.selected_points.clone()), (0, Some(1), vec![1]));
}
