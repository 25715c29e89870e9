use mohe_ji::curve::{CurvePiece, PPWCurve};
use mohe_ji::path::{PPWPath, SegmentDefaults};

type P = (f32, f32);

fn defaults() -> SegmentDefaults<f32> {
    SegmentDefaults { weight: 1.0, phi: 2.0, psi: 0.0 }
}

fn open_path(points: &[P]) -> PPWPath<P, f32> {
    let mut path = PPWPath::empty(2.5);
    for p in points {
        path.add_point(*p, defaults());
    }
    path
}

#[test]
fn empty_path_defaults() {
    let p: PPWPath<P, f32> = PPWPath::empty(2.5);
    assert!(!p.is_closed);
    assert!(p.control_points.is_empty());
    assert!(!p.fill_enabled);
    assert_eq!(p.fill_color, [120, 170, 255, 70]);
    assert_eq!(p.stroke_color, [0, 0, 0, 255]);
    assert_eq!(p.stroke_width, 2.5);
}

#[test]
fn add_point_refits_parameters() {
    let path = open_path(&[(0.0, 0.0), (1.0, 0.0), (2.0, 1.0)]);
    assert_eq!(path.weights, vec![1.0, 1.0, 1.0]);
    assert_eq!(path.phis, vec![2.0, 2.0]);
    assert_eq!(path.psis, vec![0.0, 0.0]);
    assert!(path.validate());
}

#[test]
fn rebuild_closed_and_open() {
    let mut path = open_path(&[(0.0, 0.0), (1.0, 0.0), (1.0, 1.0)]);
    path.is_closed = true;
    path.rebuild_open_segment_params(defaults());
    assert_eq!(path.phis.len(), 3);
    assert_eq!(path.psis.len(), 3);
    path.is_closed = false;
    path.phis[0] = 7.0;
    path.rebuild_open_segment_params(defaults());
    assert_eq!(path.phis, vec![7.0, 2.0]);
    let mut empty: PPWPath<P, f32> = PPWPath::empty(1.0);
    empty.rebuild_open_segment_params(defaults());
    assert!(empty.phis.is_empty());
}

#[test]
fn validate_rejects_short_or_mismatched() {
    let one = open_path(&[(0.0, 0.0)]);
    assert!(!one.validate());
    let mut two = open_path(&[(0.0, 0.0), (1.0, 1.0)]);
    assert!(two.validate());
    two.phis.push(3.0);
    assert!(!two.validate());
    let mut closed = open_path(&[(0.0, 0.0), (1.0, 1.0)]);
    closed.is_closed = true;
    closed.rebuild_open_segment_params(defaults());
    assert!(!closed.validate());
}

#[test]
fn move_point_in_and_out_of_range() {
    let mut path = open_path(&[(0.0, 0.0), (1.0, 0.0)]);
    path.move_point(1, (5.0, 5.0));
    assert_eq!(path.control_points, vec![(0.0, 0.0), (5.0, 5.0)]);
    path.move_point(9, (7.0, 7.0));
    assert_eq!(path.control_points, vec![(0.0, 0.0), (5.0, 5.0)]);
}

#[test]
fn remove_last_point_shrinks() {
    let mut path = open_path(&[(0.0, 0.0), (1.0, 0.0), (2.0, 0.0)]);
    path.remove_last_point(defaults());
    assert_eq!(path.control_points.len(), 2);
    assert_eq!(path.weights.len(), 2);
    assert_eq!(path.phis.len(), 1);
    let mut empty: PPWPath<P, f32> = PPWPath::empty(1.0);
    empty.remove_last_point(defaults());
    assert!(empty.control_points.is_empty());
}

#[test]
fn remove_points_drops_listed_positions() {
    let mut path = open_path(&[(0.0, 0.0), (1.0, 0.0), (2.0, 0.0), (3.0, 0.0)]);
    path.weights = vec![1.0, 2.0, 3.0, 4.0];
    path.remove_points(&[2, 0, 2, 9], defaults());
    assert_eq!(path.control_points, vec![(1.0, 0.0), (3.0, 0.0)]);
    assert_eq!(path.weights, vec![2.0, 4.0]);
    assert_eq!(path.phis.len(), 1);
}

#[test]
fn remove_points_with_empty_list_keeps_path() {
    let mut path = open_path(&[(0.0, 0.0), (1.0, 0.0)]);
    path.phis.push(9.0);
    path.remove_points(&[], defaults());
    assert_eq!(path.phis, vec![2.0, 9.0]);
}

#[test]
fn split_segment_inserts_midpoint() {
    let mut path = open_path(&[(0.0, 0.0), (2.0, 0.0), (2.0, 2.0)]);
    let mid = |a: P, b: P| ((a.0 + b.0) / 2.0, (a.1 + b.1) / 2.0);
    assert_eq!(path.split_path_at_segment(Some(1), 0, mid, defaults()), Some(2));
    assert_eq!(path.control_points, vec![(0.0, 0.0), (2.0, 0.0), (2.0, 1.0), (2.0, 2.0)]);
    assert_eq!(path.weights.len(), 4);
    assert_eq!(path.phis.len(), 3);
    assert_eq!(path.split_path_at_segment(None, 0, mid, defaults()), Some(1));
    assert_eq!(path.control_points[1], (1.0, 0.0));
}

#[test]
fn split_closed_last_segment_wraps() {
    let mut path = open_path(&[(0.0, 0.0), (2.0, 0.0), (2.0, 2.0)]);
    path.is_closed = true;
    path.rebuild_open_segment_params(defaults());
    let mid = |a: P, b: P| ((a.0 + b.0) / 2.0, (a.1 + b.1) / 2.0);
    assert_eq!(path.split_path_at_segment(Some(2), 0, mid, defaults()), Some(3));
    assert_eq!(path.control_points[3], (1.0, 1.0));
}

#[test]
fn split_needs_two_points() {
    let mut path = open_path(&[(0.0, 0.0)]);
    let mid = |a: P, _b: P| a;
    assert_eq!(path.split_path_at_segment(Some(0), 0, mid, defaults()), None);
    assert_eq!(path.control_points.len(), 1);
}

#[test]
fn copied_subpath_keeps_neighbour_parameters() {
    let mut path = open_path(&[(0.0, 0.0), (1.0, 0.0), (2.0, 0.0), (3.0, 0.0)]);
    path.weights = vec![1.0, 2.0, 3.0, 4.0];
    path.phis = vec![5.0, 6.0, 7.0];
    path.psis = vec![-1.0, -2.0, -3.0];
    path.fill_enabled = true;
    let copy = path.copied_subpath(&[1, 2, 3, 8], defaults());
    assert!(!copy.is_closed);
    assert!(!copy.fill_enabled);
    assert_eq!(copy.control_points, vec![(1.0, 0.0), (2.0, 0.0), (3.0, 0.0)]);
    assert_eq!(copy.weights, vec![2.0, 3.0, 4.0]);
    assert_eq!(copy.phis, vec![6.0, 7.0]);
    assert_eq!(copy.psis, vec![-2.0, -3.0]);
    let gap = path.copied_subpath(&[0, 2], defaults());
    assert_eq!(gap.phis, vec![2.0]);
    assert_eq!(gap.psis, vec![0.0]);
}

#[test]
fn duplicate_copies_everything() {
    let mut path = open_path(&[(0.0, 0.0), (1.0, 0.0)]);
    path.fill_color = [1, 2, 3, 4];
    let copy = path.duplicate();
    assert_eq!(copy.control_points, path.control_points);
    assert_eq!(copy.weights, path.weights);
    assert_eq!(copy.fill_color, [1, 2, 3, 4]);
}

#[test]
fn segment_plan_shapes() {
    let two = open_path(&[(0.0, 0.0), (1.0, 0.0)]);
    assert_eq!(PPWCurve::segment_plan(&two), vec![CurvePiece::Line { from: 0, to: 1 }]);
    let four = open_path(&[(0.0, 0.0), (1.0, 0.0), (2.0, 0.0), (3.0, 0.0)]);
    assert_eq!(
        PPWCurve::segment_plan(&four),
        vec![
            CurvePiece::Start { cp1: 0, cp2: 1, cp3: 2, w2: 1, param: 0 },
            CurvePiece::Middle { cp0: 0, cp1: 1, cp2: 2, cp3: 3, w1: 1, w2: 2, param: 1 },
            CurvePiece::End { cp0: 1, cp1: 2, cp2: 3, w1: 2, param: 2 },
        ]
    );
    let mut closed = open_path(&[(0.0, 0.0), (1.0, 0.0), (1.0, 1.0)]);
    closed.is_closed = true;
    closed.rebuild_open_segment_params(defaults());
    let plan = PPWCurve::segment_plan(&closed);
    assert_eq!(plan.len(), 3);
    assert_eq!(plan[2], CurvePiece::Middle { cp0: 1, cp1: 2, cp2: 0, cp3: 1, w1: 2, w2: 0, param: 2 });
    let one = open_path(&[(0.0, 0.0)]);
    assert!(PPWCurve::segment_plan(&one).is_empty());
}
