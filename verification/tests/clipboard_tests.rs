use mohe_ji::clipboard::copy_point_paths;
use mohe_ji::path::{PPWPath, SegmentDefaults};
use mohe_ji::selection::PointSelection;

fn defaults() -> SegmentDefaults<f32> {
    SegmentDefaults { weight: 1.0, phi: 2.0, psi: 0.0 }
}

fn path(points: usize) -> PPWPath<(f32, f32), f32> {
    let mut p = PPWPath::empty(2.5);
    for i in 0..points {
        p.add_point((i as f32, 0.0), defaults());
    }
    p
}

#[test]
fn copies_each_selected_path_in_first_seen_order() {
    let mut a = path(4);
    a.phis = vec![5.0, 6.0, 7.0];
    a.stroke_width = 9.0;
    let b = path(2);
    let paths = vec![a, b];
    let nodes = [
        PointSelection { path_index: 1, point_index: 1 },
        PointSelection { path_index: 0, point_index: 3 },
        PointSelection { path_index: 0, point_index: 2 },
        PointSelection { path_index: 3, point_index: 0 },
        PointSelection { path_index: 0, point_index: 2 },
    ];
    let copies = copy_point_paths(&paths, 0, &[], &nodes, defaults());
    assert_eq!(copies.len(), 2);
    assert_eq!(copies[0].control_points, vec![(1.0, 0.0)]);
    assert_eq!(copies[1].control_points, vec![(2.0, 0.0), (3.0, 0.0)]);
    assert_eq!(copies[1].phis, vec![7.0]);
    assert_eq!(copies[1].stroke_width, 9.0);
    assert!(!copies[1].is_closed);
}

#[test]
fn copies_selected_points_without_nodes() {
    let paths = vec![path(3), path(3)];
    let copies = copy_point_paths(&paths, 1, &[2, 0, 2], &[], defaults());
    assert_eq!(copies.len(), 1);
    assert_eq!(copies[0].control_points, vec![(0.0, 0.0), (2.0, 0.0)]);
    assert_eq!(copies[0].phis, vec![2.0]);
}

#[test]
fn copy_skips_missing_points_and_paths() {
    let paths = vec![path(2)];
    assert!(copy_point_paths(&paths, 0, &[5], &[], defaults()).is_empty());
    assert!(copy_point_paths(&paths, 4, &[0], &[], defaults()).is_empty());
    assert!(copy_point_paths(&paths, 0, &[], &[], defaults()).is_empty());
}
