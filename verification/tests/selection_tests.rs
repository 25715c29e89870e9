use mohe_ji::selection::{
    editable_segment_indices, points_of_path, selected_paths_in_order, sort_indices, sorted_unique,
    sync_legacy_selection, toggle_index, toggle_node, PointSelection,
};

fn node(path_index: usize, point_index: usize) -> PointSelection {
    PointSelection { path_index, point_index }
}

#[test]
fn toggle_node_adds_sorted_and_removes() {
    let mut nodes = vec![node(0, 1), node(1, 0)];
    toggle_node(&mut nodes, node(0, 3));
    assert_eq!(nodes, vec![node(0, 1), node(0, 3), node(1, 0)]);
    toggle_node(&mut nodes, node(0, 1));
    assert_eq!(nodes, vec![node(0, 3), node(1, 0)]);
    toggle_node(&mut nodes, node(0, 3));
    toggle_node(&mut nodes, node(0, 3));
    assert_eq!(nodes, vec![node(0, 3), node(1, 0)]);
}

#[test]
fn toggle_index_adds_sorted_and_removes() {
    let mut v = vec![5, 1];
    toggle_index(&mut v, 3);
    assert_eq!(v, vec![1, 3, 5]);
    toggle_index(&mut v, 5);
    assert_eq!(v, vec![1, 3]);
    let mut e: Vec<usize> = Vec::new();
    toggle_index(&mut e, 0);
    assert_eq!(e, vec![0]);
}

#[test]
fn sort_indices_sorts() {
    assert_eq!(sort_indices(&vec![3, 1, 2, 1]), vec![1, 1, 2, 3]);
    assert_eq!(sort_indices(&Vec::new()), Vec::<usize>::new());
}

#[test]
fn sorted_unique_dedups() {
    assert_eq!(sorted_unique(&[4, 2, 4, 0, 2]), vec![0, 2, 4]);
    assert_eq!(sorted_unique(&[]), Vec::<usize>::new());
}

#[test]
fn points_of_path_collects() {
    let nodes = vec![node(1, 4), node(0, 2), node(1, 1), node(1, 4)];
    assert_eq!(points_of_path(&nodes, 1), vec![1, 4]);
    assert_eq!(points_of_path(&nodes, 0), vec![2]);
    assert_eq!(points_of_path(&nodes, 7), Vec::<usize>::new());
}

#[test]
fn sync_legacy_selection_rebuilds() {
    let nodes = vec![node(2, 9), node(2, 3), node(0, 1)];
    let mut points = vec![100, 200];
    sync_legacy_selection(2, &mut points, &nodes);
    assert_eq!(points, vec![3, 9]);
}

#[test]
fn selected_paths_in_first_seen_order() {
    let nodes = vec![node(2, 0), node(0, 1), node(2, 5), node(1, 1)];
    assert_eq!(selected_paths_in_order(&nodes), vec![2, 0, 1]);
}

#[test]
fn editable_segments_open_and_closed() {
    assert_eq!(editable_segment_indices(4, false, 0), vec![0]);
    assert_eq!(editable_segment_indices(4, false, 2), vec![1, 2]);
    assert_eq!(editable_segment_indices(4, false, 3), vec![2]);
    assert_eq!(editable_segment_indices(4, true, 0), vec![3, 0]);
    assert_eq!(editable_segment_indices(4, true, 5), Vec::<usize>::new());
    assert_eq!(editable_segment_indices(1, true, 0), Vec::<usize>::new());
}
