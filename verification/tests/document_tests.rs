use mohe_ji::document::{
    canvas_resize_is_safe, canvases_resize_are_safe, ensure_layer_raster_canvas, Document, Layer, LayerKind,
};
use mohe_ji::path::{PPWPath, SegmentDefaults};
use mohe_ji::selection::PointSelection;

type P = (f32, f32);
type Doc = Document<P, f32>;

fn defaults() -> SegmentDefaults<f32> {
    SegmentDefaults { weight: 1.0, phi: 2.0, psi: 0.0 }
}

fn new_doc() -> Doc {
    Document::empty_path(600.0, 800.0, 2.5)
}

fn names(doc: &Doc) -> Vec<String> {
    doc.layers.iter().map(|l| l.name.clone()).collect()
}

#[test]
fn layer_kind_labels() {
    assert_eq!(LayerKind::Vector.label(), "Vector");
    assert_eq!(LayerKind::Raster.label(), "Raster");
}

#[test]
fn empty_path_document() {
    let doc = new_doc();
    assert_eq!(names(&doc), vec!["Layer 1"]);
    assert_eq!(doc.active_layer, 0);
    assert_eq!(doc.next_image_id, 1);
    assert_eq!(doc.layers[0].kind, LayerKind::Vector);
    assert_eq!(doc.layers[0].paths.len(), 1);
    assert!(doc.layers[0].visible);
    assert!(!doc.layers[0].locked);
    assert_eq!(doc.active_paths().len(), 1);
}

#[test]
fn add_layers_are_numbered_and_active() {
    let mut doc = new_doc();
    doc.add_vector_layer(2.5);
    doc.add_raster_layer(3, 2);
    doc.add_layer(2.5);
    assert_eq!(names(&doc), vec!["Layer 1", "Vector Layer 2", "Raster Layer 3", "Vector Layer 4"]);
    assert_eq!(doc.active_layer, 3);
    let raster = &doc.layers[2];
    assert_eq!(raster.kind, LayerKind::Raster);
    assert!(raster.paths.is_empty());
    assert_eq!((raster.raster_width, raster.raster_height), (3, 2));
    assert_eq!(raster.raster_pixels_rgba, vec![0u8; 24]);
}

#[test]
fn raster_layer_of_zero_size_gets_one_pixel() {
    let mut doc = new_doc();
    doc.add_raster_layer(0, 0);
    let raster = &doc.layers[1];
    assert_eq!((raster.raster_width, raster.raster_height), (1, 1));
    assert_eq!(raster.raster_pixels_rgba.len(), 4);
}

#[test]
fn duplicate_active_layer_inserts_copy_after() {
    let mut doc = new_doc();
    doc.add_vector_layer(2.5);
    doc.active_layer = 0;
    doc.layers[0].paths[0].add_point((1.0, 2.0), defaults());
    doc.duplicate_active_layer();
    assert_eq!(names(&doc), vec!["Layer 1", "Layer 1 Copy", "Vector Layer 2"]);
    assert_eq!(doc.active_layer, 1);
    assert_eq!(doc.layers[1].paths[0].control_points, vec![(1.0, 2.0)]);
    doc.active_layer = 9;
    doc.duplicate_active_layer();
    assert_eq!(doc.layers.len(), 3);
}

#[test]
fn delete_active_layer_keeps_index_in_range() {
    let mut doc = new_doc();
    doc.add_vector_layer(2.5);
    doc.add_vector_layer(2.5);
    doc.delete_active_layer(2.5);
    assert_eq!(names(&doc), vec!["Layer 1", "Vector Layer 2"]);
    assert_eq!(doc.active_layer, 1);
    doc.active_layer = 0;
    doc.delete_active_layer(2.5);
    assert_eq!(names(&doc), vec!["Vector Layer 2"]);
    assert_eq!(doc.active_layer, 0);
}

#[test]
fn delete_last_layer_resets_it() {
    let mut doc = new_doc();
    doc.layers[0].name = "Mine".to_string();
    doc.layers[0].locked = true;
    doc.delete_active_layer(2.5);
    assert_eq!(names(&doc), vec!["Layer 1"]);
    assert!(!doc.layers[0].locked);
    assert_eq!(doc.active_layer, 0);
}

#[test]
fn move_layer_up_and_down() {
    let mut doc = new_doc();
    doc.add_vector_layer(2.5);
    doc.add_vector_layer(2.5);
    doc.active_layer = 0;
    doc.move_active_layer_up();
    assert_eq!(names(&doc), vec!["Vector Layer 2", "Layer 1", "Vector Layer 3"]);
    assert_eq!(doc.active_layer, 1);
    doc.move_active_layer_down();
    assert_eq!(names(&doc), vec!["Layer 1", "Vector Layer 2", "Vector Layer 3"]);
    assert_eq!(doc.active_layer, 0);
    doc.move_active_layer_down();
    assert_eq!(doc.active_layer, 0);
    doc.active_layer = 2;
    doc.move_active_layer_up();
    assert_eq!(doc.active_layer, 2);
    assert_eq!(names(&doc), vec!["Layer 1", "Vector Layer 2", "Vector Layer 3"]);
}

#[test]
fn add_image_to_active_layer_assigns_ids() {
    let mut doc = new_doc();
    let r = doc.add_image_to_active_layer("a.png".to_string(), vec![0; 4], 1, 1, (40.0, 40.0), (1.0, 1.0), 0.0);
    assert_eq!(r, Some((0, 1)));
    let r = doc.add_image_to_active_layer("b.png".to_string(), vec![0; 4], 1, 1, (40.0, 40.0), (1.0, 1.0), 0.0);
    assert_eq!(r, Some((1, 2)));
    assert_eq!(doc.next_image_id, 3);
    assert_eq!(doc.layers[0].images[1].name, "b.png");
    doc.layers[0].locked = true;
    let r = doc.add_image_to_active_layer("c.png".to_string(), vec![], 0, 0, (0.0, 0.0), (1.0, 1.0), 0.0);
    assert_eq!(r, None);
    assert_eq!(doc.next_image_id, 4);
    assert_eq!(doc.layers[0].images.len(), 2);
}

#[test]
fn add_image_saturates_next_id() {
    let mut doc = new_doc();
    doc.next_image_id = u64::MAX;
    let r = doc.add_image_to_active_layer("x".to_string(), vec![], 0, 0, (0.0, 0.0), (1.0, 1.0), 0.0);
    assert_eq!(r, Some((0, u64::MAX)));
    assert_eq!(doc.next_image_id, u64::MAX);
}

fn path_of(points: usize) -> PPWPath<P, f32> {
    let mut path = PPWPath::empty(2.5);
    for i in 0..points {
        path.add_point((i as f32, 0.0), defaults());
    }
    path
}

#[test]
fn remove_selected_points_by_node() {
    let mut doc = new_doc();
    doc.layers[0].paths = vec![path_of(4), path_of(3)];
    let nodes = vec![
        PointSelection { path_index: 1, point_index: 0 },
        PointSelection { path_index: 0, point_index: 3 },
        PointSelection { path_index: 0, point_index: 1 },
        PointSelection { path_index: 5, point_index: 0 },
    ];
    doc.remove_selected_points(0, &[0], &nodes, defaults());
    assert_eq!(doc.layers[0].paths[0].control_points, vec![(0.0, 0.0), (2.0, 0.0)]);
    assert_eq!(doc.layers[0].paths[1].control_points, vec![(1.0, 0.0), (2.0, 0.0)]);
    assert_eq!(doc.layers[0].paths[0].phis.len(), 1);
}

#[test]
fn remove_selected_points_fallback() {
    let mut doc = new_doc();
    doc.layers[0].paths = vec![path_of(3), path_of(3)];
    doc.remove_selected_points(1, &[2, 2], &[], defaults());
    assert_eq!(doc.layers[0].paths[0].control_points.len(), 3);
    assert_eq!(doc.layers[0].paths[1].control_points, vec![(0.0, 0.0), (1.0, 0.0)]);
    doc.remove_selected_points(1, &[], &[], defaults());
    assert_eq!(doc.layers[0].paths[1].control_points.len(), 2);
}

#[test]
fn ensure_canvas_keeps_overlap() {
    let mut layer: Layer<P, f32> = Layer::new_raster("R".to_string());
    ensure_layer_raster_canvas(&mut layer, 2, 2);
    assert_eq!(layer.raster_pixels_rgba, vec![0u8; 16]);
    for (i, b) in layer.raster_pixels_rgba.iter_mut().enumerate() {
        *b = i as u8 + 1;
    }
    ensure_layer_raster_canvas(&mut layer, 3, 1);
    assert_eq!((layer.raster_width, layer.raster_height), (3, 1));
    assert_eq!(layer.raster_pixels_rgba, vec![1, 2, 3, 4, 5, 6, 7, 8, 0, 0, 0, 0]);
    ensure_layer_raster_canvas(&mut layer, 1, 2);
    assert_eq!(layer.raster_pixels_rgba, vec![1, 2, 3, 4, 0, 0, 0, 0]);
}

#[test]
fn ensure_canvas_ignores_vector_and_matching_layers() {
    let mut vector: Layer<P, f32> = Layer::new("V".to_string(), 2.5);
    ensure_layer_raster_canvas(&mut vector, 4, 4);
    assert!(vector.raster_pixels_rgba.is_empty());
    let mut raster: Layer<P, f32> = Layer::new_raster("R".to_string());
    ensure_layer_raster_canvas(&mut raster, 1, 1);
    raster.raster_pixels_rgba[0] = 9;
    ensure_layer_raster_canvas(&mut raster, 1, 1);
    assert_eq!(raster.raster_pixels_rgba, vec![9, 0, 0, 0]);
}

#[test]
fn ensure_active_raster_canvas_only_active() {
    let mut doc = new_doc();
    doc.add_raster_layer(1, 1);
    doc.ensure_active_raster_canvas(2, 1);
    assert_eq!(doc.layers[1].raster_pixels_rgba.len(), 8);
    doc.active_layer = 0;
    doc.ensure_active_raster_canvas(5, 5);
    assert!(doc.layers[0].raster_pixels_rgba.is_empty());
}

#[test]
fn normalize_repairs_document() {
    let mut doc = new_doc();
    doc.layers.clear();
    doc.active_layer = 7;
    doc.normalize(2, 2, 2.5, defaults());
    assert_eq!(names(&doc), vec!["Layer 1"]);
    assert_eq!(doc.active_layer, 0);
    assert_eq!(doc.next_image_id, 1);
}

#[test]
fn normalize_fixes_layers_and_ids() {
    let mut doc = new_doc();
    doc.add_raster_layer(1, 1);
    doc.layers[1].paths.push(path_of(2));
    doc.layers[0].paths.clear();
    let mut long = path_of(3);
    long.phis.clear();
    doc.layers.push(Layer::with_paths("W".to_string(), vec![long]));
    doc.layers[1].images.push(mohe_ji::document::RasterImage {
        id: 41,
        name: "i".to_string(),
        pixels_rgba: vec![],
        width: 0,
        height: 0,
        pos: (0.0, 0.0),
        size: (1.0, 1.0),
        rotation: 0.0,
    });
    doc.active_layer = 10;
    doc.next_image_id = 5;
    doc.normalize(2, 1, 2.5, defaults());
    assert_eq!(doc.active_layer, 2);
    assert_eq!(doc.next_image_id, 42);
    assert_eq!(doc.layers[0].paths.len(), 1);
    assert!(doc.layers[1].paths.is_empty());
    assert_eq!((doc.layers[1].raster_width, doc.layers[1].raster_height), (2, 1));
    assert_eq!(doc.layers[2].paths[0].phis, vec![2.0, 2.0]);
    let again = doc.next_image_id;
    doc.normalize(2, 1, 2.5, defaults());
    assert_eq!(doc.next_image_id, again);
    assert_eq!(doc.active_layer, 2);
}

#[test]
fn layer_duplicate_is_deep() {
    let mut layer: Layer<P, f32> = Layer::new("L".to_string(), 2.5);
    layer.paths[0].add_point((3.0, 4.0), defaults());
    let copy = layer.duplicate();
    layer.paths[0].move_point(0, (0.0, 0.0));
    assert_eq!(copy.paths[0].control_points, vec![(3.0, 4.0)]);
    assert_eq!(copy.name, "L");
}

#[test]
fn reorder_layer_by_drag() {
    let mut doc = new_doc();
    doc.add_vector_layer(2.5);
    doc.add_vector_layer(2.5);
    doc.add_vector_layer(2.5);
    doc.reorder_layer(0, 2);
    assert_eq!(names(&doc), vec!["Vector Layer 2", "Layer 1", "Vector Layer 3", "Vector Layer 4"]);
    assert_eq!(doc.active_layer, 1);
    doc.reorder_layer(1, 0);
    assert_eq!(names(&doc), vec!["Layer 1", "Vector Layer 2", "Vector Layer 3", "Vector Layer 4"]);
    assert_eq!(doc.active_layer, 0);
    doc.reorder_layer(3, 0);
    assert_eq!(names(&doc), vec!["Vector Layer 4", "Layer 1", "Vector Layer 2", "Vector Layer 3"]);
    doc.reorder_layer(0, 1);
    assert_eq!(names(&doc), vec!["Vector Layer 4", "Layer 1", "Vector Layer 2", "Vector Layer 3"]);
}

#[test]
fn canvas_safety_checks() {
    let mut raster: Layer<P, f32> = Layer::new_raster("R".to_string());
    assert!(canvas_resize_is_safe(&raster, 10, 10));
    raster.raster_width = 70000;
    raster.raster_height = 70000;
    assert!(!canvas_resize_is_safe(&raster, 70000, 70000));
    assert!(canvas_resize_is_safe(&raster, 70000, 1));
    let vector: Layer<P, f32> = Layer::new("V".to_string(), 2.5);
    assert!(canvas_resize_is_safe(&vector, u32::MAX, u32::MAX));
    assert!(canvases_resize_are_safe(&[vector], 5, 5));
    assert!(!canvases_resize_are_safe(&[raster], 70000, 70000));
}

#[test]
fn start_new_path_appends_once() {
    let mut doc = new_doc();
    assert_eq!(doc.start_new_path(2.5), Some(0));
    assert_eq!(doc.layers[0].paths.len(), 1);
    doc.layers[0].paths[0].add_point((1.0, 1.0), defaults());
    assert_eq!(doc.start_new_path(2.5), Some(1));
    assert_eq!(doc.layers[0].paths.len(), 2);
    doc.layers[0].locked = true;
    assert_eq!(doc.start_new_path(2.5), None);
    doc.add_raster_layer(1, 1);
    assert_eq!(doc.start_new_path(2.5), None);
}

#[test]
fn paste_paths_selects_all_points() {
    let mut doc = new_doc();
    let r = doc.paste_paths(vec![path_of(2), path_of(1)]);
    assert_eq!(
        r,
        Some((
            1,
            vec![
                PointSelection { path_index: 1, point_index: 0 },
                PointSelection { path_index: 1, point_index: 1 },
                PointSelection { path_index: 2, point_index: 0 },
            ]
        ))
    );
    assert_eq!(doc.layers[0].paths.len(), 3);
    doc.layers[0].paths.clear();
    assert_eq!(doc.paste_paths(Vec::new()), Some((0, Vec::new())));
    doc.active_layer = 4;
    assert_eq!(doc.paste_paths(vec![path_of(1)]), None);
}

#[test]
fn remove_active_image_by_index() {
    let mut doc = new_doc();
    doc.add_image_to_active_layer("a.png".to_string(), vec![1; 4], 1, 1, (0.0, 0.0), (1.0, 1.0), 0.0);
    doc.add_image_to_active_layer("b.png".to_string(), vec![2; 4], 1, 1, (0.0, 0.0), (1.0, 1.0), 0.0);
    assert!(doc.active_image_exists(1));
    assert!(!doc.active_image_exists(2));
    assert!(doc.remove_active_image(2).is_none());
    let removed = doc.remove_active_image(0).unwrap();
    assert_eq!((removed.id, removed.name.as_str()), (1, "a.png"));
    assert_eq!(doc.layers[0].images.len(), 1);
    assert_eq!(doc.layers[0].images[0].name, "b.png");
    doc.active_layer = 5;
    assert!(!doc.active_image_exists(0));
    assert!(doc.remove_active_image(0).is_none());
    assert_eq!(doc.layers[0].images.len(), 1);
}

#[test]
fn active_layer_mut_changes_only_active_layer() {
    let mut doc = new_doc();
    doc.add_vector_layer(2.5);
    let before = names(&doc);
    if let Some(layer) = doc.active_layer_mut() {
        layer.name = String::from("Renamed");
    } else {
        panic!("expected an active layer");
    }
    let after = names(&doc);
    assert_eq!(after.len(), before.len());
    assert_eq!(after[doc.active_layer], "Renamed");
    assert_eq!(after[0], before[0]);
    doc.active_layer = doc.layers.len();
    assert!(doc.active_layer_mut().is_none());
    assert!(doc.active_paths_mut().is_none());
    assert!(doc.active_path_mut(0).is_none());
}

#[test]
fn active_paths_mut_and_active_path_mut() {
    let mut doc = new_doc();
    let count = doc.active_paths().len();
    assert_eq!(count, 1);
    doc.active_paths_mut().unwrap().clear();
    assert_eq!(doc.active_paths().len(), 0);
    assert!(doc.active_path_mut(0).is_none());
    doc.start_new_path(3.0);
    {
        let path = doc.active_path_mut(0).unwrap();
        path.is_closed = true;
    }
    assert!(doc.active_paths()[0].is_closed);
    assert!(doc.active_path_mut(1).is_none());
}
