use mohe_ji::document::{LayerKind, RasterStroke};
use mohe_ji::path::{PPWPath, SegmentDefaults};
use mohe_ji::svg_data::{image_from_data_uri_attr, rgba_to_png_data_uri};
use mohe_ji::svg_reader::{line_marks, SvgLayerReader};
use mohe_ji::svg_tags::layer_open_tag;
use mohe_ji::text::parse_u64;

type Reader = SvgLayerReader<(i32, i32), u32>;

const D: SegmentDefaults<u32> = SegmentDefaults { weight: 1, phi: 2, psi: 3 };

fn path(points: usize) -> PPWPath<(i32, i32), u32> {
    PPWPath {
        is_closed: false,
        control_points: (0..points as i32).map(|i| (i, i)).collect(),
        weights: Vec::new(),
        phis: Vec::new(),
        psis: Vec::new(),
        fill_enabled: false,
        fill_color: [1, 2, 3, 4],
        stroke_width: 5,
        stroke_color: [0, 0, 0, 255],
    }
}

fn image_line(id: &str) -> String {
    let uri = rgba_to_png_data_uri(&[9, 8, 7, 255], 1, 1).unwrap();
    format!(r#"<image x="0" href="{uri}" data-ppw-image="true"{id} data-image-name="a&amp;b" />"#)
}

#[test]
fn marks_of_lines() {
    let m = line_marks(r#"<g id="layer-1" data-layer-name="x">"#);
    assert!(m.opens_layer && !m.closes_layer && !m.ppw_path);
    let m = line_marks("<g>");
    assert!(m.opens_layer);
    let m = line_marks("<gx>");
    assert!(!m.opens_layer);
    let m = line_marks("</g>");
    assert!(m.closes_layer && !m.opens_layer);
    let m = line_marks(r#"<polyline data-ppw="true" />"#);
    assert!(m.ppw_path && !m.raster_stroke && !m.placed_image && !m.raster_canvas);
    let m = line_marks(r#"<image data-ppw-raster-canvas="true" />"#);
    assert!(m.raster_canvas && !m.ppw_path && !m.placed_image);
    let m = line_marks(r#"<image data-ppw-image="true" />"#);
    assert!(m.placed_image && !m.raster_canvas);
    let m = line_marks(r#"<polyline data-raster-stroke="true" />"#);
    assert!(m.raster_stroke);
}

#[test]
fn parse_u64_like_std() {
    for s in ["0", "+7", "18446744073709551615", "18446744073709551616", "", "+", "-1", " 1", "12a", "007"] {
        assert_eq!(parse_u64(s), s.parse::<u64>().ok(), "{s:?}");
    }
}

#[test]
fn layers_are_read_in_order() {
    let mut r = Reader::new();
    r.read_layer_open(&layer_open_tag(1, "Ink", LayerKind::Vector, true, false));
    r.read_path(path(3), D);
    r.read_layer_close();
    r.read_layer_open(&layer_open_tag(2, "Paint", LayerKind::Raster, false, true));
    r.read_raster_stroke(RasterStroke { points: vec![(0, 0), (1, 1)], width: 8, color: [0, 0, 0, 180] });
    r.read_layer_close();
    let doc = r.finish(600, 800, 2).unwrap();
    assert_eq!(doc.layers.len(), 2);
    assert_eq!(doc.active_layer, 0);
    assert_eq!((doc.canvas_width, doc.canvas_height), (600, 800));
    assert_eq!(doc.next_image_id, 1);
    let ink = &doc.layers[0];
    assert_eq!(ink.name, "Ink");
    assert_eq!(ink.kind, LayerKind::Vector);
    assert_eq!(ink.paths.len(), 1);
    assert_eq!(ink.paths[0].weights, vec![1, 1, 1]);
    assert_eq!(ink.paths[0].phis, vec![2, 2]);
    assert_eq!(ink.paths[0].psis, vec![3, 3]);
    let paint = &doc.layers[1];
    assert_eq!(paint.name, "Paint");
    assert_eq!(paint.kind, LayerKind::Raster);
    assert!(!paint.visible && paint.locked);
    assert_eq!(paint.raster_strokes.len(), 1);
    assert!(paint.paths.is_empty());
}

#[test]
fn lines_outside_groups_make_numbered_layers() {
    let mut r = Reader::new();
    r.read_path(path(2), D);
    r.read_layer_close();
    r.read_raster_stroke(RasterStroke { points: vec![(0, 0)], width: 1, color: [1, 1, 1, 1] });
    r.read_layer_close();
    r.read_raster_canvas("<image data-ppw-raster-canvas=\"true\" />");
    let doc = r.finish(1, 1, 4).unwrap();
    let names: Vec<&str> = doc.layers.iter().map(|l| l.name.as_str()).collect();
    assert_eq!(names, vec!["Layer 1", "Raster Layer 2", "Raster Layer 3"]);
    assert_eq!(doc.layers[2].kind, LayerKind::Raster);
    assert!(doc.layers[2].raster_pixels_rgba.is_empty());
}

#[test]
fn empty_vector_layer_gets_a_path() {
    let mut r = Reader::new();
    r.read_layer_open(r#"<g data-layer-name="Empty">"#);
    let doc = r.finish(1, 1, 9).unwrap();
    assert_eq!(doc.layers.len(), 1);
    assert_eq!(doc.layers[0].paths.len(), 1);
    assert_eq!(doc.layers[0].paths[0].stroke_width, 9);
    assert!(doc.layers[0].paths[0].control_points.is_empty());
}

#[test]
fn nothing_read_gives_no_document() {
    assert!(Reader::new().finish(1, 1, 1).is_none());
    let mut r = Reader::new();
    r.read_layer_close();
    assert!(r.finish(1, 1, 1).is_none());
}

#[test]
fn raster_canvas_is_decoded() {
    let uri = rgba_to_png_data_uri(&[1, 2, 3, 4, 5, 6, 7, 8], 2, 1).unwrap();
    let line = format!(r#"<image href="{uri}" data-ppw-raster-canvas="true" />"#);
    let mut r = Reader::new();
    r.read_layer_open(r#"<g data-layer-name="L" data-layer-kind="Vector">"#);
    r.read_path(path(1), D);
    r.read_raster_canvas(&line);
    let doc = r.finish(1, 1, 1).unwrap();
    let l = &doc.layers[0];
    assert_eq!(l.kind, LayerKind::Raster);
    assert_eq!((l.raster_width, l.raster_height), (2, 1));
    assert_eq!(l.raster_pixels_rgba, vec![1, 2, 3, 4, 5, 6, 7, 8]);
    assert!(l.paths.is_empty());
}

#[test]
fn placed_image_ids() {
    let mut r = Reader::new();
    let with_id = image_line(r#" data-image-id="41""#);
    r.read_placed_image(&with_id, image_from_data_uri_attr(&with_id), (3, 4), (10, 10), 0);
    let without_id = image_line("");
    r.read_placed_image(&without_id, image_from_data_uri_attr(&without_id), (0, 0), (1, 1), 0);
    let bad_id = image_line(r#" data-image-id="x""#);
    r.read_placed_image(&bad_id, image_from_data_uri_attr(&bad_id), (0, 0), (1, 1), 0);
    let small_id = image_line(r#" data-image-id="5""#);
    r.read_placed_image(&small_id, image_from_data_uri_attr(&small_id), (0, 0), (1, 1), 0);
    assert_eq!(r.max_image_id, 43);
    let doc = r.finish(1, 1, 1).unwrap();
    let l = &doc.layers[0];
    assert_eq!(l.name, "Layer 1");
    assert_eq!(l.kind, LayerKind::Vector);
    let ids: Vec<u64> = l.images.iter().map(|m| m.id).collect();
    assert_eq!(ids, vec![41, 42, 43, 5]);
    assert_eq!(l.images[0].name, "a&b");
    assert_eq!(l.images[0].pixels_rgba, vec![9, 8, 7, 255]);
    assert_eq!((l.images[0].width, l.images[0].height), (1, 1));
    assert_eq!(l.images[0].pos, (3, 4));
    assert_eq!(doc.next_image_id, 44);
}

#[test]
fn undecodable_image_still_opens_a_layer() {
    let mut r = Reader::new();
    r.read_placed_image(r#"<image data-ppw-image="true" href="nope" />"#, None, (0, 0), (0, 0), 0);
    assert_eq!(r.max_image_id, 0);
    let doc = r.finish(1, 1, 1).unwrap();
    assert_eq!(doc.layers.len(), 1);
    assert!(doc.layers[0].images.is_empty());
}

#[test]
fn largest_id_saturates() {
    let mut r = Reader::new();
    let line = image_line(r#" data-image-id="18446744073709551615""#);
    r.read_placed_image(&line, image_from_data_uri_attr(&line), (0, 0), (1, 1), 0);
    let doc = r.finish(1, 1, 1).unwrap();
    assert_eq!(doc.next_image_id, u64::MAX);
}
