use mohe_ji::document::{Document, Layer, LayerKind, RasterImage, RasterStroke};
use mohe_ji::path::{PPWPath, SegmentDefaults};
use mohe_ji::svg_data::image_from_data_uri_attr;
use mohe_ji::svg_document::{svg_document_text, LayerItemTexts, SvgHeaderTexts};
use mohe_ji::svg_lines::{ImageNumberTexts, PathNumberTexts, StrokeNumberTexts};
use mohe_ji::svg_reader::{line_marks, SvgLayerReader};

type P = (i32, i32);
const D: SegmentDefaults<u32> = SegmentDefaults { weight: 1, phi: 2, psi: 3 };

fn path(points: usize) -> PPWPath<P, u32> {
    PPWPath {
        is_closed: false,
        control_points: (0..points as i32).map(|i| (i, 2 * i)).collect(),
        weights: vec![1; points],
        phis: vec![2; points.saturating_sub(1)],
        psis: vec![3; points.saturating_sub(1)],
        fill_enabled: true,
        fill_color: [1, 2, 3, 4],
        stroke_width: 5,
        stroke_color: [0, 0, 0, 255],
    }
}

fn path_texts() -> PathNumberTexts {
    PathNumberTexts {
        fill_opacity: "0.5".to_string(),
        stroke_width: "5".to_string(),
        points: "0,0 1,2".to_string(),
        control_points: "0,0 1,2".to_string(),
        weights: "1 1".to_string(),
        phis: "2".to_string(),
        psis: "3".to_string(),
    }
}

fn stroke_texts() -> StrokeNumberTexts {
    StrokeNumberTexts { opacity: "1".to_string(), width: "8".to_string(), points: "0,0 4,4".to_string() }
}

fn sample() -> (Document<P, u32>, Vec<LayerItemTexts>) {
    let mut vector = Layer::with_paths("Ink & <Line>".to_string(), vec![path(0), path(2)]);
    vector.images.push(RasterImage {
        id: 7,
        name: "pic".to_string(),
        pixels_rgba: vec![9, 8, 7, 255],
        width: 1,
        height: 1,
        pos: (3, 4),
        size: (5, 6),
        rotation: 30,
    });
    let mut raster = Layer::new_raster("Paint".to_string());
    raster.raster_width = 1;
    raster.raster_height = 1;
    raster.raster_pixels_rgba = vec![1, 2, 3, 4];
    raster.raster_strokes.push(RasterStroke { points: vec![(0, 0)], width: 8, color: [1, 1, 1, 255] });
    raster.raster_strokes.push(RasterStroke { points: vec![(0, 0), (4, 4)], width: 8, color: [10, 20, 30, 255] });
    let doc = Document { layers: vec![vector, raster], active_layer: 1, canvas_width: 600, canvas_height: 800, next_image_id: 8 };
    let items = vec![
        LayerItemTexts {
            strokes: vec![],
            images: vec![ImageNumberTexts { x: "3".into(), y: "4".into(), width: "5".into(), height: "6".into() }],
            paths: vec![path_texts(), path_texts()],
        },
        LayerItemTexts { strokes: vec![stroke_texts(), stroke_texts()], images: vec![], paths: vec![] },
    ];
    (doc, items)
}

fn header() -> SvgHeaderTexts {
    SvgHeaderTexts { width: "600".to_string(), height: "800".to_string() }
}

#[test]
fn document_text_layout() {
    let (doc, items) = sample();
    let text = svg_document_text(&doc, &header(), &items);
    let lines: Vec<&str> = text.lines().collect();
    assert_eq!(lines[0], r#"<?xml version="1.0" encoding="UTF-8"?>"#);
    assert!(lines[1].starts_with(r#"<svg xmlns="http://www.w3.org/2000/svg""#));
    assert!(lines[1].contains(r#"width="600" height="800" viewBox="0 0 600 800">"#));
    assert!(lines[2].starts_with("  <desc>MoHe-Ji SVG."));
    assert!(lines[3].starts_with(r#"  <g id="layer-1" data-layer-name="Ink &amp; &lt;Line&gt;""#));
    assert!(lines[4].starts_with(r#"    <image id="placed-image-1-1""#));
    // The path without control points is skipped but keeps its number.
    assert!(lines[5].starts_with(r#"    <polyline id="path-1-2""#));
    assert_eq!(lines[6], "  </g>");
    assert!(lines[7].starts_with(r#"  <g id="layer-2""#));
    assert!(lines[8].contains(r#"data-ppw-raster-canvas="true""#));
    // The one-point stroke is skipped but keeps its number.
    assert!(lines[9].starts_with(r#"    <polyline id="raster-2-2""#));
    assert_eq!(lines[10], "  </g>");
    assert_eq!(lines[11], "</svg>");
    assert_eq!(lines.len(), 12);
    assert!(text.ends_with("</svg>\n"));
}

#[test]
fn document_text_reads_back() {
    let (doc, items) = sample();
    let text = svg_document_text(&doc, &header(), &items);
    let mut reader: SvgLayerReader<P, u32> = SvgLayerReader::new();
    for raw in text.lines() {
        let line = raw.trim();
        let m = line_marks(line);
        if m.opens_layer {
            reader.read_layer_open(line);
        }
        if m.raster_canvas {
            reader.read_raster_canvas(line);
        }
        if m.placed_image {
            reader.read_placed_image(line, image_from_data_uri_attr(line), (3, 4), (5, 6), 0);
        }
        if m.raster_stroke {
            reader.read_raster_stroke(doc.layers[1].raster_strokes[1].clone());
        }
        if m.ppw_path {
            reader.read_path(doc.layers[0].paths[1].clone(), D);
        }
        if m.closes_layer {
            reader.read_layer_close();
        }
    }
    let back = reader.finish(600, 800, 5).expect("layers read");
    assert_eq!(back.layers.len(), 2);
    let v = &back.layers[0];
    assert_eq!(v.name, "Ink & <Line>");
    assert_eq!(v.kind, LayerKind::Vector);
    assert_eq!(v.paths.len(), 1);
    assert_eq!(v.paths[0].control_points, vec![(0, 0), (1, 2)]);
    assert_eq!(v.images.len(), 1);
    assert_eq!(v.images[0].id, 7);
    assert_eq!(v.images[0].name, "pic");
    assert_eq!(v.images[0].pixels_rgba, vec![9, 8, 7, 255]);
    assert_eq!(v.images[0].rotation, 0);
    let r = &back.layers[1];
    assert_eq!(r.name, "Paint");
    assert_eq!(r.kind, LayerKind::Raster);
    assert_eq!(r.raster_pixels_rgba, vec![1, 2, 3, 4]);
    assert_eq!((r.raster_width, r.raster_height), (1, 1));
    assert_eq!(r.raster_strokes.len(), 1);
    assert_eq!(r.raster_strokes[0].color, [10, 20, 30, 255]);
    assert_eq!(back.active_layer, 0);
}
