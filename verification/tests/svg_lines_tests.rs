use mohe_ji::svg_lines::{ppw_path_tag, read_path_fields, stroke_color_attr, stroke_color_is_readable, PathNumberTexts};

fn texts() -> PathNumberTexts {
    PathNumberTexts {
        fill_opacity: "0.2745".to_string(),
        stroke_width: "2.5000".to_string(),
        points: "0.0000,0.0000 10.0000,5.0000".to_string(),
        control_points: "0.0000,0.0000 10.0000,5.0000".to_string(),
        weights: "1.0000 1.0000".to_string(),
        phis: "0.5000".to_string(),
        psis: "0.2500".to_string(),
    }
}

#[test]
fn path_line_format() {
    let line = ppw_path_tag(2, 3, true, true, [120, 170, 255, 70], [0, 16, 255, 255], &texts());
    let expected = format!(
        "<polyline id=\"path-{}-{}\" fill=\"{}\" fill-opacity=\"{}\" stroke=\"{}\" stroke-width=\"{}\" points=\"{}\" data-ppw=\"true\" data-ppw-closed=\"{}\" data-ppw-control-points=\"{}\" data-ppw-weights=\"{}\" data-ppw-phis=\"{}\" data-ppw-psis=\"{}\" data-ppw-fill-enabled=\"{}\" data-ppw-fill-color=\"{}\" data-ppw-stroke-width=\"{}\" data-ppw-stroke-color=\"{}\" />",
        2, 3, "#78aaff", "0.2745", "#0010ff", "2.5000", "0.0000,0.0000 10.0000,5.0000", true,
        "0.0000,0.0000 10.0000,5.0000", "1.0000 1.0000", "0.5000", "0.2500", true, "120,170,255,70", "2.5000", "0,16,255,255"
    );
    assert_eq!(line, expected);
    let unfilled = ppw_path_tag(1, 1, false, false, [1, 2, 3, 4], [5, 6, 7, 8], &texts());
    assert!(unfilled.contains(" fill=\"none\" "));
}

#[test]
fn path_line_roundtrip() {
    for (closed, fill, fc, sc) in [(true, true, [1, 2, 3, 4], [250, 0, 9, 128]), (false, false, [0, 0, 0, 0], [255, 255, 255, 255])] {
        let t = texts();
        let line = ppw_path_tag(7, 12, closed, fill, fc, sc, &t);
        assert!(stroke_color_is_readable(&line, "data-ppw-stroke-color"));
        let f = read_path_fields(&line);
        assert_eq!(f.is_closed, closed);
        assert_eq!(f.fill_enabled, fill);
        assert_eq!(f.fill_color, fc);
        assert_eq!(f.stroke_color, sc);
        assert_eq!(f.control_points.as_deref(), Some(t.control_points.as_str()));
        assert_eq!(f.weights.as_deref(), Some(t.weights.as_str()));
        assert_eq!(f.phis.as_deref(), Some(t.phis.as_str()));
        assert_eq!(f.psis.as_deref(), Some(t.psis.as_str()));
        assert_eq!(f.stroke_width.as_deref(), Some(t.stroke_width.as_str()));
    }
}

#[test]
fn path_fields_defaults_and_fallbacks() {
    let f = read_path_fields(r##"<polyline fill="#102030" stroke="#0a0B0c" stroke-width="3" points="1,2 3,4" data-ppw="true" />"##);
    assert!(!f.is_closed);
    assert!(f.fill_enabled);
    assert_eq!(f.fill_color, [120, 170, 255, 70]);
    assert_eq!(f.stroke_color, [10, 11, 12, 255]);
    assert_eq!(f.control_points.as_deref(), Some("1,2 3,4"));
    assert_eq!(f.weights, None);
    assert_eq!(f.stroke_width.as_deref(), Some("3"));

    let f = read_path_fields(r##"<polyline fill="none" data-ppw-closed="yes" data-ppw-stroke-color="1,2,3" />"##);
    assert!(!f.is_closed);
    assert!(!f.fill_enabled);
    assert_eq!(f.stroke_color, [0, 0, 0, 255]);
    assert_eq!(f.control_points, None);

    let f = read_path_fields(r##"<polyline data-ppw-fill-enabled="false" fill="#ffffff" />"##);
    assert!(!f.fill_enabled);
}

#[test]
fn stroke_color_fallbacks() {
    assert_eq!(stroke_color_attr(r##"<x data-raster-color="9,8,7,6" stroke="#000000" />"##, "data-raster-color", [0, 0, 0, 180]), [9, 8, 7, 6]);
    assert_eq!(stroke_color_attr(r##"<x stroke="#ff0001" />"##, "data-raster-color", [0, 0, 0, 180]), [255, 0, 1, 255]);
    assert_eq!(stroke_color_attr(r##"<x stroke="red" />"##, "data-raster-color", [0, 0, 0, 180]), [0, 0, 0, 180]);
    assert!(stroke_color_is_readable(r##"<x stroke="#ff0001" />"##, "data-raster-color"));
    assert!(!stroke_color_is_readable("<x stroke=\"#a\u{e9}bcd\" />", "data-raster-color"));
    assert!(stroke_color_is_readable("<x stroke=\"#\u{e9}\u{e9}\u{e9}\" />", "data-raster-color"));
    assert!(stroke_color_is_readable("<x data-raster-color=\"1,2,3,4\" stroke=\"#a\u{e9}bcd\" />", "data-raster-color"));
}

use mohe_ji::svg_data::{image_from_data_uri_attr, rgba_to_png_data_uri};
use mohe_ji::svg_lines::{placed_image_tag, raster_canvas_tag, raster_stroke_tag, read_stroke_fields, ImageNumberTexts, StrokeNumberTexts};
use mohe_ji::svg_reader::SvgLayerReader;
use mohe_ji::text::{attr, unescape_xml};

#[test]
fn stroke_line_format_and_roundtrip() {
    let texts = StrokeNumberTexts { opacity: "0.7059".to_string(), width: "8.0000".to_string(), points: "1.0000,2.0000 3.0000,4.0000".to_string() };
    let line = raster_stroke_tag(1, 2, [255, 128, 0, 180], &texts);
    assert_eq!(
        line,
        "<polyline id=\"raster-1-2\" fill=\"none\" stroke=\"#ff8000\" stroke-opacity=\"0.7059\" stroke-width=\"8.0000\" stroke-linecap=\"round\" stroke-linejoin=\"round\" points=\"1.0000,2.0000 3.0000,4.0000\" data-raster-stroke=\"true\" data-raster-color=\"255,128,0,180\" data-raster-width=\"8.0000\" />"
    );
    assert!(stroke_color_is_readable(&line, "data-raster-color"));
    let f = read_stroke_fields(&line);
    assert_eq!(f.points.as_deref(), Some("1.0000,2.0000 3.0000,4.0000"));
    assert_eq!(f.width.as_deref(), Some("8.0000"));
    assert_eq!(f.color, [255, 128, 0, 180]);
}

#[test]
fn stroke_fields_defaults() {
    let f = read_stroke_fields(r##"<polyline stroke="#010203" stroke-width="3" data-raster-stroke="true" />"##);
    assert_eq!(f.points, None);
    assert_eq!(f.width.as_deref(), Some("3"));
    assert_eq!(f.color, [1, 2, 3, 255]);
    let f = read_stroke_fields(r#"<polyline data-raster-stroke="true" />"#);
    assert_eq!(f.color, [0, 0, 0, 180]);
}

#[test]
fn image_line_format_and_roundtrip() {
    let uri = rgba_to_png_data_uri(&[1, 2, 3, 4], 1, 1).unwrap();
    let texts = ImageNumberTexts { x: "5.0000".to_string(), y: "-6.5000".to_string(), width: "10.0000".to_string(), height: "20.0000".to_string() };
    let line = placed_image_tag(3, 1, &texts, &uri, 42, "a \"b\" & <c>", 1, 1);
    let expected = format!(
        "<image id=\"placed-image-3-1\" x=\"5.0000\" y=\"-6.5000\" width=\"10.0000\" height=\"20.0000\" href=\"{uri}\" xlink:href=\"{uri}\" data-ppw-image=\"true\" data-image-id=\"42\" data-image-name=\"a &quot;b&quot; &amp; &lt;c&gt;\" data-image-original-width=\"1\" data-image-original-height=\"1\" />"
    );
    assert_eq!(line, expected);
    assert_eq!(attr(&line, "x").as_deref(), Some("5.0000"));
    assert_eq!(attr(&line, "height").as_deref(), Some("20.0000"));
    assert_eq!(unescape_xml(&attr(&line, "data-image-name").unwrap()), "a \"b\" & <c>");
    let mut r: SvgLayerReader<(i32, i32), u32> = SvgLayerReader::new();
    r.read_placed_image(&line, image_from_data_uri_attr(&line), (5, -6), (10, 20), 0);
    let doc = r.finish(1, 1, 1).unwrap();
    let img = &doc.layers[0].images[0];
    assert_eq!((img.id, img.name.as_str()), (42, "a \"b\" & <c>"));
    assert_eq!(img.pixels_rgba, vec![1, 2, 3, 4]);
}

#[test]
fn canvas_line_format_and_roundtrip() {
    let uri = rgba_to_png_data_uri(&[9, 9, 9, 9, 8, 8, 8, 8], 2, 1).unwrap();
    let line = raster_canvas_tag(4, 2, 1, &uri);
    assert_eq!(
        line,
        format!("<image id=\"raster-canvas-4\" x=\"0\" y=\"0\" width=\"2\" height=\"1\" href=\"{uri}\" xlink:href=\"{uri}\" data-ppw-raster-canvas=\"true\" data-raster-width=\"2\" data-raster-height=\"1\" />")
    );
    assert_eq!(attr(&line, "href").as_deref(), Some(uri.as_str()));
    assert_eq!(image_from_data_uri_attr(&line), Some((vec![9, 9, 9, 9, 8, 8, 8, 8], 2, 1)));
}

use mohe_ji::document::LayerKind;
use mohe_ji::svg_reader::line_marks;
use mohe_ji::svg_tags::layer_open_tag;

#[test]
fn written_lines_are_read_as_what_they_are() {
    let path = ppw_path_tag(1, 1, true, true, [1, 2, 3, 4], [5, 6, 7, 8], &texts());
    let m = line_marks(&path);
    assert!(m.ppw_path && !m.raster_stroke && !m.placed_image && !m.raster_canvas && !m.opens_layer && !m.closes_layer);

    let stroke_texts = StrokeNumberTexts { opacity: "1.0000".to_string(), width: "2.0000".to_string(), points: "0,0 1,1".to_string() };
    let m = line_marks(&raster_stroke_tag(1, 1, [0, 0, 0, 255], &stroke_texts));
    assert!(m.raster_stroke && !m.ppw_path && !m.placed_image && !m.raster_canvas && !m.opens_layer && !m.closes_layer);

    let uri = rgba_to_png_data_uri(&[1, 2, 3, 4], 1, 1).unwrap();
    let image_texts = ImageNumberTexts { x: "0".to_string(), y: "0".to_string(), width: "1".to_string(), height: "1".to_string() };
    let m = line_marks(&placed_image_tag(1, 1, &image_texts, &uri, 1, "data-ppw=\"true\"", 1, 1));
    assert!(m.placed_image && !m.ppw_path && !m.raster_stroke && !m.raster_canvas && !m.opens_layer);

    let m = line_marks(&raster_canvas_tag(1, 1, 1, &uri));
    assert!(m.raster_canvas && !m.placed_image && !m.ppw_path && !m.raster_stroke && !m.opens_layer);

    let m = line_marks(&layer_open_tag(1, "data-ppw=", LayerKind::Raster, false, true));
    assert!(m.opens_layer && !m.closes_layer && !m.ppw_path && !m.raster_canvas && !m.placed_image && !m.raster_stroke);

    let m = line_marks("</g>");
    assert!(m.closes_layer && !m.opens_layer && !m.ppw_path);
}
