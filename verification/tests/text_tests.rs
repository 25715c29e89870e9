use mohe_ji::text::{
    attr, escape_xml, format_color, hex_color, hex_color_can_slice, numbered_name, parse_color,
    parse_hex_color, svg_attr, unescape_xml, with_suffix,
};

#[test]
fn attr_reads_first_value() {
    let line = r#"<g id="layer-1" data-layer-name="Sky" data-visible="true">"#;
    assert_eq!(attr(line, "data-layer-name"), Some("Sky".to_string()));
    assert_eq!(attr(line, "data-visible"), Some("true".to_string()));
    assert_eq!(attr(line, "id"), Some("layer-1".to_string()));
}

#[test]
fn attr_missing_or_unterminated() {
    assert_eq!(attr(r#"<g id="a">"#, "name"), None);
    assert_eq!(attr(r#"<g name="open"#, "name"), None);
    assert_eq!(attr("", "x"), None);
}

#[test]
fn attr_empty_value() {
    assert_eq!(attr(r#"<p points="" />"#, "points"), Some(String::new()));
}

#[test]
fn svg_attr_reads_root_tag() {
    let text = "<?xml version=\"1.0\"?>\n<svg width=\"600\" height=\"800\">\n<g width=\"1\">";
    assert_eq!(svg_attr(text, "width"), Some("600".to_string()));
    assert_eq!(svg_attr(text, "height"), Some("800".to_string()));
    assert_eq!(svg_attr(text, "depth"), None);
    assert_eq!(svg_attr("<g width=\"3\">", "width"), None);
}

#[test]
fn escape_xml_replaces_specials() {
    assert_eq!(escape_xml(r#"a&b"<c>"#), "a&amp;b&quot;&lt;c&gt;");
    assert_eq!(escape_xml("plain"), "plain");
}

#[test]
fn unescape_xml_restores_specials() {
    assert_eq!(unescape_xml("a&amp;b&quot;&lt;c&gt;"), r#"a&b"<c>"#);
    assert_eq!(unescape_xml("&amp;lt;"), "&lt;");
}

#[test]
fn escape_then_unescape_roundtrip() {
    for s in ["", "Layer 1", "&lt;", "\"quoted\" & <tag>", "&&&;;", "日本語 & co"] {
        assert_eq!(unescape_xml(&escape_xml(s)), s);
        assert!(!escape_xml(s).contains('"'));
    }
}

#[test]
fn numbered_name_appends_decimal() {
    assert_eq!(numbered_name("Vector Layer ", 2), "Vector Layer 2");
    assert_eq!(numbered_name("L", 0), "L0");
    assert_eq!(numbered_name("", 1234567890), "1234567890");
}

#[test]
fn with_suffix_concatenates() {
    assert_eq!(with_suffix("Layer 1", " Copy"), "Layer 1 Copy");
    assert_eq!(with_suffix("", ""), "");
}

#[test]
fn format_color_writes_decimal_channels() {
    assert_eq!(format_color([120, 170, 255, 70]), "120,170,255,70");
    assert_eq!(format_color([0, 0, 0, 255]), "0,0,0,255");
}

#[test]
fn parse_color_reads_four_channels() {
    assert_eq!(parse_color("120,170,255,70"), Some([120, 170, 255, 70]));
    assert_eq!(parse_color(" 1 , 2,3 ,4 "), Some([1, 2, 3, 4]));
    assert_eq!(parse_color("+1,2,3,4"), Some([1, 2, 3, 4]));
}

#[test]
fn parse_color_skips_bad_parts() {
    assert_eq!(parse_color("1,2,3"), None);
    assert_eq!(parse_color("1,2,3,4,5"), None);
    assert_eq!(parse_color("1,x,2,3,4"), Some([1, 2, 3, 4]));
    assert_eq!(parse_color("1,256,2,3"), None);
    assert_eq!(parse_color(""), None);
}

#[test]
fn parse_format_color_roundtrip() {
    for c in [[0u8, 0, 0, 0], [255, 255, 255, 255], [12, 34, 56, 78]] {
        assert_eq!(parse_color(&format_color(c)), Some(c));
    }
}

#[test]
fn parse_hex_color_reads_rgb() {
    assert!(hex_color_can_slice("#ff8000"));
    assert_eq!(parse_hex_color("#ff8000"), Some([255, 128, 0, 255]));
    assert_eq!(parse_hex_color("  #0A0b0C "), Some([10, 11, 12, 255]));
}

#[test]
fn parse_hex_color_rejects() {
    assert_eq!(parse_hex_color("ff8000"), None);
    assert_eq!(parse_hex_color("#ff80"), None);
    assert_eq!(parse_hex_color("#gg0000"), None);
    assert_eq!(parse_hex_color("none"), None);
}

#[test]
fn hex_color_can_slice_detects_panicking_input() {
    assert!(!hex_color_can_slice("#1é234"));
    assert!(hex_color_can_slice("#é1234"));
    assert_eq!(parse_hex_color("#é1234"), None);
    assert!(hex_color_can_slice("#abcdef"));
    assert!(hex_color_can_slice("none"));
}

#[test]
fn hex_color_roundtrip() {
    assert_eq!(hex_color([255, 128, 0, 7]), "#ff8000");
    assert_eq!(parse_hex_color(&hex_color([1, 2, 3, 9])), Some([1, 2, 3, 255]));
}

#[test]
fn png_file_name_defaults_and_suffix() {
    assert_eq!(mohe_ji::text::png_file_name("  "), "canvas_export.png");
    assert_eq!(mohe_ji::text::png_file_name(" art "), "art.png");
    assert_eq!(mohe_ji::text::png_file_name("Art.PNG"), "Art.PNG");
    assert_eq!(mohe_ji::text::png_file_name("a.png.txt"), "a.png.txt.png");
    let once = mohe_ji::text::png_file_name("x.Png ");
    assert_eq!(once, "x.Png");
    assert_eq!(mohe_ji::text::png_file_name(&once), once);
}

#[test]
fn escaped_text_has_no_tag_brackets() {
    let escaped = escape_xml("<layer name=\"a>b\"> & </layer>");
    assert!(!escaped.contains('<'));
    assert!(!escaped.contains('>'));
    assert!(!escaped.contains('"'));
    assert_eq!(unescape_xml(&escaped), "<layer name=\"a>b\"> & </layer>");
}
