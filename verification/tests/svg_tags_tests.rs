use mohe_ji::document::LayerKind;
use mohe_ji::svg_tags::{layer_open_tag, parse_layer_header};

#[test]
fn layer_open_tag_format() {
    assert_eq!(
        layer_open_tag(3, "A&B", LayerKind::Raster, true, false),
        r#"<g id="layer-3" data-layer-name="A&amp;B" data-layer-kind="Raster" data-visible="true" data-locked="false">"#
    );
    assert_eq!(
        layer_open_tag(1, "x", LayerKind::Vector, false, true),
        r#"<g id="layer-1" data-layer-name="x" data-layer-kind="Vector" data-visible="false" data-locked="true" display="none">"#
    );
}

#[test]
fn layer_tag_roundtrip() {
    for (name, kind, visible, locked) in [
        ("Layer 1", LayerKind::Vector, true, false),
        ("\"Sky\" <bg> & co", LayerKind::Raster, false, true),
        ("ends data-visible=", LayerKind::Raster, false, false),
        ("", LayerKind::Vector, true, true),
    ] {
        let tag = layer_open_tag(7, name, kind, visible, locked);
        let h = parse_layer_header(&tag, 0);
        assert_eq!(h.name, name);
        assert_eq!(h.kind, kind);
        assert_eq!(h.visible, visible);
        assert_eq!(h.locked, locked);
    }
}

#[test]
fn layer_tag_name_ending_in_key_is_misread() {
    let tag = layer_open_tag(1, "x data-locked=", LayerKind::Vector, true, true);
    let h = parse_layer_header(&tag, 0);
    assert!(!h.locked);
}

#[test]
fn layer_header_defaults() {
    let h = parse_layer_header("<g>", 2);
    assert_eq!(h.name, "Layer 3");
    assert!(h.visible);
    assert!(!h.locked);
    assert_eq!(h.kind, LayerKind::Vector);
    let hidden = parse_layer_header(r#"<g display="none" data-visible="maybe">"#, 0);
    assert!(!hidden.visible);
    assert_eq!(hidden.name, "Layer 1");
}
