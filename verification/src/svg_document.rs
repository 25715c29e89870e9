//! A whole drawing as SVG text: the header, then for each layer its opening
//! tag, its raster canvas and strokes, its placed images and its paths, and the
//! closing tags. The numbers are handed in as text, one per item.

use vstd::prelude::*;
use crate::document::{Document, DocumentView, ImageView, Layer, LayerKind, LayerView, StrokeView};
use crate::path::PathView;
use crate::svg_data::{rgba_to_png_data_uri, spec_rgba_to_png_data_uri};
use crate::svg_lines::{
    placed_image_tag, ppw_path_tag, raster_canvas_tag, raster_stroke_tag, spec_canvas_tag, spec_image_tag,
    spec_path_tag, spec_stroke_tag, ImageNumberTexts, ImageTextsView, NumberTextsView, PathNumberTexts,
    StrokeNumberTexts, StrokeTextsView,
};
use crate::svg_tags::{append, layer_open_tag, spec_layer_open_tag};
use crate::text::string_from_chars;

verus! {

/// The canvas size as it is written in the `<svg>` tag.
pub struct SvgHeaderTexts {
    pub width: String,
    pub height: String,
}

/// The mathematical model of the header texts.
pub struct HeaderTextsView {
    pub width: Seq<char>,
    pub height: Seq<char>,
}

impl View for SvgHeaderTexts {
    type V = HeaderTextsView;

    open spec fn view(&self) -> HeaderTextsView {
        HeaderTextsView { width: self.width@, height: self.height@ }
    }
}

/// The number texts of one layer's items, one per raster stroke, placed image
/// and path, in the layer's order.
pub struct LayerItemTexts {
    pub strokes: Vec<StrokeNumberTexts>,
    pub images: Vec<ImageNumberTexts>,
    pub paths: Vec<PathNumberTexts>,
}

/// The mathematical model of a layer's number texts.
pub struct ItemTextsView {
    pub strokes: Seq<StrokeTextsView>,
    pub images: Seq<ImageTextsView>,
    pub paths: Seq<NumberTextsView>,
}

impl View for LayerItemTexts {
    type V = ItemTextsView;

    open spec fn view(&self) -> ItemTextsView {
        ItemTextsView {
            strokes: self.strokes@.map_values(|t: StrokeNumberTexts| t@),
            images: self.images@.map_values(|t: ImageNumberTexts| t@),
            paths: self.paths@.map_values(|t: PathNumberTexts| t@),
        }
    }
}

/// The views of the number texts of all layers.
pub open spec fn item_views(items: Seq<LayerItemTexts>) -> Seq<ItemTextsView> {
    items.map_values(|t: LayerItemTexts| t@)
}

/// Whether there is one text group per layer, and in it one text per stroke,
/// image and path of that layer.
pub open spec fn items_match<P, S>(layers: Seq<LayerView<P, S>>, items: Seq<ItemTextsView>) -> bool {
    &&& items.len() == layers.len()
    &&& forall|i: int|
        0 <= i < layers.len() ==> {
            &&& #[trigger] items[i].strokes.len() == layers[i].raster_strokes.len()
            &&& items[i].images.len() == layers[i].images.len()
            &&& items[i].paths.len() == layers[i].paths.len()
        }
}

/// The lines before the layers: the XML declaration, the `<svg>` tag with the
/// canvas size as width, height and view box, and the description.
pub open spec fn svg_header_text(h: HeaderTextsView) -> Seq<char> {
    "<?xml version=\"1.0\" encoding=\"UTF-8\"?>\n"@
        + "<svg xmlns=\"http://www.w3.org/2000/svg\" xmlns:xlink=\"http://www.w3.org/1999/xlink\" width=\""@
        + h.width + "\" height=\""@ + h.height + "\" viewBox=\"0 0 "@ + h.width + " "@ + h.height + "\">\n"@
        + "  <desc>MoHe-Ji SVG. PPW data, raster layers, and placed images are stored in data-ppw-* attributes.</desc>\n"@
}

/// An item line: four spaces, the tag and a line break.
pub open spec fn item_line(tag: Seq<char>) -> Seq<char> {
    "    "@ + tag + "\n"@
}

/// The lines of the first `k` raster strokes of layer `layer` (numbered from
/// 1); a stroke with fewer than two points is skipped but keeps its number.
pub open spec fn stroke_lines<P, S>(layer: nat, strokes: Seq<StrokeView<P, S>>, texts: Seq<StrokeTextsView>, k: int) -> Seq<char>
    decreases k,
{
    if k <= 0 {
        Seq::empty()
    } else {
        let before = stroke_lines(layer, strokes, texts, k - 1);
        let s = strokes[k - 1];
        if s.points.len() < 2 {
            before
        } else {
            before + item_line(spec_stroke_tag(layer, k as nat, s.color, texts[k - 1]))
        }
    }
}

/// The lines of the first `k` placed images of layer `layer` (numbered from
/// 1); an image whose PNG data URI cannot be made is skipped but keeps its number.
pub open spec fn image_lines<P, S>(layer: nat, images: Seq<ImageView<P, S>>, texts: Seq<ImageTextsView>, k: int) -> Seq<char>
    decreases k,
{
    if k <= 0 {
        Seq::empty()
    } else {
        let before = image_lines(layer, images, texts, k - 1);
        let m = images[k - 1];
        match spec_rgba_to_png_data_uri(m.pixels_rgba, m.width, m.height) {
            None => before,
            Some(uri) => before + item_line(
                spec_image_tag(layer, k as nat, texts[k - 1], uri, m.id, m.name, m.width, m.height),
            ),
        }
    }
}

/// The lines of the first `k` paths of layer `layer` (numbered from 1); a
/// path without control points is skipped but keeps its number.
pub open spec fn path_lines<P, S>(layer: nat, paths: Seq<PathView<P, S>>, texts: Seq<NumberTextsView>, k: int) -> Seq<char>
    decreases k,
{
    if k <= 0 {
        Seq::empty()
    } else {
        let before = path_lines(layer, paths, texts, k - 1);
        let p = paths[k - 1];
        if p.control_points.len() == 0 {
            before
        } else {
            before + item_line(
                spec_path_tag(layer, k as nat, p.is_closed, p.fill_enabled, p.fill_color, p.stroke_color, texts[k - 1]),
            )
        }
    }
}

/// The canvas line of raster layer `layer`, or nothing when its PNG data URI
/// cannot be made.
pub open spec fn canvas_line<P, S>(layer: nat, l: LayerView<P, S>) -> Seq<char> {
    match spec_rgba_to_png_data_uri(l.raster_pixels_rgba, l.raster_width, l.raster_height) {
        None => Seq::empty(),
        Some(uri) => item_line(spec_canvas_tag(layer, l.raster_width, l.raster_height, uri)),
    }
}

/// The lines of a raster layer's own content: its canvas, then its strokes;
/// nothing for a vector layer.
pub open spec fn raster_lines<P, S>(number: nat, l: LayerView<P, S>, t: ItemTextsView) -> Seq<char> {
    if l.kind == LayerKind::Raster {
        canvas_line(number, l) + stroke_lines(number, l.raster_strokes, t.strokes, l.raster_strokes.len() as int)
    } else {
        Seq::empty()
    }
}

/// The text of layer `number`: its opening tag, its raster content, its
/// images, its paths and the closing tag, each on a line of its own.
pub open spec fn layer_text<P, S>(number: nat, l: LayerView<P, S>, t: ItemTextsView) -> Seq<char> {
    "  "@ + spec_layer_open_tag(number, l.name, l.kind, l.visible, l.locked) + "\n"@
        + raster_lines(number, l, t)
        + image_lines(number, l.images, t.images, l.images.len() as int)
        + path_lines(number, l.paths, t.paths, l.paths.len() as int)
        + "  </g>\n"@
}

/// The text of the first `k` layers, numbered from 1.
pub open spec fn layers_text<P, S>(layers: Seq<LayerView<P, S>>, items: Seq<ItemTextsView>, k: int) -> Seq<char>
    decreases k,
{
    if k <= 0 {
        Seq::empty()
    } else {
        layers_text(layers, items, k - 1) + layer_text(k as nat, layers[k - 1], items[k - 1])
    }
}

/// The SVG text of a drawing: the header, every layer, and `</svg>`.
pub open spec fn spec_svg_document<P, S>(d: DocumentView<P, S>, h: HeaderTextsView, items: Seq<ItemTextsView>) -> Seq<char> {
    svg_header_text(h) + layers_text(d.layers, items, d.layers.len() as int) + "</svg>\n"@
}

/// Appends one item line holding `tag`.
fn push_item_line(out: &mut Vec<char>, tag: &str)
    ensures
        final(out)@ == old(out)@ + item_line(tag@),
{
    append(out, "    ");
    append(out, tag);
    append(out, "\n");
    assert(final(out)@ =~= old(out)@ + item_line(tag@));
}

/// Appends the raster content of layer `number`.
fn push_raster_lines<P: Copy, S: Copy>(out: &mut Vec<char>, number: u64, layer: &Layer<P, S>, texts: &LayerItemTexts)
    requires
        texts@.strokes.len() == layer@.raster_strokes.len(),
    ensures
        final(out)@ == old(out)@ + raster_lines(number as nat, layer@, texts@),
{
    if layer.kind != LayerKind::Raster {
        assert(final(out)@ =~= old(out)@ + raster_lines(number as nat, layer@, texts@));
        return;
    }
    let ghost start = out@;
    match rgba_to_png_data_uri(layer.raster_pixels_rgba.as_slice(), layer.raster_width, layer.raster_height) {
        Some(uri) => {
            let tag = raster_canvas_tag(number, layer.raster_width, layer.raster_height, uri.as_str());
            push_item_line(out, tag.as_str());
        },
        None => {},
    }
    assert(out@ =~= start + canvas_line(number as nat, layer@));
    let ghost base = out@;
    let mut k: usize = 0;
    while k < layer.raster_strokes.len()
        invariant
            0 <= k <= layer.raster_strokes@.len(),
            texts@.strokes.len() == layer@.raster_strokes.len(),
            out@ == base + stroke_lines(number as nat, layer@.raster_strokes, texts@.strokes, k as int),
        decreases layer.raster_strokes@.len() - k,
    {
        let stroke = &layer.raster_strokes[k];
        if stroke.points.len() >= 2 {
            let tag = raster_stroke_tag(number, (k + 1) as u64, stroke.color, &texts.strokes[k]);
            push_item_line(out, tag.as_str());
        }
        proof {
            assert(layer@.raster_strokes[k as int] == stroke@);
            assert(texts@.strokes[k as int] == texts.strokes@[k as int]@);
        }
        k = k + 1;
        assert(out@ =~= base + stroke_lines(number as nat, layer@.raster_strokes, texts@.strokes, k as int));
    }
    assert(final(out)@ =~= old(out)@ + raster_lines(number as nat, layer@, texts@));
}

/// Appends the image lines of layer `number`.
fn push_image_lines<P: Copy, S: Copy>(out: &mut Vec<char>, number: u64, layer: &Layer<P, S>, texts: &LayerItemTexts)
    requires
        texts@.images.len() == layer@.images.len(),
    ensures
        final(out)@ == old(out)@ + image_lines(number as nat, layer@.images, texts@.images, layer@.images.len() as int),
{
    let ghost base = out@;
    let mut k: usize = 0;
    while k < layer.images.len()
        invariant
            0 <= k <= layer.images@.len(),
            texts@.images.len() == layer@.images.len(),
            out@ == base + image_lines(number as nat, layer@.images, texts@.images, k as int),
        decreases layer.images@.len() - k,
    {
        let image = &layer.images[k];
        match rgba_to_png_data_uri(image.pixels_rgba.as_slice(), image.width, image.height) {
            Some(uri) => {
                let tag = placed_image_tag(
                    number,
                    (k + 1) as u64,
                    &texts.images[k],
                    uri.as_str(),
                    image.id,
                    image.name.as_str(),
                    image.width,
                    image.height,
                );
                push_item_line(out, tag.as_str());
            },
            None => {},
        }
        proof {
            assert(layer@.images[k as int] == image@);
            assert(texts@.images[k as int] == texts.images@[k as int]@);
        }
        k = k + 1;
        assert(out@ =~= base + image_lines(number as nat, layer@.images, texts@.images, k as int));
    }
}

/// Appends the path lines of layer `number`.
fn push_path_lines<P: Copy, S: Copy>(out: &mut Vec<char>, number: u64, layer: &Layer<P, S>, texts: &LayerItemTexts)
    requires
        texts@.paths.len() == layer@.paths.len(),
    ensures
        final(out)@ == old(out)@ + path_lines(number as nat, layer@.paths, texts@.paths, layer@.paths.len() as int),
{
    let ghost base = out@;
    let mut k: usize = 0;
    while k < layer.paths.len()
        invariant
            0 <= k <= layer.paths@.len(),
            texts@.paths.len() == layer@.paths.len(),
            out@ == base + path_lines(number as nat, layer@.paths, texts@.paths, k as int),
        decreases layer.paths@.len() - k,
    {
        let path = &layer.paths[k];
        if path.control_points.len() > 0 {
            let tag = ppw_path_tag(
                number,
                (k + 1) as u64,
                path.is_closed,
                path.fill_enabled,
                path.fill_color,
                path.stroke_color,
                &texts.paths[k],
            );
            push_item_line(out, tag.as_str());
        }
        proof {
            assert(layer@.paths[k as int] == path@);
            assert(texts@.paths[k as int] == texts.paths@[k as int]@);
        }
        k = k + 1;
        assert(out@ =~= base + path_lines(number as nat, layer@.paths, texts@.paths, k as int));
    }
}

/// Appends the text of layer `number`.
fn push_layer_text<P: Copy, S: Copy>(out: &mut Vec<char>, number: u64, layer: &Layer<P, S>, texts: &LayerItemTexts)
    requires
        texts@.strokes.len() == layer@.raster_strokes.len(),
        texts@.images.len() == layer@.images.len(),
        texts@.paths.len() == layer@.paths.len(),
    ensures
        final(out)@ == old(out)@ + layer_text(number as nat, layer@, texts@),
{
    let open_tag = layer_open_tag(number, layer.name.as_str(), layer.kind, layer.visible, layer.locked);
    append(out, "  ");
    append(out, open_tag.as_str());
    append(out, "\n");
    push_raster_lines(out, number, layer, texts);
    push_image_lines(out, number, layer, texts);
    push_path_lines(out, number, layer, texts);
    append(out, "  </g>\n");
    assert(final(out)@ =~= old(out)@ + layer_text(number as nat, layer@, texts@));
}

/// The SVG text of a drawing (see `spec_svg_document`), given the canvas size
/// and every item's numbers as text.
pub fn svg_document_text<P: Copy, S: Copy>(doc: &Document<P, S>, header: &SvgHeaderTexts, items: &[LayerItemTexts]) -> (r: String)
    requires
        items_match(doc@.layers, item_views(items@)),
    ensures
        r@ == spec_svg_document(doc@, header@, item_views(items@)),
{
    let mut out: Vec<char> = Vec::new();
    append(&mut out, "<?xml version=\"1.0\" encoding=\"UTF-8\"?>\n");
    append(&mut out, "<svg xmlns=\"http://www.w3.org/2000/svg\" xmlns:xlink=\"http://www.w3.org/1999/xlink\" width=\"");
    append(&mut out, header.width.as_str());
    append(&mut out, "\" height=\"");
    append(&mut out, header.height.as_str());
    append(&mut out, "\" viewBox=\"0 0 ");
    append(&mut out, header.width.as_str());
    append(&mut out, " ");
    append(&mut out, header.height.as_str());
    append(&mut out, "\">\n");
    append(
        &mut out,
        "  <desc>MoHe-Ji SVG. PPW data, raster layers, and placed images are stored in data-ppw-* attributes.</desc>\n",
    );
    assert(out@ =~= svg_header_text(header@));
    let ghost base = out@;
    let mut i: usize = 0;
    while i < doc.layers.len()
        invariant
            0 <= i <= doc.layers@.len(),
            items_match(doc@.layers, item_views(items@)),
            out@ == base + layers_text(doc@.layers, item_views(items@), i as int),
        decreases doc.layers@.len() - i,
    {
        let layer = &doc.layers[i];
        let texts = &items[i];
        proof {
            assert(doc@.layers[i as int] == layer@);
            assert(item_views(items@)[i as int] == texts@);
            assert(item_views(items@)[i as int].strokes.len() == doc@.layers[i as int].raster_strokes.len());
        }
        push_layer_text(&mut out, (i + 1) as u64, layer, texts);
        i = i + 1;
        assert(out@ =~= base + layers_text(doc@.layers, item_views(items@), i as int));
    }
    append(&mut out, "</svg>\n");
    assert(out@ =~= spec_svg_document(doc@, header@, item_views(items@)));
    string_from_chars(out.as_slice())
}

} // verus!
