//! Reading a saved drawing back: the lines that `svg_document` writes for each
//! layer, and what the layer reader makes of them line by line.

use vstd::prelude::*;
use crate::document::{ImageView, LayerKind, LayerView, StrokeView};
use crate::path::{spec_rebuilt, PathView, SegmentDefaults};
use crate::svg_data::{base64_char, lemma_base64_chars, png_data_prefix, spec_image_from_data_uri_attr, spec_rgba_to_png_data_uri, uri_plain};
use crate::svg_document::{
    canvas_line, image_lines, item_line, items_match, layer_text, layers_text, path_lines, raster_lines, spec_svg_document,
    stroke_lines, svg_header_text, HeaderTextsView, ItemTextsView,
};
use crate::svg_lines::{
    lemma_canvas_line_marks, lemma_closing_line_marks, lemma_image_line_marks, lemma_image_tag_roundtrip,
    lemma_layer_line_marks, lemma_path_line_marks, lemma_stroke_line_marks, number_text_ok, number_texts_ok,
    spec_canvas_tag, spec_image_tag, spec_path_tag, spec_stroke_tag, ImageTextsView, NumberTextsView, StrokeTextsView,
};
use crate::svg_reader::{
    closed_layers, lemma_reopened_layer, spec_close_layer, spec_finish, spec_line_marks, spec_open_layer,
    spec_read_path, spec_read_placed_image, spec_read_raster_canvas, spec_read_raster_stroke, loaded_layer, ReaderView,
};
use crate::svg_tags::{ends_with, spec_layer_open_tag};
use crate::text::spec_escape_xml;
use crate::document::DocumentView;

verus! {

/// What the loader takes from a line besides its text, as it parses the line's
/// numbers: the path or stroke, and an image's place and size.
pub struct LineValues<P, S> {
    pub path: PathView<P, S>,
    pub stroke: StrokeView<P, S>,
    pub pos: P,
    pub size: P,
}

/// Values for a line whose numbers are not read.
pub open spec fn no_values<P, S>() -> LineValues<P, S> {
    arbitrary()
}

/// The reader after one (trimmed) line, taking the steps its marks call for in
/// the loader's order; images are placed unrotated (`no_rotation`) and paths
/// refitted with `d`.
pub open spec fn spec_read_line<P, S>(
    r: ReaderView<P, S>,
    line: Seq<char>,
    v: LineValues<P, S>,
    d: SegmentDefaults<S>,
    no_rotation: S,
) -> ReaderView<P, S> {
    let m = spec_line_marks(line);
    let r1 = if m.opens_layer { spec_open_layer(r, line) } else { r };
    let r2 = if m.raster_canvas { spec_read_raster_canvas(r1, spec_image_from_data_uri_attr(line)) } else { r1 };
    let r3 = if m.placed_image {
        spec_read_placed_image(r2, line, spec_image_from_data_uri_attr(line), v.pos, v.size, no_rotation)
    } else {
        r2
    };
    let r4 = if m.raster_stroke { spec_read_raster_stroke(r3, v.stroke) } else { r3 };
    let r5 = if m.ppw_path { spec_read_path(r4, v.path, d) } else { r4 };
    if m.closes_layer { spec_close_layer(r5) } else { r5 }
}

/// The reader after the lines `ls`, in order, each with its values.
pub open spec fn read_lines<P, S>(
    r: ReaderView<P, S>,
    ls: Seq<(Seq<char>, LineValues<P, S>)>,
    d: SegmentDefaults<S>,
    no_rotation: S,
) -> ReaderView<P, S>
    decreases ls.len(),
{
    if ls.len() == 0 {
        r
    } else {
        spec_read_line(read_lines(r, ls.drop_last(), d, no_rotation), ls.last().0, ls.last().1, d, no_rotation)
    }
}

/// The stroke lines of the first `k` strokes of layer `layer`, each with the
/// stroke it was written from.
pub open spec fn stroke_reload<P, S>(layer: nat, strokes: Seq<StrokeView<P, S>>, texts: Seq<StrokeTextsView>, k: int) -> Seq<(Seq<char>, LineValues<P, S>)>
    decreases k,
{
    if k <= 0 {
        Seq::empty()
    } else {
        let before = stroke_reload(layer, strokes, texts, k - 1);
        let s = strokes[k - 1];
        if s.points.len() < 2 {
            before
        } else {
            before.push((spec_stroke_tag(layer, k as nat, s.color, texts[k - 1]), LineValues { stroke: s, ..no_values() }))
        }
    }
}

/// The strokes among the first `k` that are written (at least two points).
pub open spec fn kept_strokes<P, S>(strokes: Seq<StrokeView<P, S>>, k: int) -> Seq<StrokeView<P, S>>
    decreases k,
{
    if k <= 0 {
        Seq::empty()
    } else if strokes[k - 1].points.len() < 2 {
        kept_strokes(strokes, k - 1)
    } else {
        kept_strokes(strokes, k - 1).push(strokes[k - 1])
    }
}

/// The image lines of the first `k` images of layer `layer`, each with the
/// place and size it was written from.
pub open spec fn image_reload<P, S>(layer: nat, images: Seq<ImageView<P, S>>, texts: Seq<ImageTextsView>, k: int) -> Seq<(Seq<char>, LineValues<P, S>)>
    decreases k,
{
    if k <= 0 {
        Seq::empty()
    } else {
        let before = image_reload(layer, images, texts, k - 1);
        let m = images[k - 1];
        match spec_rgba_to_png_data_uri(m.pixels_rgba, m.width, m.height) {
            None => before,
            Some(uri) => before.push(
                (
                    spec_image_tag(layer, k as nat, texts[k - 1], uri, m.id, m.name, m.width, m.height),
                    LineValues { pos: m.pos, size: m.size, ..no_values() },
                ),
            ),
        }
    }
}

/// The images read back from the first `k` image lines of layer `layer`: an
/// image whose line was written and whose data URI decodes comes back with its
/// id, name, place and size, the decoded pixels, and no rotation.
pub open spec fn reloaded_images<P, S>(layer: nat, images: Seq<ImageView<P, S>>, texts: Seq<ImageTextsView>, k: int, no_rotation: S) -> Seq<ImageView<P, S>>
    decreases k,
{
    if k <= 0 {
        Seq::empty()
    } else {
        let before = reloaded_images(layer, images, texts, k - 1, no_rotation);
        let m = images[k - 1];
        match spec_rgba_to_png_data_uri(m.pixels_rgba, m.width, m.height) {
            None => before,
            Some(uri) => match spec_image_from_data_uri_attr(
                spec_image_tag(layer, k as nat, texts[k - 1], uri, m.id, m.name, m.width, m.height),
            ) {
                None => before,
                Some(c) => before.push(
                    ImageView {
                        id: m.id,
                        name: m.name,
                        pixels_rgba: c.0,
                        width: c.1,
                        height: c.2,
                        pos: m.pos,
                        size: m.size,
                        rotation: no_rotation,
                    },
                ),
            },
        }
    }
}

/// The path lines of the first `k` paths of layer `layer`, each with the path
/// it was written from.
pub open spec fn path_reload<P, S>(layer: nat, paths: Seq<PathView<P, S>>, texts: Seq<NumberTextsView>, k: int) -> Seq<(Seq<char>, LineValues<P, S>)>
    decreases k,
{
    if k <= 0 {
        Seq::empty()
    } else {
        let before = path_reload(layer, paths, texts, k - 1);
        let p = paths[k - 1];
        if p.control_points.len() == 0 {
            before
        } else {
            before.push(
                (
                    spec_path_tag(layer, k as nat, p.is_closed, p.fill_enabled, p.fill_color, p.stroke_color, texts[k - 1]),
                    LineValues { path: p, ..no_values() },
                ),
            )
        }
    }
}

/// The paths read back from the first `k` path lines: each written path (one
/// with control points), refitted with `d`.
pub open spec fn reloaded_paths<P, S>(paths: Seq<PathView<P, S>>, k: int, d: SegmentDefaults<S>) -> Seq<PathView<P, S>>
    decreases k,
{
    if k <= 0 {
        Seq::empty()
    } else if paths[k - 1].control_points.len() == 0 {
        reloaded_paths(paths, k - 1, d)
    } else {
        reloaded_paths(paths, k - 1, d).push(spec_rebuilt(paths[k - 1], d))
    }
}

/// The canvas line of raster layer `layer`, if one is written.
pub open spec fn canvas_reload<P, S>(layer: nat, l: LayerView<P, S>) -> Seq<(Seq<char>, LineValues<P, S>)> {
    match spec_rgba_to_png_data_uri(l.raster_pixels_rgba, l.raster_width, l.raster_height) {
        None => Seq::empty(),
        Some(uri) => seq![(spec_canvas_tag(layer, l.raster_width, l.raster_height, uri), no_values())],
    }
}

/// The canvas read back from raster layer `layer`'s canvas line, if one is
/// written and its data URI decodes.
pub open spec fn reloaded_canvas<P, S>(layer: nat, l: LayerView<P, S>) -> Option<(Seq<u8>, u32, u32)> {
    match spec_rgba_to_png_data_uri(l.raster_pixels_rgba, l.raster_width, l.raster_height) {
        None => None,
        Some(uri) => spec_image_from_data_uri_attr(spec_canvas_tag(layer, l.raster_width, l.raster_height, uri)),
    }
}

/// The trimmed lines of layer `number` as `svg_document` writes them, each with
/// the values its numbers were written from: the opening tag, the canvas and
/// strokes of a raster layer, the images, the paths, and `</g>`.
pub open spec fn layer_reload<P, S>(number: nat, l: LayerView<P, S>, t: ItemTextsView) -> Seq<(Seq<char>, LineValues<P, S>)> {
    let raster = if l.kind == LayerKind::Raster {
        canvas_reload(number, l) + stroke_reload(number, l.raster_strokes, t.strokes, l.raster_strokes.len() as int)
    } else {
        Seq::empty()
    };
    seq![(spec_layer_open_tag(number, l.name, l.kind, l.visible, l.locked), no_values())] + raster
        + image_reload(number, l.images, t.images, l.images.len() as int)
        + path_reload(number, l.paths, t.paths, l.paths.len() as int)
        + seq![("</g>"@, no_values())]
}

/// The layer read back from layer `number`'s lines when the loader parses
/// every number as the value it was written from: the same name, visibility,
/// lock and kind; the written paths refitted with `d`; for a raster layer, the
/// written strokes and the decoded canvas (none if its line was not written or
/// does not decode); and the written images whose data decodes.
pub open spec fn reloaded_layer<P, S>(number: nat, l: LayerView<P, S>, t: ItemTextsView, d: SegmentDefaults<S>, no_rotation: S) -> LayerView<P, S> {
    let raster = l.kind == LayerKind::Raster;
    let canvas = if raster { reloaded_canvas(number, l) } else { None };
    LayerView {
        name: l.name,
        visible: l.visible,
        locked: l.locked,
        kind: l.kind,
        paths: reloaded_paths(l.paths, l.paths.len() as int, d),
        raster_strokes: if raster { kept_strokes(l.raster_strokes, l.raster_strokes.len() as int) } else { Seq::empty() },
        raster_pixels_rgba: match canvas { Some(c) => c.0, None => Seq::empty() },
        raster_width: match canvas { Some(c) => c.1, None => 0 },
        raster_height: match canvas { Some(c) => c.2, None => 0 },
        images: reloaded_images(number, l.images, t.images, l.images.len() as int, no_rotation),
    }
}

/// Whether a layer's lines read back as written: its name is not one of the
/// two the layer tag cannot hold (see `lemma_layer_tag_roundtrip`), its colors
/// have four channels, and every number text of a written item holds no `"`
/// and does not end with `=`.
pub open spec fn reloadable<P, S>(l: LayerView<P, S>, t: ItemTextsView) -> bool {
    &&& !(l.kind == LayerKind::Raster && ends_with(spec_escape_xml(l.name), "data-layer-kind="@))
    &&& !(l.locked && ends_with(spec_escape_xml(l.name), "data-locked="@))
    &&& t.strokes.len() == l.raster_strokes.len()
    &&& t.images.len() == l.images.len()
    &&& t.paths.len() == l.paths.len()
    &&& forall|i: int|
        0 <= i < l.raster_strokes.len() ==> {
            &&& (#[trigger] l.raster_strokes[i]).color.len() == 4
            &&& number_text_ok(t.strokes[i].opacity)
            &&& number_text_ok(t.strokes[i].width)
            &&& number_text_ok(t.strokes[i].points)
        }
    &&& forall|i: int|
        0 <= i < l.images.len() ==> {
            &&& number_text_ok((#[trigger] t.images[i]).x)
            &&& number_text_ok(t.images[i].y)
            &&& number_text_ok(t.images[i].width)
            &&& number_text_ok(t.images[i].height)
        }
    &&& forall|i: int|
        0 <= i < l.paths.len() ==> {
            &&& (#[trigger] l.paths[i]).fill_color.len() == 4
            &&& l.paths[i].stroke_color.len() == 4
            &&& number_texts_ok(t.paths[i])
        }
}

/// Reading lines `a` and then `b` is reading `a + b`.
pub proof fn lemma_read_lines_append<P, S>(
    r: ReaderView<P, S>,
    a: Seq<(Seq<char>, LineValues<P, S>)>,
    b: Seq<(Seq<char>, LineValues<P, S>)>,
    d: SegmentDefaults<S>,
    z: S,
)
    ensures
        read_lines(r, a + b, d, z) == read_lines(read_lines(r, a, d, z), b, d, z),
    decreases b.len(),
{
    if b.len() == 0 {
        assert(a + b =~= a);
    } else {
        lemma_read_lines_append(r, a, b.drop_last(), d, z);
        assert((a + b).drop_last() =~= a + b.drop_last());
        assert((a + b).last() == b.last());
    }
}

/// A data URI made by `rgba_to_png_data_uri` can stand in a saved line.
proof fn lemma_data_uri_plain(pixels: Seq<u8>, width: u32, height: u32)
    ensures
        spec_rgba_to_png_data_uri(pixels, width, height) matches Some(uri) ==> uri_plain(uri),
{
    if let Some(uri) = spec_rgba_to_png_data_uri(pixels, width, height) {
        let png = choose|png: Seq<u8>| crate::svg_data::png_rgba8_encoding(pixels, width, height) == Some(png);
        assert(crate::svg_data::png_rgba8_encoding(pixels, width, height) == Some(png));
        lemma_base64_chars(png);
        let enc = crate::svg_data::base64_standard_encoding(png);
        assert(uri == png_data_prefix() + enc);
        assert forall|i: int| 0 <= i < uri.len() implies uri[i] != '"' && uri[i] != '-' by {
            if i >= 22 {
                assert(uri[i] == enc[i - 22]);
                assert(base64_char(enc[i - 22]));
            }
        }
    }
}

/// Reading the stroke lines appends the written strokes to the open raster layer.
proof fn lemma_read_strokes<P, S>(
    r: ReaderView<P, S>,
    layer: nat,
    strokes: Seq<StrokeView<P, S>>,
    texts: Seq<StrokeTextsView>,
    k: int,
    d: SegmentDefaults<S>,
    z: S,
)
    requires
        r.current matches Some(l) && l.kind == LayerKind::Raster,
        0 <= k <= strokes.len(),
        texts.len() == strokes.len(),
        forall|i: int|
            0 <= i < strokes.len() ==> {
                &&& (#[trigger] strokes[i]).color.len() == 4
                &&& number_text_ok(texts[i].opacity)
                &&& number_text_ok(texts[i].width)
                &&& number_text_ok(texts[i].points)
            },
    ensures
        read_lines(r, stroke_reload(layer, strokes, texts, k), d, z) == (ReaderView {
            current: Some(LayerView {
                raster_strokes: r.current.unwrap().raster_strokes + kept_strokes(strokes, k),
                ..r.current.unwrap()
            }),
            ..r
        }),
    decreases k,
{
    let l = r.current.unwrap();
    if k == 0 {
        assert(l.raster_strokes + kept_strokes(strokes, 0) =~= l.raster_strokes);
    } else {
        lemma_read_strokes(r, layer, strokes, texts, k - 1, d, z);
        let s = strokes[k - 1];
        if s.points.len() >= 2 {
            let line = spec_stroke_tag(layer, k as nat, s.color, texts[k - 1]);
            lemma_stroke_line_marks(layer, k as nat, s.color, texts[k - 1]);
            let ls = stroke_reload(layer, strokes, texts, k);
            assert(ls.drop_last() == stroke_reload(layer, strokes, texts, k - 1));
            assert(l.raster_strokes + kept_strokes(strokes, k) =~= (l.raster_strokes + kept_strokes(strokes, k - 1)).push(s));
        }
    }
}

/// Reading the image lines appends the written images whose data decodes to
/// the open layer, and leaves the closed layers alone.
proof fn lemma_read_images<P, S>(
    r: ReaderView<P, S>,
    layer: nat,
    images: Seq<ImageView<P, S>>,
    texts: Seq<ImageTextsView>,
    k: int,
    d: SegmentDefaults<S>,
    z: S,
)
    requires
        r.current is Some,
        0 <= k <= images.len(),
        texts.len() == images.len(),
        forall|i: int|
            0 <= i < images.len() ==> {
                &&& number_text_ok((#[trigger] texts[i]).x)
                &&& number_text_ok(texts[i].y)
                &&& number_text_ok(texts[i].width)
                &&& number_text_ok(texts[i].height)
            },
    ensures
        read_lines(r, image_reload(layer, images, texts, k), d, z).layers == r.layers,
        read_lines(r, image_reload(layer, images, texts, k), d, z).current == Some(LayerView {
            images: r.current.unwrap().images + reloaded_images(layer, images, texts, k, z),
            ..r.current.unwrap()
        }),
    decreases k,
{
    let l = r.current.unwrap();
    if k == 0 {
        assert(l.images + reloaded_images(layer, images, texts, 0, z) =~= l.images);
    } else {
        lemma_read_images(r, layer, images, texts, k - 1, d, z);
        let m = images[k - 1];
        let before = read_lines(r, image_reload(layer, images, texts, k - 1), d, z);
        if let Some(uri) = spec_rgba_to_png_data_uri(m.pixels_rgba, m.width, m.height) {
            lemma_data_uri_plain(m.pixels_rgba, m.width, m.height);
            let line = spec_image_tag(layer, k as nat, texts[k - 1], uri, m.id, m.name, m.width, m.height);
            lemma_image_line_marks(layer, k as nat, texts[k - 1], uri, m.id, m.name, m.width, m.height);
            lemma_image_tag_roundtrip(layer, k as nat, texts[k - 1], uri, m.id, m.name, m.width, m.height, before.max_image_id);
            let ls = image_reload(layer, images, texts, k);
            assert(ls.drop_last() == image_reload(layer, images, texts, k - 1));
            match spec_image_from_data_uri_attr(line) {
                None => {},
                Some(c) => {
                    assert(l.images + reloaded_images(layer, images, texts, k, z) =~= (l.images + reloaded_images(
                        layer,
                        images,
                        texts,
                        k - 1,
                        z,
                    )).push(ImageView {
                        id: m.id,
                        name: m.name,
                        pixels_rgba: c.0,
                        width: c.1,
                        height: c.2,
                        pos: m.pos,
                        size: m.size,
                        rotation: z,
                    }));
                },
            }
        }
    }
}

/// Reading the path lines appends the written paths, refitted, to the open layer.
proof fn lemma_read_paths<P, S>(
    r: ReaderView<P, S>,
    layer: nat,
    paths: Seq<PathView<P, S>>,
    texts: Seq<NumberTextsView>,
    k: int,
    d: SegmentDefaults<S>,
    z: S,
)
    requires
        r.current is Some,
        0 <= k <= paths.len(),
        texts.len() == paths.len(),
        forall|i: int|
            0 <= i < paths.len() ==> {
                &&& (#[trigger] paths[i]).fill_color.len() == 4
                &&& paths[i].stroke_color.len() == 4
                &&& number_texts_ok(texts[i])
            },
    ensures
        read_lines(r, path_reload(layer, paths, texts, k), d, z) == (ReaderView {
            current: Some(LayerView {
                paths: r.current.unwrap().paths + reloaded_paths(paths, k, d),
                ..r.current.unwrap()
            }),
            ..r
        }),
    decreases k,
{
    let l = r.current.unwrap();
    if k == 0 {
        assert(l.paths + reloaded_paths(paths, 0, d) =~= l.paths);
    } else {
        lemma_read_paths(r, layer, paths, texts, k - 1, d, z);
        let p = paths[k - 1];
        if p.control_points.len() > 0 {
            lemma_path_line_marks(layer, k as nat, p.is_closed, p.fill_enabled, p.fill_color, p.stroke_color, texts[k - 1]);
            let ls = path_reload(layer, paths, texts, k);
            assert(ls.drop_last() == path_reload(layer, paths, texts, k - 1));
            assert(l.paths + reloaded_paths(paths, k, d) =~= (l.paths + reloaded_paths(paths, k - 1, d)).push(
                spec_rebuilt(p, d),
            ));
        }
    }
}

/// Reading the lines of a written layer, with no layer open, closes exactly
/// the layer that was written (see `reloaded_layer`) after the layers read before.
#[verifier::spinoff_prover]
#[verifier::rlimit(40)]
pub proof fn lemma_layer_read_back<P, S>(
    r: ReaderView<P, S>,
    number: nat,
    l: LayerView<P, S>,
    t: ItemTextsView,
    d: SegmentDefaults<S>,
    z: S,
)
    requires
        r.current is None,
        reloadable(l, t),
    ensures
        read_lines(r, layer_reload(number, l, t), d, z).layers == r.layers.push(reloaded_layer(number, l, t, d, z)),
        read_lines(r, layer_reload(number, l, t), d, z).current is None,
{
    let open = seq![(spec_layer_open_tag(number, l.name, l.kind, l.visible, l.locked), no_values::<P, S>())];
    let raster = if l.kind == LayerKind::Raster {
        canvas_reload(number, l) + stroke_reload(number, l.raster_strokes, t.strokes, l.raster_strokes.len() as int)
    } else {
        Seq::empty()
    };
    let imgs = image_reload(number, l.images, t.images, l.images.len() as int);
    let pths = path_reload(number, l.paths, t.paths, l.paths.len() as int);
    let close = seq![("</g>"@, no_values::<P, S>())];
    assert(layer_reload(number, l, t) == open + raster + imgs + pths + close);
    lemma_read_lines_append(r, open + raster + imgs + pths, close, d, z);
    lemma_read_lines_append(r, open + raster + imgs, pths, d, z);
    lemma_read_lines_append(r, open + raster, imgs, d, z);
    lemma_read_lines_append(r, open, raster, d, z);
    // The opening tag opens a fresh layer with the written header.
    lemma_layer_line_marks(number, l.name, l.kind, l.visible, l.locked);
    lemma_reopened_layer(r, number, l.name, l.kind, l.visible, l.locked);
    assert(open.drop_last() =~= Seq::<(Seq<char>, LineValues<P, S>)>::empty());
    assert(read_lines(r, open.drop_last(), d, z) == r);
    let r1 = read_lines(r, open, d, z);
    assert(r1 == spec_read_line(r, open[0].0, open[0].1, d, z));
    assert(closed_layers(r) == r.layers);
    assert(r1.layers == r.layers);
    let h = r1.current.unwrap();
    // The raster content.
    let r2 = read_lines(r1, raster, d, z);
    if l.kind == LayerKind::Raster {
        let cv = canvas_reload(number, l);
        let sk = stroke_reload(number, l.raster_strokes, t.strokes, l.raster_strokes.len() as int);
        lemma_read_lines_append(r1, cv, sk, d, z);
        let rc = read_lines(r1, cv, d, z);
        match spec_rgba_to_png_data_uri(l.raster_pixels_rgba, l.raster_width, l.raster_height) {
            None => {
                assert(rc == r1);
            },
            Some(uri) => {
                lemma_data_uri_plain(l.raster_pixels_rgba, l.raster_width, l.raster_height);
                lemma_canvas_line_marks(number, l.raster_width, l.raster_height, uri);
                assert(cv.drop_last() =~= Seq::<(Seq<char>, LineValues<P, S>)>::empty());
                assert(read_lines(r1, cv.drop_last(), d, z) == r1);
                assert(rc == spec_read_line(r1, cv[0].0, cv[0].1, d, z));
            },
        }
        assert(rc.current matches Some(c) && c.kind == LayerKind::Raster);
        lemma_read_strokes(rc, number, l.raster_strokes, t.strokes, l.raster_strokes.len() as int, d, z);
    } else {
        assert(raster.len() == 0);
        assert(r2 == r1);
    }
    assert(r2.current is Some);
    // The images, then the paths.
    lemma_read_images(r2, number, l.images, t.images, l.images.len() as int, d, z);
    let r3 = read_lines(r2, imgs, d, z);
    lemma_read_paths(r3, number, l.paths, t.paths, l.paths.len() as int, d, z);
    let r4 = read_lines(r3, pths, d, z);
    // The closing line closes the layer.
    lemma_closing_line_marks();
    assert(close.drop_last() =~= Seq::<(Seq<char>, LineValues<P, S>)>::empty());
    assert(read_lines(r4, close.drop_last(), d, z) == r4);
    assert(read_lines(r4, close, d, z) == spec_read_line(r4, close[0].0, close[0].1, d, z));
    assert(r2.layers == r.layers);
    assert(r3.layers == r.layers);
    assert(r4.layers == r.layers);
    let c = r4.current.unwrap();
    assert(h.paths =~= Seq::<PathView<P, S>>::empty());
    assert(h.images =~= Seq::<ImageView<P, S>>::empty());
    assert(h.raster_strokes =~= Seq::<StrokeView<P, S>>::empty());
    assert(c.paths =~= reloaded_paths(l.paths, l.paths.len() as int, d));
    assert(c.images =~= reloaded_images(number, l.images, t.images, l.images.len() as int, z));
    assert(c.raster_strokes =~= reloaded_layer(number, l, t, d, z).raster_strokes);
    assert(c == reloaded_layer(number, l, t, d, z));
}

/// The trimmed lines of the first `k` layers, each with its values.
pub open spec fn document_reload<P, S>(layers: Seq<LayerView<P, S>>, items: Seq<ItemTextsView>, k: int) -> Seq<(Seq<char>, LineValues<P, S>)>
    decreases k,
{
    if k <= 0 {
        Seq::empty()
    } else {
        document_reload(layers, items, k - 1) + layer_reload(k as nat, layers[k - 1], items[k - 1])
    }
}

/// The layers read back from the first `k` written layers.
pub open spec fn reloaded_layers<P, S>(layers: Seq<LayerView<P, S>>, items: Seq<ItemTextsView>, k: int, d: SegmentDefaults<S>, z: S) -> Seq<LayerView<P, S>> {
    Seq::new(k as nat, |i: int| reloaded_layer((i + 1) as nat, layers[i], items[i], d, z))
}

/// A reader that has read nothing.
pub open spec fn empty_reader<P, S>() -> ReaderView<P, S> {
    ReaderView { layers: Seq::empty(), current: None, max_image_id: 0 }
}

/// Reading back, line by line, the layers of a drawing saved by
/// `svg_document_text` gives back each layer as `reloaded_layer` says (same
/// header, the written items in order, paths refitted, images unrotated), when
/// the loader parses every number as the value it was written from; finishing
/// then makes a document of those layers, the first one active, at the canvas
/// size read from the header.
pub proof fn lemma_document_read_back<P, S>(
    doc: DocumentView<P, S>,
    items: Seq<ItemTextsView>,
    d: SegmentDefaults<S>,
    z: S,
    canvas_width: S,
    canvas_height: S,
    stroke_width: S,
)
    requires
        items_match(doc.layers, items),
        forall|i: int| 0 <= i < doc.layers.len() ==> reloadable(#[trigger] doc.layers[i], items[i]),
    ensures
        ({
            let n = doc.layers.len() as int;
            let r = read_lines(empty_reader(), document_reload(doc.layers, items, n), d, z);
            &&& r.layers == reloaded_layers(doc.layers, items, n, d, z)
            &&& r.current is None
            &&& n > 0 ==> (spec_finish(r, canvas_width, canvas_height, stroke_width) matches Some(loaded) && {
                &&& loaded.layers == reloaded_layers(doc.layers, items, n, d, z).map_values(
                    |l: LayerView<P, S>| loaded_layer(l, stroke_width),
                )
                &&& loaded.active_layer == 0
                &&& loaded.canvas_width == canvas_width
                &&& loaded.canvas_height == canvas_height
            })
        }),
{
    lemma_layers_read_back(doc.layers, items, doc.layers.len() as int, d, z);
}

/// The first `k` layers read back (see `lemma_document_read_back`).
proof fn lemma_layers_read_back<P, S>(layers: Seq<LayerView<P, S>>, items: Seq<ItemTextsView>, k: int, d: SegmentDefaults<S>, z: S)
    requires
        0 <= k <= layers.len(),
        items.len() == layers.len(),
        forall|i: int| 0 <= i < layers.len() ==> reloadable(#[trigger] layers[i], items[i]),
    ensures
        read_lines(empty_reader(), document_reload(layers, items, k), d, z).layers == reloaded_layers(layers, items, k, d, z),
        read_lines(empty_reader(), document_reload(layers, items, k), d, z).current is None,
    decreases k,
{
    if k == 0 {
        assert(reloaded_layers(layers, items, 0, d, z) =~= Seq::<LayerView<P, S>>::empty());
    } else {
        lemma_layers_read_back(layers, items, k - 1, d, z);
        let before = document_reload(layers, items, k - 1);
        let lr = layer_reload(k as nat, layers[k - 1], items[k - 1]);
        lemma_read_lines_append(empty_reader(), before, lr, d, z);
        assert(reloadable(layers[k - 1], items[k - 1]));
        lemma_layer_read_back(read_lines(empty_reader(), before, d, z), k as nat, layers[k - 1], items[k - 1], d, z);
        assert(reloaded_layers(layers, items, k, d, z) =~= reloaded_layers(layers, items, k - 1, d, z).push(
            reloaded_layer(k as nat, layers[k - 1], items[k - 1], d, z),
        ));
    }
}

/// The indentation a saved line is written with: two spaces for the tags
/// that open and close a layer, four for the items inside.
pub open spec fn indent_of(line: Seq<char>) -> Seq<char> {
    if spec_line_marks(line).opens_layer || spec_line_marks(line).closes_layer {
        "  "@
    } else {
        "    "@
    }
}

/// The text of lines `ls`: each indented, on a line of its own.
pub open spec fn saved_text<P, S>(ls: Seq<(Seq<char>, LineValues<P, S>)>) -> Seq<char>
    decreases ls.len(),
{
    if ls.len() == 0 {
        Seq::empty()
    } else {
        saved_text(ls.drop_last()) + indent_of(ls.last().0) + ls.last().0 + "\n"@
    }
}

/// The text of `a + b` is the text of `a` and then of `b`.
proof fn lemma_saved_text_append<P, S>(a: Seq<(Seq<char>, LineValues<P, S>)>, b: Seq<(Seq<char>, LineValues<P, S>)>)
    ensures
        saved_text(a + b) == saved_text(a) + saved_text(b),
    decreases b.len(),
{
    if b.len() == 0 {
        assert(a + b =~= a);
        assert(saved_text(a) + saved_text(b) =~= saved_text(a));
    } else {
        lemma_saved_text_append(a, b.drop_last());
        assert((a + b).drop_last() =~= a + b.drop_last());
        let x = b.last();
        assert(saved_text(a + b) =~= saved_text(a) + saved_text(b.drop_last()) + indent_of(x.0) + x.0 + "\n"@);
    }
}

/// An item line's text is the indented item.
proof fn lemma_item_text<P, S>(ls: Seq<(Seq<char>, LineValues<P, S>)>, line: Seq<char>, v: LineValues<P, S>)
    requires
        !spec_line_marks(line).opens_layer,
        !spec_line_marks(line).closes_layer,
    ensures
        saved_text(ls.push((line, v))) == saved_text(ls) + item_line(line),
{
    assert(ls.push((line, v)).drop_last() =~= ls);
    assert(saved_text(ls.push((line, v))) =~= saved_text(ls) + item_line(line));
}

proof fn lemma_stroke_text<P, S>(layer: nat, strokes: Seq<StrokeView<P, S>>, texts: Seq<StrokeTextsView>, k: int)
    requires
        0 <= k <= strokes.len(),
        texts.len() == strokes.len(),
        forall|i: int|
            0 <= i < strokes.len() ==> {
                &&& (#[trigger] strokes[i]).color.len() == 4
                &&& number_text_ok(texts[i].opacity)
                &&& number_text_ok(texts[i].width)
                &&& number_text_ok(texts[i].points)
            },
    ensures
        saved_text(stroke_reload(layer, strokes, texts, k)) == stroke_lines(layer, strokes, texts, k),
    decreases k,
{
    if k > 0 {
        lemma_stroke_text(layer, strokes, texts, k - 1);
        let s = strokes[k - 1];
        if s.points.len() >= 2 {
            lemma_stroke_line_marks(layer, k as nat, s.color, texts[k - 1]);
            lemma_item_text(
                stroke_reload(layer, strokes, texts, k - 1),
                spec_stroke_tag(layer, k as nat, s.color, texts[k - 1]),
                LineValues { stroke: s, ..no_values() },
            );
        }
    }
}

proof fn lemma_image_text<P, S>(layer: nat, images: Seq<ImageView<P, S>>, texts: Seq<ImageTextsView>, k: int)
    requires
        0 <= k <= images.len(),
        texts.len() == images.len(),
        forall|i: int|
            0 <= i < images.len() ==> {
                &&& number_text_ok((#[trigger] texts[i]).x)
                &&& number_text_ok(texts[i].y)
                &&& number_text_ok(texts[i].width)
                &&& number_text_ok(texts[i].height)
            },
    ensures
        saved_text(image_reload(layer, images, texts, k)) == image_lines(layer, images, texts, k),
    decreases k,
{
    if k > 0 {
        lemma_image_text(layer, images, texts, k - 1);
        let m = images[k - 1];
        if let Some(uri) = spec_rgba_to_png_data_uri(m.pixels_rgba, m.width, m.height) {
            lemma_data_uri_plain(m.pixels_rgba, m.width, m.height);
            lemma_image_line_marks(layer, k as nat, texts[k - 1], uri, m.id, m.name, m.width, m.height);
            lemma_item_text(
                image_reload(layer, images, texts, k - 1),
                spec_image_tag(layer, k as nat, texts[k - 1], uri, m.id, m.name, m.width, m.height),
                LineValues { pos: m.pos, size: m.size, ..no_values() },
            );
        }
    }
}

proof fn lemma_path_text<P, S>(layer: nat, paths: Seq<PathView<P, S>>, texts: Seq<NumberTextsView>, k: int)
    requires
        0 <= k <= paths.len(),
        texts.len() == paths.len(),
        forall|i: int|
            0 <= i < paths.len() ==> {
                &&& (#[trigger] paths[i]).fill_color.len() == 4
                &&& paths[i].stroke_color.len() == 4
                &&& number_texts_ok(texts[i])
            },
    ensures
        saved_text(path_reload(layer, paths, texts, k)) == path_lines(layer, paths, texts, k),
    decreases k,
{
    if k > 0 {
        lemma_path_text(layer, paths, texts, k - 1);
        let p = paths[k - 1];
        if p.control_points.len() > 0 {
            lemma_path_line_marks(layer, k as nat, p.is_closed, p.fill_enabled, p.fill_color, p.stroke_color, texts[k - 1]);
            lemma_item_text(
                path_reload(layer, paths, texts, k - 1),
                spec_path_tag(layer, k as nat, p.is_closed, p.fill_enabled, p.fill_color, p.stroke_color, texts[k - 1]),
                LineValues { path: p, ..no_values() },
            );
        }
    }
}

/// A layer's saved text is its lines, indented.
proof fn lemma_layer_text<P, S>(number: nat, l: LayerView<P, S>, t: ItemTextsView)
    requires
        reloadable(l, t),
    ensures
        saved_text(layer_reload(number, l, t)) == layer_text(number, l, t),
{
    let open_line = spec_layer_open_tag(number, l.name, l.kind, l.visible, l.locked);
    let open = seq![(open_line, no_values::<P, S>())];
    let raster = if l.kind == LayerKind::Raster {
        canvas_reload(number, l) + stroke_reload(number, l.raster_strokes, t.strokes, l.raster_strokes.len() as int)
    } else {
        Seq::empty()
    };
    let imgs = image_reload(number, l.images, t.images, l.images.len() as int);
    let pths = path_reload(number, l.paths, t.paths, l.paths.len() as int);
    let close = seq![("</g>"@, no_values::<P, S>())];
    assert(layer_reload(number, l, t) == open + raster + imgs + pths + close);
    lemma_saved_text_append(open + raster + imgs + pths, close);
    lemma_saved_text_append(open + raster + imgs, pths);
    lemma_saved_text_append(open + raster, imgs);
    lemma_saved_text_append(open, raster);
    lemma_layer_line_marks(number, l.name, l.kind, l.visible, l.locked);
    assert(open.drop_last() =~= Seq::<(Seq<char>, LineValues<P, S>)>::empty());
    assert(saved_text(open.drop_last()) == Seq::<char>::empty());
    assert(open.last().0 == open_line);
    assert(indent_of(open_line) == "  "@);
    assert(saved_text(open) =~= "  "@ + open_line + "\n"@);
    lemma_closing_line_marks();
    assert(close.drop_last() =~= Seq::<(Seq<char>, LineValues<P, S>)>::empty());
    assert(saved_text(close) =~= "  </g>\n"@) by {
        reveal_strlit("  ");
        reveal_strlit("</g>");
        reveal_strlit("\n");
        reveal_strlit("  </g>\n");
    }
    if l.kind == LayerKind::Raster {
        let cv = canvas_reload(number, l);
        let sk = stroke_reload(number, l.raster_strokes, t.strokes, l.raster_strokes.len() as int);
        lemma_saved_text_append(cv, sk);
        lemma_stroke_text(number, l.raster_strokes, t.strokes, l.raster_strokes.len() as int);
        match spec_rgba_to_png_data_uri(l.raster_pixels_rgba, l.raster_width, l.raster_height) {
            None => {
                assert(saved_text(cv) =~= canvas_line(number, l));
            },
            Some(uri) => {
                lemma_data_uri_plain(l.raster_pixels_rgba, l.raster_width, l.raster_height);
                lemma_canvas_line_marks(number, l.raster_width, l.raster_height, uri);
                lemma_item_text(
                    Seq::<(Seq<char>, LineValues<P, S>)>::empty(),
                    spec_canvas_tag(number, l.raster_width, l.raster_height, uri),
                    no_values(),
                );
                assert(cv =~= Seq::<(Seq<char>, LineValues<P, S>)>::empty().push(
                    (spec_canvas_tag(number, l.raster_width, l.raster_height, uri), no_values()),
                ));
                assert(saved_text(cv) =~= canvas_line(number, l));
            },
        }
        assert(saved_text(raster) == raster_lines(number, l, t));
    } else {
        assert(saved_text(raster) =~= raster_lines(number, l, t));
    }
    lemma_image_text(number, l.images, t.images, l.images.len() as int);
    lemma_path_text(number, l.paths, t.paths, l.paths.len() as int);
    assert(saved_text(layer_reload(number, l, t)) =~= layer_text(number, l, t));
}

/// The first `k` layers' saved text is their lines, indented.
proof fn lemma_layers_text<P, S>(layers: Seq<LayerView<P, S>>, items: Seq<ItemTextsView>, k: int)
    requires
        0 <= k <= layers.len(),
        items.len() == layers.len(),
        forall|i: int| 0 <= i < layers.len() ==> reloadable(#[trigger] layers[i], items[i]),
    ensures
        saved_text(document_reload(layers, items, k)) == layers_text(layers, items, k),
    decreases k,
{
    if k > 0 {
        lemma_layers_text(layers, items, k - 1);
        assert(reloadable(layers[k - 1], items[k - 1]));
        lemma_layer_text(k as nat, layers[k - 1], items[k - 1]);
        lemma_saved_text_append(document_reload(layers, items, k - 1), layer_reload(k as nat, layers[k - 1], items[k - 1]));
    }
}

/// The saved text of a drawing is its header, then the lines of its layers
/// (those that `lemma_document_read_back` reads back), each indented on a line
/// of its own, then `</svg>`.
pub proof fn lemma_document_lines<P, S>(doc: DocumentView<P, S>, h: HeaderTextsView, items: Seq<ItemTextsView>)
    requires
        items_match(doc.layers, items),
        forall|i: int| 0 <= i < doc.layers.len() ==> reloadable(#[trigger] doc.layers[i], items[i]),
    ensures
        spec_svg_document(doc, h, items) == svg_header_text(h) + saved_text(
            document_reload(doc.layers, items, doc.layers.len() as int),
        ) + "</svg>\n"@,
{
    lemma_layers_text(doc.layers, items, doc.layers.len() as int);
}

} // verus!
