//! Reading the layers of a saved drawing back, one line at a time: which
//! markers a line carries, and how each kind of line adds to the layers.

use vstd::prelude::*;
use crate::document::{
    Document, DocumentView, ImageView, Layer, LayerKind, LayerView, RasterImage, RasterStroke, StrokeView,
    fresh_layer, image_views, layer_views, path_views, stroke_views,
};
use crate::path::{PPWPath, PathView, SegmentDefaults, empty_path_view, spec_rebuilt};
use crate::svg_data::{image_from_data_uri_attr, spec_image_from_data_uri_attr};
use crate::svg_tags::{
    ends_with, header_kind, header_locked, header_name, header_visible, lemma_layer_tag_roundtrip, parse_layer_header,
    spec_layer_open_tag,
};
use crate::text::{
    attr, chars_of, find_chars, numbered_name, parse_u64, spec_attr, spec_decimal, spec_find, spec_parse_u64,
    spec_escape_xml, spec_unescape_xml, unescape_xml,
};

verus! {

/// Whether `s` begins with `t`.
pub open spec fn starts_with(s: Seq<char>, t: Seq<char>) -> bool {
    t.len() <= s.len() && s.subrange(0, t.len() as int) == t
}

/// Whether `t` occurs in `s`.
pub open spec fn contains_text(s: Seq<char>, t: Seq<char>) -> bool {
    spec_find(s, t) is Some
}

/// The markers that tell what a (trimmed) line of a saved drawing holds.
#[derive(Debug, Clone, Copy)]
pub struct LineMarks {
    /// The line opens a layer group (`<g ` or `<g>`).
    pub opens_layer: bool,
    /// The line holds a raster layer's canvas.
    pub raster_canvas: bool,
    /// The line holds a placed image.
    pub placed_image: bool,
    /// The line holds a raster stroke of the older format.
    pub raster_stroke: bool,
    /// The line holds a PPW path.
    pub ppw_path: bool,
    /// The line closes a layer group (`</g`).
    pub closes_layer: bool,
}

/// The markers `line` carries.
pub open spec fn spec_line_marks(line: Seq<char>) -> LineMarks {
    LineMarks {
        opens_layer: starts_with(line, "<g "@) || starts_with(line, "<g>"@),
        raster_canvas: contains_text(line, "data-ppw-raster-canvas=\"true\""@),
        placed_image: contains_text(line, "data-ppw-image=\"true\""@),
        raster_stroke: contains_text(line, "data-raster-stroke=\"true\""@),
        ppw_path: contains_text(line, "data-ppw=\"true\""@),
        closes_layer: starts_with(line, "</g"@),
    }
}

fn starts_with_chars(s: &Vec<char>, t: &Vec<char>) -> (r: bool)
    ensures
        r == starts_with(s@, t@),
{
    if t.len() > s.len() {
        return false;
    }
    let mut i: usize = 0;
    while i < t.len()
        invariant
            0 <= i <= t@.len() <= s@.len(),
            forall|k: int| 0 <= k < i ==> s@[k] == t@[k],
        decreases t@.len() - i,
    {
        if s[i] != t[i] {
            assert(s@.subrange(0, t@.len() as int)[i as int] != t@[i as int]);
            return false;
        }
        i = i + 1;
    }
    assert(s@.subrange(0, t@.len() as int) =~= t@);
    true
}

fn starts_with_text(s: &Vec<char>, t: &str) -> (r: bool)
    ensures
        r == starts_with(s@, t@),
{
    let tv = chars_of(t);
    starts_with_chars(s, &tv)
}

fn contains_chars(s: &Vec<char>, t: &str) -> (r: bool)
    ensures
        r == contains_text(s@, t@),
{
    let tv = chars_of(t);
    find_chars(s, &tv).is_some()
}

/// Which markers `line` carries.
pub fn line_marks(line: &str) -> (r: LineMarks)
    ensures
        r == spec_line_marks(line@),
{
    let v = chars_of(line);
    let opens_layer = starts_with_text(&v, "<g ") || starts_with_text(&v, "<g>");
    LineMarks {
        opens_layer,
        raster_canvas: contains_chars(&v, "data-ppw-raster-canvas=\"true\""),
        placed_image: contains_chars(&v, "data-ppw-image=\"true\""),
        raster_stroke: contains_chars(&v, "data-raster-stroke=\"true\""),
        ppw_path: contains_chars(&v, "data-ppw=\"true\""),
        closes_layer: starts_with_text(&v, "</g"),
    }
}

/// The layers read back so far: those already closed, the one still open, and
/// the largest image id met.
pub struct SvgLayerReader<P, S> {
    pub layers: Vec<Layer<P, S>>,
    pub current: Option<Layer<P, S>>,
    pub max_image_id: u64,
}

/// The mathematical model of a reader.
pub struct ReaderView<P, S> {
    pub layers: Seq<LayerView<P, S>>,
    pub current: Option<LayerView<P, S>>,
    pub max_image_id: u64,
}

/// The view of an optional layer.
pub open spec fn opt_layer_view<P, S>(l: Option<Layer<P, S>>) -> Option<LayerView<P, S>> {
    match l {
        Some(x) => Some(x@),
        None => None,
    }
}

/// The view of an optional decoded image.
pub open spec fn decoded_view(d: Option<(Vec<u8>, u32, u32)>) -> Option<(Seq<u8>, u32, u32)> {
    match d {
        Some(x) => Some((x.0@, x.1, x.2)),
        None => None,
    }
}

impl<P, S> View for SvgLayerReader<P, S> {
    type V = ReaderView<P, S>;

    open spec fn view(&self) -> ReaderView<P, S> {
        ReaderView { layers: layer_views(self.layers@), current: opt_layer_view(self.current), max_image_id: self.max_image_id }
    }
}

/// The layers read so far, the open one closed after the others.
pub open spec fn closed_layers<P, S>(r: ReaderView<P, S>) -> Seq<LayerView<P, S>> {
    match r.current {
        Some(l) => r.layers.push(l),
        None => r.layers,
    }
}

/// The empty layer an opening tag describes, after `before` layers.
pub open spec fn header_layer<P, S>(line: Seq<char>, before: nat) -> LayerView<P, S> {
    LayerView {
        name: header_name(line, before),
        visible: header_visible(line),
        locked: header_locked(line),
        kind: header_kind(line),
        ..fresh_layer(Seq::empty(), LayerKind::Vector, Seq::empty())
    }
}

/// Whether a fresh layer can be numbered: needed only when none is open.
pub open spec fn can_number<P, S>(r: ReaderView<P, S>) -> bool {
    r.current is Some || r.layers.len() < usize::MAX
}

/// The open layer, or else a fresh one of `kind` named `prefix` and its number.
pub open spec fn open_or_fresh<P, S>(r: ReaderView<P, S>, prefix: Seq<char>, kind: LayerKind) -> LayerView<P, S> {
    match r.current {
        Some(l) => l,
        None => fresh_layer(prefix + spec_decimal(r.layers.len() + 1), kind, Seq::empty()),
    }
}

/// After a line that opens a layer: the open layer is closed and the one the
/// tag describes is opened.
pub open spec fn spec_open_layer<P, S>(r: ReaderView<P, S>, line: Seq<char>) -> ReaderView<P, S> {
    let ls = closed_layers(r);
    ReaderView { layers: ls, current: Some(header_layer(line, ls.len())), max_image_id: r.max_image_id }
}

/// After a raster canvas line whose image decoded to `canvas` (if at all):
/// the open layer (or a fresh raster layer) becomes a raster layer holding it.
pub open spec fn spec_read_raster_canvas<P, S>(r: ReaderView<P, S>, canvas: Option<(Seq<u8>, u32, u32)>) -> ReaderView<P, S> {
    let l = open_or_fresh(r, "Raster Layer "@, LayerKind::Raster);
    let l2 = match canvas {
        Some(c) => LayerView {
            kind: LayerKind::Raster,
            raster_pixels_rgba: c.0,
            raster_width: c.1,
            raster_height: c.2,
            ..l
        },
        None => l,
    };
    ReaderView { current: Some(l2), ..r }
}

/// The id a placed image line gives: its `data-image-id`, or else one more
/// than the largest id met.
pub open spec fn image_id_of(line: Seq<char>, max_id: u64) -> u64 {
    match spec_attr(line, "data-image-id"@) {
        Some(v) if spec_parse_u64(v) is Some => spec_parse_u64(v).unwrap(),
        _ => (max_id + 1) as u64,
    }
}

/// The name a placed image line gives: its unescaped `data-image-name`, or
/// "Image".
pub open spec fn image_name_of(line: Seq<char>) -> Seq<char> {
    match spec_attr(line, "data-image-name"@) {
        Some(v) => spec_unescape_xml(v),
        None => "Image"@,
    }
}

/// After a placed image line whose image decoded to `decoded` (if at all),
/// placed at `pos` with `size` and `rotation`: a layer is open (a fresh vector
/// layer if none was), and it holds the image with the line's id and name.
pub open spec fn spec_read_placed_image<P, S>(
    r: ReaderView<P, S>,
    line: Seq<char>,
    decoded: Option<(Seq<u8>, u32, u32)>,
    pos: P,
    size: P,
    rotation: S,
) -> ReaderView<P, S> {
    let l = open_or_fresh(r, "Layer "@, LayerKind::Vector);
    match decoded {
        None => ReaderView { current: Some(l), ..r },
        Some(c) => {
            let id = image_id_of(line, r.max_image_id);
            let image = ImageView {
                id,
                name: image_name_of(line),
                pixels_rgba: c.0,
                width: c.1,
                height: c.2,
                pos,
                size,
                rotation,
            };
            ReaderView {
                layers: r.layers,
                current: Some(LayerView { images: l.images.push(image), ..l }),
                max_image_id: if id > r.max_image_id { id } else { r.max_image_id },
            }
        },
    }
}

/// After a raster stroke line: the open layer (or a fresh raster layer)
/// becomes a raster layer ending with the stroke.
pub open spec fn spec_read_raster_stroke<P, S>(r: ReaderView<P, S>, stroke: StrokeView<P, S>) -> ReaderView<P, S> {
    let l = open_or_fresh(r, "Raster Layer "@, LayerKind::Raster);
    ReaderView {
        current: Some(LayerView { kind: LayerKind::Raster, raster_strokes: l.raster_strokes.push(stroke), ..l }),
        ..r
    }
}

/// After a PPW path line: the open layer (or a fresh vector layer) ends with
/// the path, refitted with `d`.
pub open spec fn spec_read_path<P, S>(r: ReaderView<P, S>, path: PathView<P, S>, d: SegmentDefaults<S>) -> ReaderView<P, S> {
    let l = open_or_fresh(r, "Layer "@, LayerKind::Vector);
    ReaderView { current: Some(LayerView { paths: l.paths.push(spec_rebuilt(path, d)), ..l }), ..r }
}

/// After a line that closes a layer: no layer is open.
pub open spec fn spec_close_layer<P, S>(r: ReaderView<P, S>) -> ReaderView<P, S> {
    ReaderView { layers: closed_layers(r), current: None, max_image_id: r.max_image_id }
}

/// A layer as loading leaves it: a vector layer without paths gets an empty
/// one, and a raster layer loses its paths.
pub open spec fn loaded_layer<P, S>(l: LayerView<P, S>, stroke_width: S) -> LayerView<P, S> {
    match l.kind {
        LayerKind::Vector => if l.paths.len() == 0 {
            LayerView { paths: seq![empty_path_view::<P, S>(stroke_width)], ..l }
        } else {
            l
        },
        LayerKind::Raster => LayerView { paths: Seq::empty(), ..l },
    }
}

/// The id after the largest one met (saturating).
pub open spec fn id_after(max_id: u64) -> u64 {
    if max_id == u64::MAX { u64::MAX } else { (max_id + 1) as u64 }
}

/// The document the layers read make, with the given canvas size: none if no
/// layer was read.
pub open spec fn spec_finish<P, S>(r: ReaderView<P, S>, canvas_width: S, canvas_height: S, stroke_width: S) -> Option<DocumentView<P, S>> {
    let ls = closed_layers(r);
    if ls.len() == 0 {
        None
    } else {
        Some(DocumentView {
            layers: ls.map_values(|l: LayerView<P, S>| loaded_layer(l, stroke_width)),
            active_layer: 0,
            canvas_width,
            canvas_height,
            next_image_id: id_after(r.max_image_id),
        })
    }
}

/// Brings one read layer into the shape loading leaves it in.
fn finish_layer<P: Copy, S: Copy>(layer: &mut Layer<P, S>, stroke_width: S)
    ensures
        final(layer)@ == loaded_layer(old(layer)@, stroke_width),
{
    match layer.kind {
        LayerKind::Vector => {
            if layer.paths.len() == 0 {
                layer.paths.push(PPWPath::empty(stroke_width));
                assert(layer@.paths =~= seq![empty_path_view::<P, S>(stroke_width)]);
            }
        },
        LayerKind::Raster => {
            layer.paths.clear();
            assert(layer@.paths =~= Seq::<PathView<P, S>>::empty());
        },
    }
}

impl<P: Copy, S: Copy> SvgLayerReader<P, S> {
    /// A reader that has read nothing.
    pub fn new() -> (r: Self)
        ensures
            r@.layers.len() == 0,
            r@.current is None,
            r@.max_image_id == 0,
    {
        SvgLayerReader { layers: Vec::new(), current: None, max_image_id: 0 }
    }

    /// Closes the open layer, if any.
    fn close_current(&mut self)
        ensures
            final(self)@ == spec_close_layer(old(self)@),
    {
        match self.current.take() {
            Some(l) => {
                self.layers.push(l);
                assert(layer_views(self.layers@) =~= closed_layers(old(self)@));
            },
            None => {},
        }
    }

    /// Takes the open layer out, or makes a fresh one of `kind` named `prefix`
    /// and its number.
    fn take_open_layer(&mut self, prefix: &str, kind: LayerKind) -> (l: Layer<P, S>)
        requires
            can_number(old(self)@),
        ensures
            l@ == open_or_fresh(old(self)@, prefix@, kind),
            final(self)@ == (ReaderView { current: None, ..old(self)@ }),
    {
        match self.current.take() {
            Some(l) => l,
            None => {
                let number = self.layers.len() as u64 + 1;
                assert(number as nat == old(self)@.layers.len() + 1);
                let name = numbered_name(prefix, number);
                match kind {
                    LayerKind::Raster => Layer::new_raster(name),
                    LayerKind::Vector => {
                        let paths: Vec<PPWPath<P, S>> = Vec::new();
                        assert(path_views(paths@) =~= Seq::<PathView<P, S>>::empty());
                        Layer::with_paths(name, paths)
                    },
                }
            },
        }
    }

    /// Reads a line that opens a layer.
    pub fn read_layer_open(&mut self, line: &str)
        requires
            closed_layers(old(self)@).len() < usize::MAX,
        ensures
            final(self)@ == spec_open_layer(old(self)@, line@),
    {
        self.close_current();
        let header = parse_layer_header(line, self.layers.len());
        let layer = Layer {
            name: header.name,
            visible: header.visible,
            locked: header.locked,
            kind: header.kind,
            paths: Vec::new(),
            raster_strokes: Vec::new(),
            raster_pixels_rgba: Vec::new(),
            raster_width: 0,
            raster_height: 0,
            images: Vec::new(),
        };
        assert(layer@.paths =~= Seq::<PathView<P, S>>::empty());
        assert(layer@.raster_strokes =~= Seq::<StrokeView<P, S>>::empty());
        assert(layer@.images =~= Seq::<ImageView<P, S>>::empty());
        self.current = Some(layer);
    }

    /// Reads a line that holds a raster layer's canvas.
    pub fn read_raster_canvas(&mut self, line: &str)
        requires
            can_number(old(self)@),
        ensures
            final(self)@ == spec_read_raster_canvas(old(self)@, spec_image_from_data_uri_attr(line@)),
    {
        let mut l = self.take_open_layer("Raster Layer ", LayerKind::Raster);
        match image_from_data_uri_attr(line) {
            Some((pixels, width, height)) => {
                l.kind = LayerKind::Raster;
                l.raster_pixels_rgba = pixels;
                l.raster_width = width;
                l.raster_height = height;
            },
            None => {},
        }
        self.current = Some(l);
    }

    /// Reads a line that holds a placed image, given what its embedded image
    /// decoded to and where the line places it.
    pub fn read_placed_image(
        &mut self,
        line: &str,
        decoded: Option<(Vec<u8>, u32, u32)>,
        pos: P,
        size: P,
        rotation: S,
    )
        requires
            can_number(old(self)@),
            decoded is Some ==> old(self).max_image_id < u64::MAX,
        ensures
            final(self)@ == spec_read_placed_image(old(self)@, line@, decoded_view(decoded), pos, size, rotation),
    {
        let mut l = self.take_open_layer("Layer ", LayerKind::Vector);
        match decoded {
            Some((pixels, width, height)) => {
                let fallback = self.max_image_id + 1;
                let id = match attr(line, "data-image-id") {
                    Some(v) => match parse_u64(v.as_str()) {
                        Some(n) => n,
                        None => fallback,
                    },
                    None => fallback,
                };
                if id > self.max_image_id {
                    self.max_image_id = id;
                }
                let name = match attr(line, "data-image-name") {
                    Some(v) => unescape_xml(v.as_str()),
                    None => "Image".to_string(),
                };
                let image = RasterImage { id, name, pixels_rgba: pixels, width, height, pos, size, rotation };
                let ghost before = l@;
                l.images.push(image);
                assert(l@.images =~= before.images.push(image@));
            },
            None => {},
        }
        self.current = Some(l);
    }

    /// Reads a line that holds a raster stroke.
    pub fn read_raster_stroke(&mut self, stroke: RasterStroke<P, S>)
        requires
            can_number(old(self)@),
        ensures
            final(self)@ == spec_read_raster_stroke(old(self)@, stroke@),
    {
        let mut l = self.take_open_layer("Raster Layer ", LayerKind::Raster);
        l.kind = LayerKind::Raster;
        let ghost before = l@;
        l.raster_strokes.push(stroke);
        assert(l@.raster_strokes =~= before.raster_strokes.push(stroke@));
        self.current = Some(l);
    }

    /// Reads a line that holds a PPW path, refitting it with `d`.
    pub fn read_path(&mut self, path: PPWPath<P, S>, d: SegmentDefaults<S>)
        requires
            can_number(old(self)@),
        ensures
            final(self)@ == spec_read_path(old(self)@, path@, d),
    {
        let mut path = path;
        path.rebuild_open_segment_params(d);
        let mut l = self.take_open_layer("Layer ", LayerKind::Vector);
        let ghost before = l@;
        let ghost p = path@;
        l.paths.push(path);
        assert(l@.paths =~= before.paths.push(p));
        self.current = Some(l);
    }

    /// Reads a line that closes a layer.
    pub fn read_layer_close(&mut self)
        ensures
            final(self)@ == spec_close_layer(old(self)@),
    {
        self.close_current();
    }

    /// The document made of the layers read, on a canvas of the given size;
    /// none if no layer was read.
    pub fn finish(self, canvas_width: S, canvas_height: S, stroke_width: S) -> (r: Option<Document<P, S>>)
        ensures
            r is None <==> spec_finish(self@, canvas_width, canvas_height, stroke_width) is None,
            r matches Some(doc) ==> spec_finish(self@, canvas_width, canvas_height, stroke_width) == Some(doc@),
    {
        let mut me = self;
        me.close_current();
        if me.layers.len() == 0 {
            return None;
        }
        let next_image_id = me.max_image_id.saturating_add(1);
        let mut layers = me.layers;
        let ghost ls0 = layer_views(layers@);
        let count = layers.len();
        let mut j: usize = 0;
        while j < count
            invariant
                0 <= j <= count,
                count == layers@.len(),
                count == ls0.len(),
                forall|q: int| 0 <= q < j ==> #[trigger] layer_views(layers@)[q] == loaded_layer(ls0[q], stroke_width),
                forall|q: int| j <= q < count ==> #[trigger] layer_views(layers@)[q] == ls0[q],
            decreases count - j,
        {
            let ghost before = layers@;
            assert(layer_views(layers@)[j as int] == ls0[j as int]);
            let layer = &mut layers[j];
            finish_layer(layer, stroke_width);
            assert(layer_views(layers@) =~= layer_views(before).update(j as int, loaded_layer(ls0[j as int], stroke_width)));
            j = j + 1;
        }
        assert(layer_views(layers@) =~= ls0.map_values(|l: LayerView<P, S>| loaded_layer(l, stroke_width)));
        Some(Document { layers, active_layer: 0, canvas_width, canvas_height, next_image_id })
    }
}

/// Whether no image read so far has an id above the largest id met.
pub open spec fn ids_bounded<P, S>(r: ReaderView<P, S>) -> bool {
    forall|i: int, k: int|
        0 <= i < closed_layers(r).len() && 0 <= k < closed_layers(r)[i].images.len()
            ==> #[trigger] closed_layers(r)[i].images[k].id <= r.max_image_id
}

/// Putting in place of the open layer one that holds its images (none if no
/// layer was open), maybe followed by one more with an id at most `max_id`,
/// keeps every image id at or below `max_id`.
proof fn lemma_open_replaced<P, S>(r: ReaderView<P, S>, open: LayerView<P, S>, extra: Option<ImageView<P, S>>, max_id: u64)
    requires
        ids_bounded(r),
        r.max_image_id <= max_id,
        open.images == (match extra {
            Some(m) => match r.current {
                Some(c) => c.images,
                None => Seq::<ImageView<P, S>>::empty(),
            }.push(m),
            None => match r.current {
                Some(c) => c.images,
                None => Seq::<ImageView<P, S>>::empty(),
            },
        }),
        extra matches Some(m) ==> m.id <= max_id,
    ensures
        ids_bounded(ReaderView { layers: r.layers, current: Some(open), max_image_id: max_id }),
{
    let r2 = ReaderView { layers: r.layers, current: Some(open), max_image_id: max_id };
    let c2 = closed_layers(r2);
    assert forall|i: int, k: int| 0 <= i < c2.len() && 0 <= k < c2[i].images.len() implies #[trigger] c2[i].images[k].id
        <= max_id by {
        if i < r.layers.len() {
            assert(c2[i] == closed_layers(r)[i]);
        } else {
            match r.current {
                Some(c) => {
                    let last = closed_layers(r).len() - 1;
                    assert(closed_layers(r)[last] == c);
                    if k < c.images.len() {
                        assert(c2[i].images[k] == closed_layers(r)[last].images[k]);
                    }
                },
                None => {},
            }
        }
    }
}

/// Reading any line keeps every image id read at or below the largest id met.
pub proof fn lemma_reading_keeps_ids_bounded<P, S>(
    r: ReaderView<P, S>,
    line: Seq<char>,
    decoded: Option<(Seq<u8>, u32, u32)>,
    pos: P,
    size: P,
    rotation: S,
    stroke: StrokeView<P, S>,
    path: PathView<P, S>,
    d: SegmentDefaults<S>,
)
    requires
        ids_bounded(r),
        decoded is Some ==> r.max_image_id < u64::MAX,
    ensures
        ids_bounded(spec_open_layer(r, line)),
        ids_bounded(spec_read_raster_canvas(r, decoded)),
        ids_bounded(spec_read_placed_image(r, line, decoded, pos, size, rotation)),
        ids_bounded(spec_read_raster_stroke(r, stroke)),
        ids_bounded(spec_read_path(r, path, d)),
        ids_bounded(spec_close_layer(r)),
{
    let cur_images = match r.current {
        Some(c) => c.images,
        None => Seq::<ImageView<P, S>>::empty(),
    };
    let o = spec_open_layer(r, line);
    let co = closed_layers(o);
    assert(co == closed_layers(r).push(header_layer::<P, S>(line, closed_layers(r).len())));
    assert forall|i: int, k: int| 0 <= i < co.len() && 0 <= k < co[i].images.len() implies #[trigger] co[i].images[k].id
        <= o.max_image_id by {
        assert(i < closed_layers(r).len());
        assert(co[i] == closed_layers(r)[i]);
    }
    let rc = spec_read_raster_canvas(r, decoded);
    lemma_open_replaced(r, rc.current.unwrap(), None, r.max_image_id);
    let rs = spec_read_raster_stroke(r, stroke);
    lemma_open_replaced(r, rs.current.unwrap(), None, r.max_image_id);
    let rp = spec_read_path(r, path, d);
    lemma_open_replaced(r, rp.current.unwrap(), None, r.max_image_id);
    let ri = spec_read_placed_image(r, line, decoded, pos, size, rotation);
    match decoded {
        Some(c) => {
            let id = image_id_of(line, r.max_image_id);
            let image = ImageView {
                id,
                name: image_name_of(line),
                pixels_rgba: c.0,
                width: c.1,
                height: c.2,
                pos,
                size,
                rotation,
            };
            lemma_open_replaced(r, ri.current.unwrap(), Some(image), ri.max_image_id);
        },
        None => {
            lemma_open_replaced(r, ri.current.unwrap(), None, r.max_image_id);
        },
    }
    let rcl = spec_close_layer(r);
    assert(closed_layers(rcl) == closed_layers(r));
}

/// A loaded document has a layer and the first one active, every vector
/// layer holds a path and no raster layer does; and if every image id read is
/// at or below the largest id met, which is not `u64::MAX`, every image id is
/// below the document's next image id.
pub proof fn lemma_finished_document<P, S>(r: ReaderView<P, S>, canvas_width: S, canvas_height: S, stroke_width: S)
    requires
        spec_finish(r, canvas_width, canvas_height, stroke_width) is Some,
    ensures
        ({
            let doc = spec_finish(r, canvas_width, canvas_height, stroke_width).unwrap();
            &&& doc.layers.len() >= 1
            &&& doc.active_layer < doc.layers.len()
            &&& forall|i: int| 0 <= i < doc.layers.len() ==> (#[trigger] doc.layers[i]).kind == LayerKind::Vector
                ==> doc.layers[i].paths.len() >= 1
            &&& forall|i: int| 0 <= i < doc.layers.len() ==> (#[trigger] doc.layers[i]).kind == LayerKind::Raster
                ==> doc.layers[i].paths.len() == 0
            &&& (ids_bounded(r) && r.max_image_id < u64::MAX) ==> forall|i: int, k: int|
                0 <= i < doc.layers.len() && 0 <= k < doc.layers[i].images.len()
                    ==> #[trigger] doc.layers[i].images[k].id < doc.next_image_id
        }),
{
    let doc = spec_finish(r, canvas_width, canvas_height, stroke_width).unwrap();
    let ls = closed_layers(r);
    assert forall|i: int, k: int|
        (ids_bounded(r) && r.max_image_id < u64::MAX) && 0 <= i < doc.layers.len() && 0 <= k
            < doc.layers[i].images.len() implies #[trigger] doc.layers[i].images[k].id < doc.next_image_id by {
        assert(doc.layers[i] == loaded_layer(ls[i], stroke_width));
        assert(doc.layers[i].images == ls[i].images);
        assert(ls[i].images[k].id <= r.max_image_id);
    }
}

/// Reading back the tag that opens a written layer opens a layer with the same
/// name, visibility, lock and kind, and nothing in it; the exceptions are
/// those of `lemma_layer_tag_roundtrip`.
pub proof fn lemma_reopened_layer<P, S>(
    r: ReaderView<P, S>,
    number: nat,
    name: Seq<char>,
    kind: LayerKind,
    visible: bool,
    locked: bool,
)
    requires
        !(kind == LayerKind::Raster && ends_with(spec_escape_xml(name), "data-layer-kind="@)),
        !(locked && ends_with(spec_escape_xml(name), "data-locked="@)),
    ensures
        spec_open_layer(r, spec_layer_open_tag(number, name, kind, visible, locked)).current == Some(
            LayerView::<P, S> { name, visible, locked, kind, ..fresh_layer(Seq::empty(), LayerKind::Vector, Seq::empty()) },
        ),
{
    lemma_layer_tag_roundtrip(number, name, kind, visible, locked, closed_layers(r).len());
}

} // verus!
