//! The document: layers of PPW paths or raster pixels, the active layer, and
//! placed images.

use vstd::prelude::*;
use crate::path::{PPWPath, PathView, SegmentDefaults, copy_vec, empty_path_view, spec_rebuilt, without_positions};
use crate::selection::{PointSelection, points_of_path, selected_on_path};
use crate::text::{numbered_name, spec_decimal, with_suffix};
use vstd::arithmetic::div_mod::{lemma_fundamental_div_mod, lemma_fundamental_div_mod_converse_div, lemma_fundamental_div_mod_converse_mod};
use vstd::arithmetic::mul::{lemma_mul_inequality, lemma_mul_nonnegative};

verus! {

/// Whether a layer holds vector paths or raster pixels.
#[derive(Debug, Clone, Copy, PartialEq, Eq, Structural)]
pub enum LayerKind {
    Vector,
    Raster,
}

/// The name shown for a layer kind.
pub open spec fn kind_label(kind: LayerKind) -> Seq<char> {
    match kind {
        LayerKind::Vector => "Vector"@,
        LayerKind::Raster => "Raster"@,
    }
}

impl LayerKind {
    /// The name shown for this kind.
    pub fn label(self) -> (r: &'static str)
        ensures
            r@ == kind_label(self),
    {
        match self {
            LayerKind::Vector => "Vector",
            LayerKind::Raster => "Raster",
        }
    }
}

/// A freehand stroke painted on a raster layer.
#[derive(Debug, Clone)]
pub struct RasterStroke<P, S> {
    pub points: Vec<P>,
    pub width: S,
    pub color: [u8; 4],
}

/// The mathematical model of a raster stroke.
pub struct StrokeView<P, S> {
    pub points: Seq<P>,
    pub width: S,
    pub color: Seq<u8>,
}

impl<P, S> View for RasterStroke<P, S> {
    type V = StrokeView<P, S>;

    open spec fn view(&self) -> StrokeView<P, S> {
        StrokeView { points: self.points@, width: self.width, color: self.color@ }
    }
}

/// An RGBA image placed on a layer.
#[derive(Debug, Clone)]
pub struct RasterImage<P, S> {
    pub id: u64,
    pub name: String,
    pub pixels_rgba: Vec<u8>,
    pub width: u32,
    pub height: u32,
    pub pos: P,
    pub size: P,
    pub rotation: S,
}

/// The mathematical model of a placed image.
pub struct ImageView<P, S> {
    pub id: u64,
    pub name: Seq<char>,
    pub pixels_rgba: Seq<u8>,
    pub width: u32,
    pub height: u32,
    pub pos: P,
    pub size: P,
    pub rotation: S,
}

impl<P, S> View for RasterImage<P, S> {
    type V = ImageView<P, S>;

    open spec fn view(&self) -> ImageView<P, S> {
        ImageView {
            id: self.id,
            name: self.name@,
            pixels_rgba: self.pixels_rgba@,
            width: self.width,
            height: self.height,
            pos: self.pos,
            size: self.size,
            rotation: self.rotation,
        }
    }
}

impl<P: Copy, S: Copy> RasterStroke<P, S> {
    /// A copy of this stroke.
    pub fn duplicate(&self) -> (r: Self)
        ensures
            r@ == self@,
    {
        RasterStroke { points: copy_vec(&self.points), width: self.width, color: self.color }
    }
}

impl<P: Copy, S: Copy> RasterImage<P, S> {
    /// A copy of this image.
    pub fn duplicate(&self) -> (r: Self)
        ensures
            r@ == self@,
    {
        RasterImage {
            id: self.id,
            name: self.name.clone(),
            pixels_rgba: copy_vec(&self.pixels_rgba),
            width: self.width,
            height: self.height,
            pos: self.pos,
            size: self.size,
            rotation: self.rotation,
        }
    }
}

/// A layer of the document.
#[derive(Debug, Clone)]
pub struct Layer<P, S> {
    pub name: String,
    pub visible: bool,
    pub locked: bool,
    pub kind: LayerKind,
    pub paths: Vec<PPWPath<P, S>>,
    pub raster_strokes: Vec<RasterStroke<P, S>>,
    pub raster_pixels_rgba: Vec<u8>,
    pub raster_width: u32,
    pub raster_height: u32,
    pub images: Vec<RasterImage<P, S>>,
}

/// The mathematical model of a layer.
pub struct LayerView<P, S> {
    pub name: Seq<char>,
    pub visible: bool,
    pub locked: bool,
    pub kind: LayerKind,
    pub paths: Seq<PathView<P, S>>,
    pub raster_strokes: Seq<StrokeView<P, S>>,
    pub raster_pixels_rgba: Seq<u8>,
    pub raster_width: u32,
    pub raster_height: u32,
    pub images: Seq<ImageView<P, S>>,
}

/// The views of a list of paths.
pub open spec fn path_views<P, S>(paths: Seq<PPWPath<P, S>>) -> Seq<PathView<P, S>> {
    paths.map_values(|p: PPWPath<P, S>| p@)
}

/// The views of a list of strokes.
pub open spec fn stroke_views<P, S>(strokes: Seq<RasterStroke<P, S>>) -> Seq<StrokeView<P, S>> {
    strokes.map_values(|s: RasterStroke<P, S>| s@)
}

/// The views of a list of images.
pub open spec fn image_views<P, S>(images: Seq<RasterImage<P, S>>) -> Seq<ImageView<P, S>> {
    images.map_values(|m: RasterImage<P, S>| m@)
}

impl<P, S> View for Layer<P, S> {
    type V = LayerView<P, S>;

    open spec fn view(&self) -> LayerView<P, S> {
        LayerView {
            name: self.name@,
            visible: self.visible,
            locked: self.locked,
            kind: self.kind,
            paths: path_views(self.paths@),
            raster_strokes: stroke_views(self.raster_strokes@),
            raster_pixels_rgba: self.raster_pixels_rgba@,
            raster_width: self.raster_width,
            raster_height: self.raster_height,
            images: image_views(self.images@),
        }
    }
}

/// A visible, unlocked layer of `kind` named `name` with the given paths and
/// no raster content.
pub open spec fn fresh_layer<P, S>(name: Seq<char>, kind: LayerKind, paths: Seq<PathView<P, S>>) -> LayerView<P, S> {
    LayerView {
        name,
        visible: true,
        locked: false,
        kind,
        paths,
        raster_strokes: Seq::empty(),
        raster_pixels_rgba: Seq::empty(),
        raster_width: 0,
        raster_height: 0,
        images: Seq::empty(),
    }
}

impl<P: Copy, S: Copy> Layer<P, S> {
    /// A vector layer holding one empty path stroked with `stroke_width`.
    pub fn new(name: String, stroke_width: S) -> (r: Self)
        ensures
            r@ == fresh_layer(name@, LayerKind::Vector, seq![empty_path_view::<P, S>(stroke_width)]),
    {
        let mut paths: Vec<PPWPath<P, S>> = Vec::new();
        paths.push(PPWPath::empty(stroke_width));
        assert(path_views(paths@) =~= seq![empty_path_view::<P, S>(stroke_width)]);
        Self::with_paths(name, paths)
    }

    /// An empty raster layer.
    pub fn new_raster(name: String) -> (r: Self)
        ensures
            r@ == fresh_layer::<P, S>(name@, LayerKind::Raster, Seq::empty()),
    {
        let r = Layer {
            name,
            visible: true,
            locked: false,
            kind: LayerKind::Raster,
            paths: Vec::new(),
            raster_strokes: Vec::new(),
            raster_pixels_rgba: Vec::new(),
            raster_width: 0,
            raster_height: 0,
            images: Vec::new(),
        };
        assert(r@.paths =~= Seq::<PathView<P, S>>::empty());
        assert(r@.raster_strokes =~= Seq::<StrokeView<P, S>>::empty());
        assert(r@.images =~= Seq::<ImageView<P, S>>::empty());
        r
    }

    /// A vector layer holding `paths`.
    pub fn with_paths(name: String, paths: Vec<PPWPath<P, S>>) -> (r: Self)
        ensures
            r@ == fresh_layer(name@, LayerKind::Vector, path_views(paths@)),
    {
        let r = Layer {
            name,
            visible: true,
            locked: false,
            kind: LayerKind::Vector,
            paths,
            raster_strokes: Vec::new(),
            raster_pixels_rgba: Vec::new(),
            raster_width: 0,
            raster_height: 0,
            images: Vec::new(),
        };
        assert(r@.raster_strokes =~= Seq::<StrokeView<P, S>>::empty());
        assert(r@.images =~= Seq::<ImageView<P, S>>::empty());
        r
    }

    /// A copy of this layer.
    pub fn duplicate(&self) -> (r: Self)
        ensures
            r@ == self@,
    {
        let mut paths: Vec<PPWPath<P, S>> = Vec::new();
        let mut i: usize = 0;
        while i < self.paths.len()
            invariant
                0 <= i <= self.paths@.len(),
                paths@.len() == i,
                path_views(paths@) == path_views(self.paths@).take(i as int),
            decreases self.paths@.len() - i,
        {
            let p = self.paths[i].duplicate();
            let ghost before = paths@;
            paths.push(p);
            proof {
                assert forall|q: int| 0 <= q <= i implies #[trigger] path_views(paths@)[q]
                    == path_views(self.paths@)[q] by {
                    if q < i {
                        assert(paths@[q] == before[q]);
                        assert(path_views(before)[q] == path_views(self.paths@).take(i as int)[q]);
                    }
                }
            }
            i = i + 1;
            assert(path_views(paths@) =~= path_views(self.paths@).take(i as int));
        }
        let mut strokes: Vec<RasterStroke<P, S>> = Vec::new();
        let mut j: usize = 0;
        while j < self.raster_strokes.len()
            invariant
                0 <= j <= self.raster_strokes@.len(),
                strokes@.len() == j,
                stroke_views(strokes@) == stroke_views(self.raster_strokes@).take(j as int),
            decreases self.raster_strokes@.len() - j,
        {
            let s = self.raster_strokes[j].duplicate();
            let ghost before = strokes@;
            strokes.push(s);
            proof {
                assert forall|q: int| 0 <= q <= j implies #[trigger] stroke_views(strokes@)[q]
                    == stroke_views(self.raster_strokes@)[q] by {
                    if q < j {
                        assert(strokes@[q] == before[q]);
                        assert(stroke_views(before)[q] == stroke_views(self.raster_strokes@).take(j as int)[q]);
                    }
                }
            }
            j = j + 1;
            assert(stroke_views(strokes@) =~= stroke_views(self.raster_strokes@).take(j as int));
        }
        let mut images: Vec<RasterImage<P, S>> = Vec::new();
        let mut k: usize = 0;
        while k < self.images.len()
            invariant
                0 <= k <= self.images@.len(),
                images@.len() == k,
                image_views(images@) == image_views(self.images@).take(k as int),
            decreases self.images@.len() - k,
        {
            let m = self.images[k].duplicate();
            let ghost before = images@;
            images.push(m);
            proof {
                assert forall|q: int| 0 <= q <= k implies #[trigger] image_views(images@)[q]
                    == image_views(self.images@)[q] by {
                    if q < k {
                        assert(images@[q] == before[q]);
                        assert(image_views(before)[q] == image_views(self.images@).take(k as int)[q]);
                    }
                }
            }
            k = k + 1;
            assert(image_views(images@) =~= image_views(self.images@).take(k as int));
        }
        let r = Layer {
            name: self.name.clone(),
            visible: self.visible,
            locked: self.locked,
            kind: self.kind,
            paths,
            raster_strokes: strokes,
            raster_pixels_rgba: copy_vec(&self.raster_pixels_rgba),
            raster_width: self.raster_width,
            raster_height: self.raster_height,
            images,
        };
        assert(path_views(self.paths@).take(self.paths@.len() as int) =~= path_views(self.paths@));
        assert(stroke_views(self.raster_strokes@).take(self.raster_strokes@.len() as int)
            =~= stroke_views(self.raster_strokes@));
        assert(image_views(self.images@).take(self.images@.len() as int) =~= image_views(self.images@));
        r
    }
}

/// `x`, raised to 1 when it is 0.
pub open spec fn at_least_one(x: u32) -> u32 {
    if x == 0 { 1 } else { x }
}

/// The smaller of two integers.
pub open spec fn min_int(a: int, b: int) -> int {
    if a <= b { a } else { b }
}

/// The byte length of a `w` by `h` RGBA canvas, saturated at `usize::MAX`.
pub open spec fn canvas_bytes(w: u32, h: u32) -> int {
    let pixels = w as int * h as int;
    let pixels = if pixels > usize::MAX { usize::MAX as int } else { pixels };
    if pixels * 4 > usize::MAX { usize::MAX as int } else { pixels * 4 }
}

/// Whether row `row` of the old `ow`-wide canvas can be copied into a new
/// `w`-wide canvas of `needed` bytes: both byte ranges lie inside their buffers.
pub open spec fn row_fits(old: Seq<u8>, ow: int, w: int, needed: int, row: int, len: int) -> bool {
    &&& 4 * (row * ow) + len <= old.len()
    &&& 4 * (row * w) + len <= needed
}

/// Byte `i` of a `w` by `h` canvas of `needed` bytes that is being filled from
/// the old `ow` by `oh` canvas `old`, row by row: the rows before `rows`, and in
/// row `rows` the bytes before `cols`, are copied where they overlap the old
/// canvas; every other byte is 0.
spec fn copied_byte(
    old: Seq<u8>,
    ow: int,
    oh: int,
    w: int,
    h: int,
    needed: int,
    rows: int,
    cols: int,
    i: int,
) -> u8 {
    let row = i / (4 * w);
    let col = i % (4 * w);
    let len = 4 * min_int(ow, w);
    if row < min_int(oh, h) && col < len && row_fits(old, ow, w, needed, row, len) && (row < rows || (
    row == rows && col < cols)) {
        old[4 * (row * ow) + col]
    } else {
        0
    }
}

/// Byte `i` of the old `ow` by `oh` canvas `old` resized to `w` by `h`
/// (`needed` bytes): the byte at the same row and column of the old canvas
/// where both canvases have that pixel (and the old buffer holds the row),
/// 0 elsewhere.
pub open spec fn resized_byte(old: Seq<u8>, ow: int, oh: int, w: int, h: int, needed: int, i: int) -> u8 {
    let row = i / (4 * w);
    let col = i % (4 * w);
    let len = 4 * min_int(ow, w);
    if row < min_int(oh, h) && col < len && row_fits(old, ow, w, needed, row, len) {
        old[4 * (row * ow) + col]
    } else {
        0
    }
}

/// The pixels of a raster canvas resized to `w` by `h` (each raised to at
/// least 1): the overlapping top-left part is kept, the rest is transparent.
pub open spec fn resized_canvas(old: Seq<u8>, ow: u32, oh: u32, w: u32, h: u32) -> Seq<u8> {
    let w1 = at_least_one(w);
    let h1 = at_least_one(h);
    let needed = canvas_bytes(w1, h1);
    Seq::new(needed as nat, |i: int| resized_byte(old, ow as int, oh as int, w1 as int, h1 as int, needed, i))
}

/// Whether a layer already has a `w` by `h` canvas (each raised to at least 1).
pub open spec fn canvas_matches<P, S>(layer: LayerView<P, S>, w: u32, h: u32) -> bool {
    &&& layer.raster_width == at_least_one(w)
    &&& layer.raster_height == at_least_one(h)
    &&& layer.raster_pixels_rgba.len() == canvas_bytes(at_least_one(w), at_least_one(h))
}

/// Whether fitting a layer's canvas to `w` by `h` computes its row offsets in
/// `u32` without overflow: nothing is computed for a vector layer or a canvas
/// that already fits.
pub open spec fn canvas_resize_fits<P, S>(layer: LayerView<P, S>, w: u32, h: u32) -> bool {
    let rows = min_int(layer.raster_height as int, at_least_one(h) as int);
    ||| layer.kind != LayerKind::Raster
    ||| canvas_matches(layer, w, h)
    ||| rows == 0
    ||| ((rows - 1) * layer.raster_width <= u32::MAX && (rows - 1) * at_least_one(w) <= u32::MAX)
}

/// The layer after `ensure_layer_raster_canvas`: a raster layer without a
/// matching canvas gets one of `w` by `h` (each at least 1), keeping the
/// overlapping pixels; any other layer is unchanged.
pub open spec fn spec_ensure_canvas<P, S>(layer: LayerView<P, S>, w: u32, h: u32) -> LayerView<P, S> {
    if layer.kind != LayerKind::Raster || canvas_matches(layer, w, h) {
        layer
    } else {
        LayerView {
            raster_width: at_least_one(w),
            raster_height: at_least_one(h),
            raster_pixels_rgba: resized_canvas(layer.raster_pixels_rgba, layer.raster_width, layer.raster_height, w, h),
            ..layer
        }
    }
}

/// Byte `q * d + r` of a row-major buffer with rows of `d` bytes is in row `q`
/// at column `r`.
proof fn lemma_row_col(q: int, d: int, r: int)
    requires
        0 < d,
        0 <= r < d,
    ensures
        (q * d + r) / d == q,
        (q * d + r) % d == r,
{
    lemma_fundamental_div_mod_converse_div(q * d + r, d, q, r);
    lemma_fundamental_div_mod_converse_mod(q * d + r, d, q, r);
}

/// Makes a raster layer's canvas `width` by `height` pixels (each at least 1),
/// keeping the overlapping top-left pixels; other layers are left alone.
pub fn ensure_layer_raster_canvas<P, S>(layer: &mut Layer<P, S>, width: u32, height: u32)
    requires
        canvas_resize_fits(old(layer)@, width, height),
    ensures
        final(layer)@ == spec_ensure_canvas(old(layer)@, width, height),
{
    if layer.kind != LayerKind::Raster {
        return;
    }
    let width = if width == 0 { 1 } else { width };
    let height = if height == 0 { 1 } else { height };
    let pixels = (width as usize).checked_mul(height as usize).unwrap_or(usize::MAX);
    let needed = pixels.checked_mul(4).unwrap_or(usize::MAX);
    if layer.raster_width == width && layer.raster_height == height && layer.raster_pixels_rgba.len() == needed {
        return;
    }
    let ghost old_pixels = layer.raster_pixels_rgba@;
    let ghost ow = layer.raster_width as int;
    let ghost oh = layer.raster_height as int;
    let ghost w = width as int;
    let ghost h = height as int;
    let ghost d = 4 * w;
    let mut next: Vec<u8> = vec![0u8; needed];
    let copy_w = if layer.raster_width < width { layer.raster_width } else { width };
    let copy_h = if layer.raster_height < height { layer.raster_height } else { height };
    let len = (copy_w as u64) * 4;
    proof {
        assert forall|i: int| 0 <= i < needed implies #[trigger] next@[i] == copied_byte(
            old_pixels, ow, oh, w, h, needed as int, 0, 0, i) by {
            lemma_fundamental_div_mod(i, d);
            assert(next@[i] == 0u8);
        }
    }
    let mut y: u32 = 0;
    while y < copy_h
        invariant
            0 <= y <= copy_h,
            copy_h as int == min_int(oh, h),
            copy_w as int == min_int(ow, w),
            len == 4 * copy_w,
            ow == layer.raster_width,
            old_pixels == layer.raster_pixels_rgba@,
            1 <= width,
            w == width,
            d == 4 * w,
            next@.len() == needed,
            copy_h == 0 || ((copy_h - 1) * ow <= u32::MAX && (copy_h - 1) * w <= u32::MAX),
            forall|i: int| 0 <= i < needed ==> #[trigger] next@[i] == copied_byte(
                old_pixels, ow, oh, w, h, needed as int, y as int, 0, i),
        decreases copy_h - y,
    {
        proof {
            lemma_mul_inequality(y as int, copy_h - 1, ow);
            lemma_mul_inequality(y as int, copy_h - 1, w);
            lemma_mul_nonnegative(y as int, ow);
            lemma_mul_nonnegative(y as int, w);
        }
        let old_start = ((y as u64) * (layer.raster_width as u64)) * 4;
        let new_start = ((y as u64) * (width as u64)) * 4;
        if old_start + len <= layer.raster_pixels_rgba.len() as u64 && new_start + len <= next.len() as u64 {
            let os = old_start as usize;
            let ns = new_start as usize;
            let l = len as usize;
            let mut k: usize = 0;
            while k < l
                invariant
                    0 <= k <= l,
                    l == len,
                    len == 4 * copy_w,
                    copy_w as int == min_int(ow, w),
                    copy_h as int == min_int(oh, h),
                    y < copy_h,
                    os == 4 * (y * ow),
                    ns == 4 * (y * w),
                    os + l <= old_pixels.len(),
                    old_pixels.len() <= usize::MAX,
                    ns + l <= needed,
                    1 <= width,
                    w == width,
                    d == 4 * w,
                    old_pixels == layer.raster_pixels_rgba@,
                    next@.len() == needed,
                    forall|i: int| 0 <= i < needed ==> #[trigger] next@[i] == copied_byte(
                        old_pixels, ow, oh, w, h, needed as int, y as int, k as int, i),
                decreases l - k,
            {
                let ghost before = next@;
                let b = layer.raster_pixels_rgba[os + k];
                next.set(ns + k, b);
                proof {
                    let j = ns + k;
                    assert(4 * copy_w <= d);
                    assert(j == y * d + k) by (nonlinear_arith)
                        requires
                            ns == 4 * (y * w),
                            d == 4 * w,
                            j == ns + k,
                    ;
                    lemma_row_col(y as int, d, k as int);
                    assert forall|i: int| 0 <= i < needed implies #[trigger] next@[i] == copied_byte(
                        old_pixels, ow, oh, w, h, needed as int, y as int, k + 1, i) by {
                        lemma_fundamental_div_mod(i, d);
                        if i != j {
                            assert(before[i] == next@[i]);
                            if i / d == y as int && i % d == k as int {
                                assert(i == d * (y as int) + k);
                                assert(d * (y as int) == (y as int) * d) by (nonlinear_arith);
                            }
                        }
                    }
                }
                k = k + 1;
            }
        } else {
            proof {
                assert forall|i: int| 0 <= i < needed implies #[trigger] next@[i] == copied_byte(
                    old_pixels, ow, oh, w, h, needed as int, y + 1, 0, i) by {
                    lemma_fundamental_div_mod(i, d);
                }
            }
        }
        proof {
            assert forall|i: int| 0 <= i < needed implies #[trigger] next@[i] == copied_byte(
                old_pixels, ow, oh, w, h, needed as int, y + 1, 0, i) by {
                lemma_fundamental_div_mod(i, d);
            }
        }
        y = y + 1;
    }
    layer.raster_width = width;
    layer.raster_height = height;
    layer.raster_pixels_rgba = next;
    proof {
        assert(needed == canvas_bytes(width, height));
        assert(layer@.raster_pixels_rgba =~= resized_canvas(old_pixels, ow as u32, oh as u32, width, height));
    }
}

/// The document: its layers, the active one, the canvas size and the id the
/// next placed image gets.
#[derive(Debug, Clone)]
pub struct Document<P, S> {
    pub layers: Vec<Layer<P, S>>,
    pub active_layer: usize,
    pub canvas_width: S,
    pub canvas_height: S,
    pub next_image_id: u64,
}

/// The mathematical model of a document.
pub struct DocumentView<P, S> {
    pub layers: Seq<LayerView<P, S>>,
    pub active_layer: usize,
    pub canvas_width: S,
    pub canvas_height: S,
    pub next_image_id: u64,
}

/// The views of a list of layers.
pub open spec fn layer_views<P, S>(layers: Seq<Layer<P, S>>) -> Seq<LayerView<P, S>> {
    layers.map_values(|l: Layer<P, S>| l@)
}

impl<P, S> View for Document<P, S> {
    type V = DocumentView<P, S>;

    open spec fn view(&self) -> DocumentView<P, S> {
        DocumentView {
            layers: layer_views(self.layers@),
            active_layer: self.active_layer,
            canvas_width: self.canvas_width,
            canvas_height: self.canvas_height,
            next_image_id: self.next_image_id,
        }
    }
}

/// The vector layer that a new document, or a deleted last layer, starts with.
pub open spec fn first_layer<P, S>(stroke_width: S) -> LayerView<P, S> {
    fresh_layer("Layer 1"@, LayerKind::Vector, seq![empty_path_view::<P, S>(stroke_width)])
}

/// The `n`-th vector layer added to a document.
pub open spec fn added_vector_layer<P, S>(n: nat, stroke_width: S) -> LayerView<P, S> {
    fresh_layer("Vector Layer "@ + spec_decimal(n), LayerKind::Vector, seq![empty_path_view::<P, S>(stroke_width)])
}

/// The `n`-th raster layer added to a document, with a `w` by `h` canvas.
pub open spec fn added_raster_layer<P, S>(n: nat, w: u32, h: u32) -> LayerView<P, S> {
    spec_ensure_canvas(fresh_layer("Raster Layer "@ + spec_decimal(n), LayerKind::Raster, Seq::empty()), w, h)
}

/// `layers` with the entries at `a` and `a + 1` exchanged.
pub open spec fn swapped<T>(layers: Seq<T>, a: int) -> Seq<T> {
    layers.update(a, layers[a + 1]).update(a + 1, layers[a])
}

/// The document after `add_vector_layer`.
pub open spec fn spec_add_vector_layer<P, S>(d: DocumentView<P, S>, stroke_width: S) -> DocumentView<P, S> {
    DocumentView {
        layers: d.layers.push(added_vector_layer((d.layers.len() + 1) as nat, stroke_width)),
        active_layer: d.layers.len() as usize,
        ..d
    }
}

/// The document after `add_raster_layer`.
pub open spec fn spec_add_raster_layer<P, S>(d: DocumentView<P, S>, w: u32, h: u32) -> DocumentView<P, S> {
    DocumentView {
        layers: d.layers.push(added_raster_layer((d.layers.len() + 1) as nat, w, h)),
        active_layer: d.layers.len() as usize,
        ..d
    }
}

/// The document after `duplicate_active_layer`.
pub open spec fn spec_duplicate_active_layer<P, S>(d: DocumentView<P, S>) -> DocumentView<P, S> {
    if d.active_layer < d.layers.len() {
        DocumentView {
            layers: d.layers.insert(
                d.active_layer + 1,
                LayerView { name: d.layers[d.active_layer as int].name + " Copy"@, ..d.layers[d.active_layer as int] },
            ),
            active_layer: (d.active_layer + 1) as usize,
            ..d
        }
    } else {
        d
    }
}

/// The document after `delete_active_layer`.
pub open spec fn spec_delete_active_layer<P, S>(d: DocumentView<P, S>, stroke_width: S) -> DocumentView<P, S> {
    let n = d.layers.len();
    let a = d.active_layer;
    if n <= 1 {
        DocumentView { layers: d.layers.update(0, first_layer::<P, S>(stroke_width)), active_layer: 0, ..d }
    } else {
        DocumentView {
            layers: if a < n { d.layers.remove(a as int) } else { d.layers },
            active_layer: if a < n - 1 {
                a
            } else if a < n {
                (n - 2) as usize
            } else {
                (n - 1) as usize
            },
            ..d
        }
    }
}

/// The document after `move_active_layer_up`.
pub open spec fn spec_move_active_layer_up<P, S>(d: DocumentView<P, S>) -> DocumentView<P, S> {
    if d.active_layer + 1 < d.layers.len() {
        DocumentView {
            layers: swapped(d.layers, d.active_layer as int),
            active_layer: (d.active_layer + 1) as usize,
            ..d
        }
    } else {
        d
    }
}

/// The document after `move_active_layer_down`.
pub open spec fn spec_move_active_layer_down<P, S>(d: DocumentView<P, S>) -> DocumentView<P, S> {
    if 0 < d.active_layer < d.layers.len() {
        DocumentView {
            layers: swapped(d.layers, d.active_layer - 1),
            active_layer: (d.active_layer - 1) as usize,
            ..d
        }
    } else {
        d
    }
}

impl<P: Copy, S: Copy> Document<P, S> {
    /// A document with one vector layer holding one empty path.
    pub fn empty_path(canvas_width: S, canvas_height: S, stroke_width: S) -> (r: Self)
        ensures
            r@ == (DocumentView {
                layers: seq![first_layer::<P, S>(stroke_width)],
                active_layer: 0,
                canvas_width,
                canvas_height,
                next_image_id: 1,
            }),
    {
        let mut layers: Vec<Layer<P, S>> = Vec::new();
        layers.push(Layer::new("Layer 1".to_owned(), stroke_width));
        let r = Document { layers, active_layer: 0, canvas_width, canvas_height, next_image_id: 1 };
        assert(r@.layers =~= seq![first_layer::<P, S>(stroke_width)]);
        r
    }

    /// The active layer, if the index names one.
    pub fn active_layer(&self) -> (r: Option<&Layer<P, S>>)
        ensures
            match r {
                Some(l) => self.active_layer < self.layers@.len() && *l == self.layers@[self.active_layer as int],
                None => self.active_layer >= self.layers@.len(),
            },
    {
        if self.active_layer < self.layers.len() {
            Some(&self.layers[self.active_layer])
        } else {
            None
        }
    }

    /// The paths of the active layer; none when there is no active layer.
    pub fn active_paths(&self) -> (r: &[PPWPath<P, S>])
        ensures
            self.active_layer < self.layers@.len() ==> r@ == self.layers@[self.active_layer as int].paths@,
            self.active_layer >= self.layers@.len() ==> r@.len() == 0,
    {
        if self.active_layer < self.layers.len() {
            self.layers[self.active_layer].paths.as_slice()
        } else {
            &[]
        }
    }

    /// Adds a vector layer (see `add_vector_layer`).
    pub fn add_layer(&mut self, stroke_width: S)
        requires
            old(self).layers@.len() < usize::MAX,
        ensures
            final(self)@ == spec_add_vector_layer(old(self)@, stroke_width),
    {
        self.add_vector_layer(stroke_width);
    }

    /// Appends a vector layer named after its position ("Vector Layer 2", ...)
    /// holding one empty path, and makes it active.
    pub fn add_vector_layer(&mut self, stroke_width: S)
        requires
            old(self).layers@.len() < usize::MAX,
        ensures
            final(self)@ == spec_add_vector_layer(old(self)@, stroke_width),
    {
        let count = self.layers.len();
        let name = numbered_name("Vector Layer ", count as u64 + 1);
        let ghost before = self.layers@;
        self.layers.push(Layer::new(name, stroke_width));
        self.active_layer = count;
        assert(layer_views(self.layers@) =~= layer_views(before).push(
            added_vector_layer((before.len() + 1) as nat, stroke_width),
        ));
    }

    /// Appends a raster layer named after its position ("Raster Layer 2", ...)
    /// with a transparent `width` by `height` canvas, and makes it active.
    pub fn add_raster_layer(&mut self, width: u32, height: u32)
        requires
            old(self).layers@.len() < usize::MAX,
        ensures
            final(self)@ == spec_add_raster_layer(old(self)@, width, height),
    {
        let count = self.layers.len();
        let name = numbered_name("Raster Layer ", count as u64 + 1);
        let mut layer: Layer<P, S> = Layer::new_raster(name);
        ensure_layer_raster_canvas(&mut layer, width, height);
        let ghost before = self.layers@;
        self.layers.push(layer);
        self.active_layer = count;
        assert(layer_views(self.layers@) =~= layer_views(before).push(
            added_raster_layer((before.len() + 1) as nat, width, height),
        ));
    }

    /// Inserts a copy of the active layer, named with " Copy" appended, right
    /// after it and makes the copy active; without an active layer nothing
    /// changes.
    pub fn duplicate_active_layer(&mut self)
        ensures
            final(self)@ == spec_duplicate_active_layer(old(self)@),
    {
        if self.active_layer < self.layers.len() {
            let a = self.active_layer;
            let mut copy = self.layers[a].duplicate();
            copy.name = with_suffix(self.layers[a].name.as_str(), " Copy");
            let ghost before = self.layers@;
            let ghost copy_view = copy@;
            self.layers.insert(a + 1, copy);
            self.active_layer = a + 1;
            assert(layer_views(self.layers@) =~= layer_views(before).insert(a + 1, copy_view));
        }
    }

    /// Removes the active layer and keeps the index in range; the last layer
    /// is replaced by a fresh "Layer 1" instead. (Panics on a document without
    /// layers, which `requires` rules out.)
    pub fn delete_active_layer(&mut self, stroke_width: S)
        requires
            old(self).layers@.len() >= 1,
        ensures
            final(self)@ == spec_delete_active_layer(old(self)@, stroke_width),
    {
        if self.layers.len() <= 1 {
            self.layers.set(0, Layer::new("Layer 1".to_owned(), stroke_width));
            self.active_layer = 0;
            assert(layer_views(self.layers@) =~= layer_views(old(self).layers@).update(0, first_layer::<P, S>(stroke_width)));
            return;
        }
        let ghost before = self.layers@;
        if self.active_layer < self.layers.len() {
            self.layers.remove(self.active_layer);
            assert(layer_views(self.layers@) =~= layer_views(before).remove(old(self).active_layer as int));
        }
        let last = self.layers.len() - 1;
        if self.active_layer > last {
            self.active_layer = last;
        }
    }

    /// Moves the active layer one place up (towards the end of the list) with
    /// the index following it; the top layer stays.
    pub fn move_active_layer_up(&mut self)
        ensures
            final(self)@ == spec_move_active_layer_up(old(self)@),
    {
        let n = self.layers.len();
        if n > 0 && self.active_layer < n - 1 {
            let a = self.active_layer;
            let ghost before = self.layers@;
            let upper = self.layers.remove(a + 1);
            self.layers.insert(a, upper);
            self.active_layer = a + 1;
            assert(layer_views(self.layers@) =~= swapped(layer_views(before), a as int));
        }
    }

    /// Moves the active layer one place down (towards the start of the list)
    /// with the index following it; the bottom layer stays. (Panics when the
    /// index is past the layers, which `requires` rules out.)
    pub fn move_active_layer_down(&mut self)
        requires
            old(self).active_layer == 0 || old(self).active_layer < old(self)@.layers.len(),
        ensures
            final(self)@ == spec_move_active_layer_down(old(self)@),
    {
        if self.active_layer > 0 {
            let a = self.active_layer;
            let ghost before = self.layers@;
            let upper = self.layers.remove(a);
            self.layers.insert(a - 1, upper);
            self.active_layer = a - 1;
            assert(layer_views(self.layers@) =~= swapped(layer_views(before), a - 1));
        }
    }
}

/// The document after `add_image_to_active_layer` placed `image` (whose id
/// is the document's next id): the next id moves on (saturating), and the image
/// is appended to the active layer unless there is none or it is locked.
pub open spec fn spec_add_image<P, S>(d: DocumentView<P, S>, image: ImageView<P, S>) -> DocumentView<P, S> {
    let next = if d.next_image_id == u64::MAX { u64::MAX } else { (d.next_image_id + 1) as u64 };
    let a = d.active_layer as int;
    if a < d.layers.len() && !d.layers[a].locked {
        DocumentView {
            layers: d.layers.update(a, LayerView { images: d.layers[a].images.push(image), ..d.layers[a] }),
            next_image_id: next,
            ..d
        }
    } else {
        DocumentView { next_image_id: next, ..d }
    }
}

/// The point positions removed from path `j` by `remove_selected_points`: those
/// the selected nodes name on it or, with no node selected, the fallback points
/// when `j` is the fallback path.
pub open spec fn removal_positions(
    nodes: Seq<PointSelection>,
    fallback_path: usize,
    fallback_points: Seq<usize>,
    j: int,
) -> Set<int> {
    if nodes.len() == 0 {
        if j == fallback_path {
            Set::new(|i: int| exists|k: int| 0 <= k < fallback_points.len() && fallback_points[k] == i)
        } else {
            Set::empty()
        }
    } else {
        Set::new(|i: int| exists|k: int| 0 <= k < nodes.len() && nodes[k].path_index == j && nodes[k].point_index == i)
    }
}

/// `p` without the control points (and weights) at `rm`, refitted; unchanged when
/// `rm` is empty.
pub open spec fn path_without_points<P, S>(p: PathView<P, S>, rm: Set<int>, d: SegmentDefaults<S>) -> PathView<P, S> {
    if rm == Set::<int>::empty() {
        p
    } else {
        spec_rebuilt(
            PathView {
                control_points: without_positions(p.control_points, rm),
                weights: without_positions(p.weights, rm),
                ..p
            },
            d,
        )
    }
}

/// The document after `remove_selected_points`.
pub open spec fn spec_remove_selected_points<P, S>(
    doc: DocumentView<P, S>,
    fallback_path: usize,
    fallback_points: Seq<usize>,
    nodes: Seq<PointSelection>,
    d: SegmentDefaults<S>,
) -> DocumentView<P, S> {
    let a = doc.active_layer as int;
    if a < doc.layers.len() {
        let layer = doc.layers[a];
        DocumentView {
            layers: doc.layers.update(
                a,
                LayerView {
                    paths: Seq::new(
                        layer.paths.len(),
                        |j: int| path_without_points(layer.paths[j], removal_positions(nodes, fallback_path, fallback_points, j), d),
                    ),
                    ..layer
                },
            ),
            ..doc
        }
    } else {
        doc
    }
}

/// The document after `ensure_active_raster_canvas`.
pub open spec fn spec_ensure_active_canvas<P, S>(d: DocumentView<P, S>, w: u32, h: u32) -> DocumentView<P, S> {
    let a = d.active_layer as int;
    if a < d.layers.len() {
        DocumentView { layers: d.layers.update(a, spec_ensure_canvas(d.layers[a], w, h)), ..d }
    } else {
        d
    }
}

impl<P: Copy, S: Copy> Document<P, S> {
    /// Places an RGBA image at `pos` with display `size` and `rotation` on the
    /// active layer, giving it the next image id, and returns its index in the
    /// layer and its id; `None` when there is no active layer or it is locked.
    /// The next id moves on (saturating) either way.
    pub fn add_image_to_active_layer(
        &mut self,
        name: String,
        pixels_rgba: Vec<u8>,
        width: u32,
        height: u32,
        pos: P,
        size: P,
        rotation: S,
    ) -> (r: Option<(usize, u64)>)
        ensures
            final(self)@ == spec_add_image(
                old(self)@,
                ImageView {
                    id: old(self).next_image_id,
                    name: name@,
                    pixels_rgba: pixels_rgba@,
                    width,
                    height,
                    pos,
                    size,
                    rotation,
                },
            ),
            (old(self).active_layer < old(self)@.layers.len() && !old(self)@.layers[old(self).active_layer as int].locked)
                ==> r == Some((old(self)@.layers[old(self).active_layer as int].images.len() as usize, old(self).next_image_id)),
            !(old(self).active_layer < old(self)@.layers.len() && !old(self)@.layers[old(self).active_layer as int].locked)
                ==> r is None,
    {
        let id = self.next_image_id;
        self.next_image_id = self.next_image_id.saturating_add(1);
        let a = self.active_layer;
        if a >= self.layers.len() {
            return None;
        }
        if self.layers[a].locked {
            return None;
        }
        let image = RasterImage { id, name, pixels_rgba, width, height, pos, size, rotation };
        let ghost before = self.layers@;
        let ghost image_view = image@;
        let layer = &mut self.layers[a];
        layer.images.push(image);
        let index = layer.images.len() - 1;
        proof {
            assert(image_views(self.layers@[a as int].images@) =~= image_views(before[a as int].images@).push(image_view));
            assert(layer_views(self.layers@) =~= layer_views(before).update(
                a as int,
                LayerView { images: image_views(before[a as int].images@).push(image_view), ..before[a as int]@ },
            ));
        }
        Some((index, id))
    }
}

impl<P: Copy, S: Copy> Document<P, S> {
    /// Deletes the selected control points from the paths of the active layer:
    /// the points each selected node names on its path or, with no node
    /// selected, `fallback_points` on path `fallback_path_index`. Every path
    /// that loses points is refitted with `d`; paths the selection does not
    /// touch, and a document without an active layer, stay as they are.
    pub fn remove_selected_points(
        &mut self,
        fallback_path_index: usize,
        fallback_points: &[usize],
        selected_nodes: &[PointSelection],
        d: SegmentDefaults<S>,
    )
        ensures
            final(self)@ == spec_remove_selected_points(old(self)@, fallback_path_index, fallback_points@, selected_nodes@, d),
    {
        let a = self.active_layer;
        if a >= self.layers.len() {
            return;
        }
        let ghost old_layer = self.layers@[a as int]@;
        let ghost before = self.layers@;
        let ghost want = Seq::new(
            old_layer.paths.len(),
            |j: int| path_without_points(
                old_layer.paths[j],
                removal_positions(selected_nodes@, fallback_path_index, fallback_points@, j),
                d,
            ),
        );
        let layer = &mut self.layers[a];
        let count = layer.paths.len();
        let mut j: usize = 0;
        while j < count
            invariant
                0 <= j <= count,
                count == old_layer.paths.len(),
                layer.paths@.len() == count,
                layer@.paths.len() == count,
                want.len() == count,
                forall|q: int| 0 <= q < count ==> #[trigger] want[q] == path_without_points(
                    old_layer.paths[q],
                    removal_positions(selected_nodes@, fallback_path_index, fallback_points@, q),
                    d,
                ),
                layer@ == (LayerView { paths: layer@.paths, ..old_layer }),
                forall|q: int| 0 <= q < j ==> #[trigger] layer@.paths[q] == want[q],
                forall|q: int| j <= q < count ==> #[trigger] layer@.paths[q] == old_layer.paths[q],
            decreases count - j,
        {
            let ghost rm = removal_positions(selected_nodes@, fallback_path_index, fallback_points@, j as int);
            let ghost paths_before = layer.paths@;
            assert(layer@.paths[j as int] == old_layer.paths[j as int]);
            assert(paths_before[j as int]@ == old_layer.paths[j as int]);
            if selected_nodes.len() == 0 {
                if j == fallback_path_index && fallback_points.len() > 0 {
                    let path = &mut layer.paths[j];
                    path.remove_points(fallback_points, d);
                    proof {
                        assert(fallback_points@.contains(fallback_points@[0]));
                        assert(rm.contains(fallback_points@[0] as int));
                        assert(rm != Set::<int>::empty());
                        assert(paths_before[j as int]@ == old_layer.paths[j as int]);
                        assert(layer.paths@[j as int]@ == want[j as int]);
                    }
                } else {
                    proof {
                        assert(rm =~= Set::<int>::empty());
                        assert(paths_before[j as int]@ == old_layer.paths[j as int]);
                        assert(layer.paths@[j as int]@ == want[j as int]);
                    }
                }
            } else {
                let points = points_of_path(selected_nodes, j);
                let ghost pset = Set::new(|i: int| exists|k: int| 0 <= k < points@.len() && points@[k] == i);
                proof {
                    assert forall|i: int| pset.contains(i) <==> rm.contains(i) by {
                        if pset.contains(i) {
                            let k = choose|k: int| 0 <= k < points@.len() && points@[k] == i;
                            assert(points@.contains(points@[k]));
                            assert(selected_on_path(selected_nodes@, j, points@[k]));
                        }
                        if rm.contains(i) {
                            let k = choose|k: int| 0 <= k < selected_nodes@.len() && selected_nodes@[k].path_index == j
                                && selected_nodes@[k].point_index == i;
                            let pt = selected_nodes@[k].point_index;
                            assert(selected_on_path(selected_nodes@, j, pt));
                            assert(points@.contains(pt));
                        }
                    }
                    assert(pset =~= rm);
                }
                if points.len() > 0 {
                    let path = &mut layer.paths[j];
                    path.remove_points(points.as_slice(), d);
                    proof {
                        assert(pset.contains(points@[0] as int));
                        assert(rm != Set::<int>::empty());
                        assert(paths_before[j as int]@ == old_layer.paths[j as int]);
                        assert(layer.paths@[j as int]@ == want[j as int]);
                    }
                } else {
                    proof {
                        assert(pset =~= Set::<int>::empty());
                        assert(paths_before[j as int]@ == old_layer.paths[j as int]);
                        assert(layer.paths@[j as int]@ == want[j as int]);
                    }
                }
            }
            proof {
                assert(path_views(layer.paths@) =~= path_views(paths_before).update(j as int, want[j as int]));
            }
            j = j + 1;
        }
        proof {
            assert(layer@.paths =~= want);
            assert(layer_views(self.layers@) =~= layer_views(before).update(a as int, LayerView { paths: want, ..old_layer }));
        }
    }

    /// Fits the active layer's canvas to `width` by `height` (see
    /// `ensure_layer_raster_canvas`); other layers, and vector layers, are not touched.
    pub fn ensure_active_raster_canvas(&mut self, width: u32, height: u32)
        requires
            old(self).active_layer < old(self)@.layers.len() ==> canvas_resize_fits(
                old(self)@.layers[old(self).active_layer as int],
                width,
                height,
            ),
        ensures
            final(self)@ == spec_ensure_active_canvas(old(self)@, width, height),
    {
        let a = self.active_layer;
        if a < self.layers.len() {
            let ghost before = self.layers@;
            if self.layers[a].kind == LayerKind::Raster {
                let layer = &mut self.layers[a];
                ensure_layer_raster_canvas(layer, width, height);
                assert(layer_views(self.layers@) =~= layer_views(before).update(
                    a as int,
                    spec_ensure_canvas(before[a as int]@, width, height),
                ));
            } else {
                assert(layer_views(self.layers@) =~= layer_views(before).update(
                    a as int,
                    spec_ensure_canvas(before[a as int]@, width, height),
                ));
            }
        }
    }
}

/// The largest id of the images (0 for none).
pub open spec fn max_id_of_images<P, S>(images: Seq<ImageView<P, S>>) -> u64
    decreases images.len(),
{
    if images.len() == 0 {
        0
    } else {
        let m = max_id_of_images(images.drop_last());
        if images.last().id > m { images.last().id } else { m }
    }
}

/// The largest id of the images on the layers (0 for none).
pub open spec fn max_image_id<P, S>(layers: Seq<LayerView<P, S>>) -> u64
    decreases layers.len(),
{
    if layers.len() == 0 {
        0
    } else {
        let m = max_image_id(layers.drop_last());
        let k = max_id_of_images(layers.last().images);
        if k > m { k } else { m }
    }
}

/// A layer as `normalize` leaves it: a vector layer gets an empty path if it
/// has none, and every path is refitted with `d`; a raster layer loses its
/// paths and gets a `w` by `h` canvas.
pub open spec fn normalized_layer<P, S>(
    layer: LayerView<P, S>,
    w: u32,
    h: u32,
    stroke_width: S,
    d: SegmentDefaults<S>,
) -> LayerView<P, S> {
    match layer.kind {
        LayerKind::Vector => {
            let paths = if layer.paths.len() == 0 { seq![empty_path_view::<P, S>(stroke_width)] } else { layer.paths };
            LayerView { paths: paths.map_values(|p: PathView<P, S>| spec_rebuilt(p, d)), ..layer }
        },
        LayerKind::Raster => spec_ensure_canvas(LayerView { paths: Seq::empty(), ..layer }, w, h),
    }
}

/// The document after `normalize`.
pub open spec fn spec_normalize<P, S>(
    doc: DocumentView<P, S>,
    w: u32,
    h: u32,
    stroke_width: S,
    d: SegmentDefaults<S>,
) -> DocumentView<P, S> {
    let layers = if doc.layers.len() == 0 { seq![first_layer::<P, S>(stroke_width)] } else { doc.layers };
    let active = if doc.layers.len() == 0 { 0 } else { doc.active_layer };
    let m = max_image_id(layers);
    let after_max = if m == u64::MAX { u64::MAX } else { (m + 1) as u64 };
    DocumentView {
        layers: layers.map_values(|l: LayerView<P, S>| normalized_layer(l, w, h, stroke_width, d)),
        active_layer: if active < layers.len() { active } else { (layers.len() - 1) as usize },
        next_image_id: if doc.next_image_id >= after_max { doc.next_image_id } else { after_max },
        ..doc
    }
}

/// Whether every raster layer's canvas can be resized to `w` by `h` (see
/// `canvas_resize_fits`).
pub open spec fn canvases_resize_fit<P, S>(layers: Seq<LayerView<P, S>>, w: u32, h: u32) -> bool {
    forall|i: int| 0 <= i < layers.len() && (#[trigger] layers[i]).kind == LayerKind::Raster ==> canvas_resize_fits(layers[i], w, h)
}

/// Brings one layer into the shape `normalize` promises.
fn normalize_layer<P: Copy, S: Copy>(layer: &mut Layer<P, S>, w: u32, h: u32, stroke_width: S, d: SegmentDefaults<S>)
    requires
        old(layer)@.kind == LayerKind::Raster ==> canvas_resize_fits(old(layer)@, w, h),
    ensures
        final(layer)@ == normalized_layer(old(layer)@, w, h, stroke_width, d),
{
    match layer.kind {
        LayerKind::Vector => {
            if layer.paths.len() == 0 {
                layer.paths.push(PPWPath::empty(stroke_width));
                assert(layer@.paths =~= seq![empty_path_view::<P, S>(stroke_width)]);
            }
            let ghost start = layer@;
            let count = layer.paths.len();
            let mut j: usize = 0;
            while j < count
                invariant
                    0 <= j <= count,
                    count == start.paths.len(),
                    layer.paths@.len() == count,
                    layer@.paths.len() == count,
                    layer@ == (LayerView { paths: layer@.paths, ..start }),
                    forall|q: int| 0 <= q < j ==> #[trigger] layer@.paths[q] == spec_rebuilt(start.paths[q], d),
                    forall|q: int| j <= q < count ==> #[trigger] layer@.paths[q] == start.paths[q],
                decreases count - j,
            {
                let ghost before = layer.paths@;
                assert(layer@.paths[j as int] == start.paths[j as int]);
                let path = &mut layer.paths[j];
                path.rebuild_open_segment_params(d);
                assert(path_views(layer.paths@) =~= path_views(before).update(j as int, spec_rebuilt(start.paths[j as int], d)));
                j = j + 1;
            }
            assert(layer@.paths =~= start.paths.map_values(|p: PathView<P, S>| spec_rebuilt(p, d)));
        },
        LayerKind::Raster => {
            layer.paths.clear();
            assert(layer@.paths =~= Seq::<PathView<P, S>>::empty());
            ensure_layer_raster_canvas(layer, w, h);
        },
    }
}

impl<P: Copy, S: Copy> Document<P, S> {
    /// Repairs a document (after loading): guarantees a layer, an active index
    /// in range and a next image id above every image id (unless saturated),
    /// gives vector layers a path and refits every path with `d`, and clears
    /// the paths of raster layers while fitting their canvases to `width` by
    /// `height`.
    pub fn normalize(&mut self, width: u32, height: u32, stroke_width: S, d: SegmentDefaults<S>)
        requires
            canvases_resize_fit(old(self)@.layers, width, height),
        ensures
            final(self)@ == spec_normalize(old(self)@, width, height, stroke_width, d),
    {
        if self.layers.len() == 0 {
            self.layers.push(Layer::new("Layer 1".to_owned(), stroke_width));
            self.active_layer = 0;
            assert(layer_views(self.layers@) =~= seq![first_layer::<P, S>(stroke_width)]);
        }
        let count = self.layers.len();
        if self.active_layer >= count {
            self.active_layer = count - 1;
        }
        let ghost layers0 = self@.layers;
        let mut max_id: u64 = 0;
        let mut i: usize = 0;
        while i < count
            invariant
                0 <= i <= count,
                count == self.layers@.len(),
                layers0 == layer_views(self.layers@),
                max_id == max_image_id(layers0.take(i as int)),
            decreases count - i,
        {
            let images = &self.layers[i].images;
            let mut best: u64 = 0;
            let mut k: usize = 0;
            while k < images.len()
                invariant
                    0 <= k <= images@.len(),
                    best == max_id_of_images(image_views(images@).take(k as int)),
                decreases images@.len() - k,
            {
                if images[k].id > best {
                    best = images[k].id;
                }
                proof {
                    assert(image_views(images@).take(k + 1).drop_last() =~= image_views(images@).take(k as int));
                }
                k = k + 1;
            }
            proof {
                assert(image_views(images@).take(images@.len() as int) =~= image_views(images@));
                assert(layers0.take(i + 1).drop_last() =~= layers0.take(i as int));
            }
            if best > max_id {
                max_id = best;
            }
            i = i + 1;
        }
        assert(layers0.take(count as int) =~= layers0);
        let after_max = max_id.saturating_add(1);
        if self.next_image_id < after_max {
            self.next_image_id = after_max;
        }
        let ghost active0 = self.active_layer;
        let ghost next0 = self.next_image_id;
        let ghost pre = self@;
        let mut j: usize = 0;
        while j < count
            invariant
                0 <= j <= count,
                self.active_layer == active0,
                self.next_image_id == next0,
                self.canvas_width == pre.canvas_width,
                self.canvas_height == pre.canvas_height,
                pre.canvas_width == old(self).canvas_width,
                pre.canvas_height == old(self).canvas_height,
                count == self.layers@.len(),
                count == layers0.len(),
                canvases_resize_fit(layers0, width, height),
                forall|q: int| 0 <= q < j ==> #[trigger] layer_views(self.layers@)[q] == normalized_layer(
                    layers0[q], width, height, stroke_width, d),
                forall|q: int| j <= q < count ==> #[trigger] layer_views(self.layers@)[q] == layers0[q],
            decreases count - j,
        {
            let ghost before = self.layers@;
            assert(layer_views(self.layers@)[j as int] == layers0[j as int]);
            let layer = &mut self.layers[j];
            normalize_layer(layer, width, height, stroke_width, d);
            assert(layer_views(self.layers@) =~= layer_views(before).update(
                j as int,
                normalized_layer(layers0[j as int], width, height, stroke_width, d),
            ));
            j = j + 1;
        }
        assert(layer_views(self.layers@) =~= layers0.map_values(
            |l: LayerView<P, S>| normalized_layer(l, width, height, stroke_width, d),
        ));
        assert(layers0 == (if old(self)@.layers.len() == 0 { seq![first_layer::<P, S>(stroke_width)] } else { old(self)@.layers }));
    }
}

/// A document whose active index names one of its layers.
pub open spec fn doc_valid<P, S>(d: DocumentView<P, S>) -> bool {
    d.layers.len() >= 1 && d.active_layer < d.layers.len()
}

/// Moving the active layer up and then down again restores the document.
pub proof fn lemma_layer_up_then_down<P, S>(d: DocumentView<P, S>)
    requires
        d.layers.len() <= usize::MAX,
        d.active_layer + 1 < d.layers.len(),
    ensures
        spec_move_active_layer_down(spec_move_active_layer_up(d)) == d,
{
    let a = d.active_layer as int;
    let up = spec_move_active_layer_up(d);
    assert(up.active_layer == a + 1);
    assert(0 < up.active_layer < up.layers.len());
    assert(swapped(swapped(d.layers, a), a) =~= d.layers);
    let down = spec_move_active_layer_down(up);
    assert(down.layers == d.layers);
    assert(down.active_layer == d.active_layer);
}

/// Moving the active layer down and then up again restores the document.
pub proof fn lemma_layer_down_then_up<P, S>(d: DocumentView<P, S>)
    requires
        0 < d.active_layer < d.layers.len(),
    ensures
        spec_move_active_layer_up(spec_move_active_layer_down(d)) == d,
{
    let a = d.active_layer - 1;
    assert(swapped(swapped(d.layers, a), a) =~= d.layers);
}

/// Every layer operation keeps a valid document valid: it still has a layer
/// and its active index names one.
pub proof fn lemma_layer_operations_keep_document_valid<P, S>(
    d: DocumentView<P, S>,
    stroke_width: S,
    w: u32,
    h: u32,
    image: ImageView<P, S>,
    fallback_path: usize,
    fallback_points: Seq<usize>,
    nodes: Seq<PointSelection>,
    defaults: SegmentDefaults<S>,
)
    requires
        doc_valid(d),
    ensures
        doc_valid(spec_add_vector_layer(d, stroke_width)),
        doc_valid(spec_add_raster_layer(d, w, h)),
        doc_valid(spec_duplicate_active_layer(d)),
        doc_valid(spec_delete_active_layer(d, stroke_width)),
        doc_valid(spec_move_active_layer_up(d)),
        doc_valid(spec_move_active_layer_down(d)),
        doc_valid(spec_add_image(d, image)),
        doc_valid(spec_remove_selected_points(d, fallback_path, fallback_points, nodes, defaults)),
        doc_valid(spec_ensure_active_canvas(d, w, h)),
{
}

/// Normalizing yields a valid document.
pub proof fn lemma_normalize_valid<P, S>(d: DocumentView<P, S>, w: u32, h: u32, stroke_width: S, defaults: SegmentDefaults<S>)
    ensures
        doc_valid(spec_normalize(d, w, h, stroke_width, defaults)),
{
}

/// Every image id is at most the largest id of its list.
proof fn lemma_id_at_most_max_of_images<P, S>(images: Seq<ImageView<P, S>>, k: int)
    requires
        0 <= k < images.len(),
    ensures
        images[k].id <= max_id_of_images(images),
    decreases images.len(),
{
    if k < images.len() - 1 {
        lemma_id_at_most_max_of_images(images.drop_last(), k);
    }
}

/// Every image id on the layers is at most `max_image_id`.
proof fn lemma_id_at_most_max<P, S>(layers: Seq<LayerView<P, S>>, i: int, k: int)
    requires
        0 <= i < layers.len(),
        0 <= k < layers[i].images.len(),
    ensures
        layers[i].images[k].id <= max_image_id(layers),
    decreases layers.len(),
{
    if i < layers.len() - 1 {
        lemma_id_at_most_max(layers.drop_last(), i, k);
    } else {
        lemma_id_at_most_max_of_images(layers[i].images, k);
    }
}

/// After normalizing, every image id is below the next image id, unless that
/// id has reached `u64::MAX`.
pub proof fn lemma_normalize_ids_fresh<P, S>(
    d: DocumentView<P, S>,
    w: u32,
    h: u32,
    stroke_width: S,
    defaults: SegmentDefaults<S>,
)
    ensures
        ({
            let n = spec_normalize(d, w, h, stroke_width, defaults);
            forall|i: int, k: int|
                0 <= i < n.layers.len() && 0 <= k < n.layers[i].images.len() ==> #[trigger] n.layers[i].images[k].id
                    < n.next_image_id || n.next_image_id == u64::MAX
        }),
{
    let n = spec_normalize(d, w, h, stroke_width, defaults);
    let layers = if d.layers.len() == 0 { seq![first_layer::<P, S>(stroke_width)] } else { d.layers };
    assert forall|i: int, k: int|
        0 <= i < n.layers.len() && 0 <= k < n.layers[i].images.len() implies #[trigger] n.layers[i].images[k].id
            < n.next_image_id || n.next_image_id == u64::MAX by {
        assert(n.layers[i].images == layers[i].images);
        lemma_id_at_most_max(layers, i, k);
    }
}

/// Two lists of layers with the same images have the same largest image id.
proof fn lemma_max_image_id_same_images<P, S>(a: Seq<LayerView<P, S>>, b: Seq<LayerView<P, S>>)
    requires
        a.len() == b.len(),
        forall|i: int| 0 <= i < a.len() ==> #[trigger] a[i].images == b[i].images,
    ensures
        max_image_id(a) == max_image_id(b),
    decreases a.len(),
{
    if a.len() > 0 {
        lemma_max_image_id_same_images(a.drop_last(), b.drop_last());
        assert(a.last().images == b.last().images);
    }
}

/// `resized` gives `n` entries, and resizing again to `n` keeps them.
proof fn lemma_resized_twice<T>(s: Seq<T>, n: int, x: T)
    requires
        0 <= n,
    ensures
        crate::path::resized(s, n, x).len() == n,
        crate::path::resized(crate::path::resized(s, n, x), n, x) == crate::path::resized(s, n, x),
{
    let r = crate::path::resized(s, n, x);
    assert(r.take(n) =~= r);
}

/// Refitting a path twice is the same as once.
pub proof fn lemma_rebuilt_idempotent<P, S>(p: PathView<P, S>, d: SegmentDefaults<S>)
    ensures
        spec_rebuilt(spec_rebuilt(p, d), d) == spec_rebuilt(p, d),
{
    let n = p.control_points.len() as int;
    let sc = crate::path::segment_count(n, p.is_closed);
    lemma_resized_twice(p.weights, n, d.weight);
    lemma_resized_twice(p.phis, sc, d.phi);
    lemma_resized_twice(p.psis, sc, d.psi);
}

/// Normalizing a layer twice is the same as once.
proof fn lemma_normalized_layer_idempotent<P, S>(
    l: LayerView<P, S>,
    w: u32,
    h: u32,
    stroke_width: S,
    d: SegmentDefaults<S>,
)
    ensures
        normalized_layer(normalized_layer(l, w, h, stroke_width, d), w, h, stroke_width, d) == normalized_layer(
            l,
            w,
            h,
            stroke_width,
            d,
        ),
        normalized_layer(l, w, h, stroke_width, d).images == l.images,
        normalized_layer(l, w, h, stroke_width, d).kind == l.kind,
        normalized_layer(l, w, h, stroke_width, d).kind == LayerKind::Raster ==> canvas_matches(
            normalized_layer(l, w, h, stroke_width, d),
            w,
            h,
        ),
{
    let once = normalized_layer(l, w, h, stroke_width, d);
    match l.kind {
        LayerKind::Vector => {
            let paths = if l.paths.len() == 0 { seq![empty_path_view::<P, S>(stroke_width)] } else { l.paths };
            let p1 = paths.map_values(|p: PathView<P, S>| spec_rebuilt(p, d));
            assert(once.paths == p1);
            assert(p1.len() > 0);
            assert forall|j: int| 0 <= j < p1.len() implies #[trigger] spec_rebuilt(p1[j], d) == p1[j] by {
                lemma_rebuilt_idempotent(paths[j], d);
            }
            assert(p1.map_values(|p: PathView<P, S>| spec_rebuilt(p, d)) =~= p1);
        },
        LayerKind::Raster => {
            let cleared = LayerView { paths: Seq::<PathView<P, S>>::empty(), ..l };
            assert(once == spec_ensure_canvas(cleared, w, h));
            assert(canvas_matches(once, w, h));
            assert(once.paths =~= Seq::<PathView<P, S>>::empty());
            assert(LayerView { paths: Seq::<PathView<P, S>>::empty(), ..once } == once);
        },
    }
}

/// Normalizing twice is the same as once, and a normalized document meets
/// `normalize`'s precondition again.
pub proof fn lemma_normalize_idempotent<P, S>(
    d: DocumentView<P, S>,
    w: u32,
    h: u32,
    stroke_width: S,
    defaults: SegmentDefaults<S>,
)
    ensures
        canvases_resize_fit(spec_normalize(d, w, h, stroke_width, defaults).layers, w, h),
        spec_normalize(spec_normalize(d, w, h, stroke_width, defaults), w, h, stroke_width, defaults) == spec_normalize(
            d,
            w,
            h,
            stroke_width,
            defaults,
        ),
{
    let n = spec_normalize(d, w, h, stroke_width, defaults);
    let layers = if d.layers.len() == 0 { seq![first_layer::<P, S>(stroke_width)] } else { d.layers };
    assert forall|i: int| 0 <= i < layers.len() implies #[trigger] n.layers[i] == normalized_layer(
        layers[i], w, h, stroke_width, defaults) && n.layers[i].images == layers[i].images && normalized_layer(
        n.layers[i], w, h, stroke_width, defaults) == n.layers[i] && (n.layers[i].kind == LayerKind::Raster
        ==> canvas_matches(n.layers[i], w, h)) by {
        lemma_normalized_layer_idempotent(layers[i], w, h, stroke_width, defaults);
    }
    lemma_max_image_id_same_images(n.layers, layers);
    let nn = spec_normalize(n, w, h, stroke_width, defaults);
    assert(nn.layers =~= n.layers);
}

/// Whether fitting `layer`'s canvas to `width` by `height` is safe (see
/// `canvas_resize_fits`); callers outside this crate test it first.
pub fn canvas_resize_is_safe<P, S>(layer: &Layer<P, S>, width: u32, height: u32) -> (r: bool)
    ensures
        r == canvas_resize_fits(layer@, width, height),
{
    if layer.kind != LayerKind::Raster {
        return true;
    }
    let w1 = if width == 0 { 1 } else { width };
    let h1 = if height == 0 { 1 } else { height };
    let pixels = (w1 as usize).checked_mul(h1 as usize).unwrap_or(usize::MAX);
    let needed = pixels.checked_mul(4).unwrap_or(usize::MAX);
    if layer.raster_width == w1 && layer.raster_height == h1 && layer.raster_pixels_rgba.len() == needed {
        return true;
    }
    let rows: u64 = if layer.raster_height < h1 { layer.raster_height as u64 } else { h1 as u64 };
    if rows == 0 {
        return true;
    }
    let limit: u64 = 0xffff_ffff;
    let r1 = rows - 1;
    let ow = layer.raster_width as u64;
    let nw = w1 as u64;
    assert(r1 * ow <= 0xffff_ffff * 0xffff_ffff) by (nonlinear_arith)
        requires
            r1 <= 0xffff_ffff,
            ow <= 0xffff_ffff,
    ;
    assert(r1 * nw <= 0xffff_ffff * 0xffff_ffff) by (nonlinear_arith)
        requires
            r1 <= 0xffff_ffff,
            nw <= 0xffff_ffff,
    ;
    r1 * ow <= limit && r1 * nw <= limit
}

/// Whether every layer's canvas can be fitted to `width` by `height` (the
/// precondition of `normalize`).
pub fn canvases_resize_are_safe<P, S>(layers: &[Layer<P, S>], width: u32, height: u32) -> (r: bool)
    ensures
        r == canvases_resize_fit(layer_views(layers@), width, height),
{
    let ghost views = layer_views(layers@);
    let mut i: usize = 0;
    while i < layers.len()
        invariant
            0 <= i <= layers@.len(),
            views == layer_views(layers@),
            forall|k: int| 0 <= k < i && (#[trigger] views[k]).kind == LayerKind::Raster ==> canvas_resize_fits(
                views[k], width, height),
        decreases layers@.len() - i,
    {
        assert(views[i as int] == layers@[i as int]@);
        if !canvas_resize_is_safe(&layers[i], width, height) {
            assert(views[i as int].kind == LayerKind::Raster);
            return false;
        }
        i = i + 1;
    }
    true
}

/// The document after the layer at `from` is dragged onto the row of the layer
/// at `to` (both existing and different): it is taken out and put back at
/// `to - 1` when moved up the list, at `to` otherwise, and becomes active.
pub open spec fn spec_reorder_layer<P, S>(d: DocumentView<P, S>, from: usize, to: usize) -> DocumentView<P, S> {
    let at = if from < to { to - 1 } else { to as int };
    DocumentView {
        layers: d.layers.remove(from as int).insert(at, d.layers[from as int]),
        active_layer: at as usize,
        ..d
    }
}

impl<P: Copy, S: Copy> Document<P, S> {
    /// Moves the layer at `from` to the place of the layer at `to` (see
    /// `spec_reorder_layer`) and makes it active.
    pub fn reorder_layer(&mut self, from: usize, to: usize)
        requires
            from < old(self)@.layers.len(),
            to < old(self)@.layers.len(),
            from != to,
        ensures
            final(self)@ == spec_reorder_layer(old(self)@, from, to),
    {
        let ghost before = self.layers@;
        let layer = self.layers.remove(from);
        let at = if from < to { to - 1 } else { to };
        self.layers.insert(at, layer);
        self.active_layer = at;
        assert(layer_views(self.layers@) =~= layer_views(before).remove(from as int).insert(at as int, before[from as int]@));
    }
}

/// Where each element lands when the element at `from` is taken out and put
/// back at `at`.
proof fn lemma_move_index<T>(s: Seq<T>, from: int, at: int, k: int)
    requires
        0 <= from < s.len(),
        0 <= at < s.len(),
        0 <= k < s.len(),
    ensures
        s.remove(from).insert(at, s[from]).len() == s.len(),
        s.remove(from).insert(at, s[from])[k] == (if k == at {
            s[from]
        } else if from <= at {
            if from <= k < at { s[k + 1] } else { s[k] }
        } else {
            if at < k <= from { s[k - 1] } else { s[k] }
        }),
{
    let r = s.remove(from);
    assert(r.len() == s.len() - 1);
    if k < at {
        assert(r.insert(at, s[from])[k] == r[k]);
    } else if k > at {
        assert(r.insert(at, s[from])[k] == r[k - 1]);
    }
}

/// Dragging a layer onto another row and then back (onto the row it has to
/// go before to return) restores the order of the layers. (Dropped on the row
/// just below it, a layer stays where it was, and the last layer moved down
/// has no row to go back before; those drags are left out.)
pub proof fn lemma_reorder_back<P, S>(d: DocumentView<P, S>, from: usize, to: usize)
    requires
        d.layers.len() <= usize::MAX,
        from < d.layers.len(),
        to < d.layers.len(),
        from < to ==> from + 1 < to,
        to < from ==> from + 1 < d.layers.len(),
        from != to,
    ensures
        ({
            let once = spec_reorder_layer(d, from, to);
            let back_to = if from < to { from } else { (from + 1) as usize };
            &&& back_to < once.layers.len()
            &&& once.active_layer != back_to
            &&& spec_reorder_layer(once, once.active_layer, back_to).layers == d.layers
        }),
{
    let s = d.layers;
    let once = spec_reorder_layer(d, from, to);
    let at1: int = if from < to { to - 1 } else { to as int };
    let back_to: usize = if from < to { from } else { (from + 1) as usize };
    let at2: int = if (at1 as usize) < back_to { back_to - 1 } else { back_to as int };
    assert(once.active_layer == at1);
    assert(once.layers == s.remove(from as int).insert(at1, s[from as int]));
    let back = spec_reorder_layer(once, once.active_layer, back_to);
    assert(at2 == from);
    assert forall|k: int| 0 <= k < s.len() implies #[trigger] back.layers[k] == s[k] by {
        lemma_move_index(s, from as int, at1, k);
        lemma_move_index(once.layers, at1, at2, k);
        if k == at2 {
            lemma_move_index(s, from as int, at1, at1);
        } else if at1 <= at2 {
            if at1 <= k < at2 {
                lemma_move_index(s, from as int, at1, k + 1);
            }
        } else {
            if at2 < k <= at1 {
                lemma_move_index(s, from as int, at1, k - 1);
            }
        }
    }
    lemma_move_index(s, from as int, at1, 0);
    lemma_move_index(once.layers, at1, at2, 0);
    assert(back.layers =~= s);
}

/// Dropping a layer on the row just below it leaves the order as it was.
pub proof fn lemma_reorder_onto_next<P, S>(d: DocumentView<P, S>, from: usize)
    requires
        d.layers.len() <= usize::MAX,
        from + 1 < d.layers.len(),
    ensures
        spec_reorder_layer(d, from, (from + 1) as usize).layers == d.layers,
{
    let s = d.layers;
    assert forall|k: int| 0 <= k < s.len() implies #[trigger] spec_reorder_layer(d, from, (from + 1) as usize).layers[k]
        == s[k] by {
        lemma_move_index(s, from as int, from as int, k);
    }
    lemma_move_index(s, from as int, from as int, 0);
    assert(spec_reorder_layer(d, from, (from + 1) as usize).layers =~= s);
}

/// The document after `start_new_path`, and the path index it reports: on an
/// unlocked vector layer an empty path is appended unless the last path is
/// already empty, and the last path is reported; otherwise nothing changes.
pub open spec fn spec_start_new_path<P, S>(d: DocumentView<P, S>, stroke_width: S) -> (DocumentView<P, S>, Option<usize>) {
    let a = d.active_layer as int;
    if a < d.layers.len() && d.layers[a].kind == LayerKind::Vector && !d.layers[a].locked {
        let layer = d.layers[a];
        let paths = if layer.paths.len() == 0 || layer.paths.last().control_points.len() > 0 {
            layer.paths.push(empty_path_view::<P, S>(stroke_width))
        } else {
            layer.paths
        };
        (
            DocumentView { layers: d.layers.update(a, LayerView { paths, ..layer }), ..d },
            Some((paths.len() - 1) as usize),
        )
    } else {
        (d, None)
    }
}

/// The selections of every point of `paths` once they are appended after
/// `start` other paths, path by path (the first `k` of them).
pub open spec fn pasted_nodes<P, S>(start: int, paths: Seq<PathView<P, S>>, k: int) -> Seq<PointSelection>
    decreases k,
{
    if k <= 0 {
        Seq::empty()
    } else {
        pasted_nodes(start, paths, k - 1) + Seq::new(
            paths[k - 1].control_points.len(),
            |i: int| PointSelection { path_index: (start + k - 1) as usize, point_index: i as usize },
        )
    }
}

impl<P: Copy, S: Copy> Document<P, S> {
    /// Finishes the current path: on an unlocked vector layer, appends an empty
    /// path (unless the last path is still empty) and returns the index of the
    /// last path; `None`, changing nothing, for any other active layer or none.
    pub fn start_new_path(&mut self, stroke_width: S) -> (r: Option<usize>)
        ensures
            (final(self)@, r) == spec_start_new_path(old(self)@, stroke_width),
    {
        let a = self.active_layer;
        if a >= self.layers.len() || self.layers[a].kind != LayerKind::Vector || self.layers[a].locked {
            return None;
        }
        let ghost before = self.layers@;
        let layer = &mut self.layers[a];
        let count = layer.paths.len();
        if count == 0 || layer.paths[count - 1].control_points.len() > 0 {
            layer.paths.push(PPWPath::empty(stroke_width));
        }
        let last = layer.paths.len() - 1;
        proof {
            let old_layer = before[a as int]@;
            if count > 0 {
                assert(old_layer.paths.last() == before[a as int].paths@[count - 1]@);
            }
            assert(path_views(layer.paths@) =~= spec_start_new_path(old(self)@, stroke_width).0.layers[a as int].paths);
            assert(layer_views(self.layers@) =~= spec_start_new_path(old(self)@, stroke_width).0.layers);
        }
        Some(last)
    }

    /// Appends `paths` to the active layer and returns the index of the first
    /// of them (or of the last path, 0 for none) with a selection of all their points;
    /// `None`, changing nothing, without an active layer.
    pub fn paste_paths(&mut self, paths: Vec<PPWPath<P, S>>) -> (r: Option<(usize, Vec<PointSelection>)>)
        ensures
            old(self).active_layer >= old(self)@.layers.len() ==> r is None && final(self)@ == old(self)@,
            old(self).active_layer < old(self)@.layers.len() ==> {
                let a = old(self).active_layer as int;
                let layer = old(self)@.layers[a];
                let all = layer.paths + path_views(paths@);
                &&& final(self)@ == (DocumentView {
                    layers: old(self)@.layers.update(a, LayerView { paths: all, ..layer }),
                    ..old(self)@
                })
                &&& r matches Some((first, nodes)) && nodes@ == pasted_nodes(
                    layer.paths.len() as int,
                    path_views(paths@),
                    paths@.len() as int,
                ) && first == (if layer.paths.len() < all.len() { layer.paths.len() as int } else if all.len() > 0 { all.len() - 1 } else { 0 })
            },
    {
        let a = self.active_layer;
        if a >= self.layers.len() {
            return None;
        }
        let ghost before = self.layers@;
        let ghost old_layer = self.layers@[a as int]@;
        let ghost added = path_views(paths@);
        let layer = &mut self.layers[a];
        let start = layer.paths.len();
        let mut nodes: Vec<PointSelection> = Vec::new();
        let mut source = paths;
        let ghost all_src = source@;
        let mut reversed: Vec<PPWPath<P, S>> = Vec::new();
        while source.len() > 0
            invariant
                reversed@.len() + source@.len() == all_src.len(),
                forall|k: int| 0 <= k < source@.len() ==> source@[k] == all_src[k],
                forall|k: int| 0 <= k < reversed@.len() ==> reversed@[k] == all_src[all_src.len() - 1 - k],
            decreases source@.len(),
        {
            let p = source.pop().unwrap();
            reversed.push(p);
        }
        let mut k: usize = 0;
        let total = reversed.len();
        while reversed.len() > 0
            invariant
                total == all_src.len(),
                k + reversed@.len() == total,
                forall|q: int| 0 <= q < reversed@.len() ==> reversed@[q] == all_src[total - 1 - q],
                start == old_layer.paths.len(),
                layer@ == (LayerView { paths: layer@.paths, ..old_layer }),
                path_views(layer.paths@) == old_layer.paths + path_views(all_src.take(k as int)),
                layer.paths@.len() == start + k,
                nodes@ == pasted_nodes(start as int, path_views(all_src), k as int),
                added == path_views(all_src),
            decreases reversed@.len(),
        {
            let p = reversed.pop().unwrap();
            assert(p == all_src[k as int]);
            let index = layer.paths.len();
            let count = p.control_points.len();
            let ghost nodes_before = nodes@;
            let mut i: usize = 0;
            while i < count
                invariant
                    0 <= i <= count,
                    count == p.control_points@.len(),
                    index == start + k,
                    nodes@ == nodes_before + Seq::new(
                        i as nat,
                        |j: int| PointSelection { path_index: index, point_index: j as usize },
                    ),
                decreases count - i,
            {
                nodes.push(PointSelection { path_index: index, point_index: i });
                i = i + 1;
                assert(nodes@ =~= nodes_before + Seq::new(
                    i as nat,
                    |j: int| PointSelection { path_index: index, point_index: j as usize },
                ));
            }
            let ghost paths_before = layer.paths@;
            layer.paths.push(p);
            proof {
                assert(added[k as int] == all_src[k as int]@);
                assert(nodes@ =~= pasted_nodes(start as int, added, k + 1));
                assert(all_src.take(k + 1) =~= all_src.take(k as int).push(all_src[k as int]));
                assert(path_views(layer.paths@) =~= path_views(paths_before).push(all_src[k as int]@));
                assert(path_views(all_src.take(k + 1)) =~= path_views(all_src.take(k as int)).push(all_src[k as int]@));
            }
            k = k + 1;
        }
        let len = layer.paths.len();
        let first = if start < len { start } else if len > 0 { len - 1 } else { 0 };
        proof {
            assert(all_src.take(total as int) =~= all_src);
            assert(layer_views(self.layers@) =~= layer_views(before).update(
                a as int,
                LayerView { paths: old_layer.paths + added, ..old_layer },
            ));
        }
        Some((first, nodes))
    }
}

/// Whether the active layer has an image at `index`.
pub open spec fn has_active_image<P, S>(d: DocumentView<P, S>, index: usize) -> bool {
    d.active_layer < d.layers.len() && index < d.layers[d.active_layer as int].images.len()
}

/// The document after removing image `index` of the active layer (unchanged
/// if there is none).
pub open spec fn spec_remove_active_image<P, S>(d: DocumentView<P, S>, index: usize) -> DocumentView<P, S> {
    if has_active_image(d, index) {
        let l = d.layers[d.active_layer as int];
        DocumentView {
            layers: d.layers.update(d.active_layer as int, LayerView { images: l.images.remove(index as int), ..l }),
            ..d
        }
    } else {
        d
    }
}

impl<P: Copy, S: Copy> Document<P, S> {
    /// Whether the active layer has an image at `index`.
    pub fn active_image_exists(&self, index: usize) -> (r: bool)
        ensures
            r == has_active_image(self@, index),
    {
        self.active_layer < self.layers.len() && index < self.layers[self.active_layer].images.len()
    }

    /// Removes image `index` of the active layer and gives it back; none if
    /// the active layer has no such image.
    pub fn remove_active_image(&mut self, index: usize) -> (r: Option<RasterImage<P, S>>)
        ensures
            final(self)@ == spec_remove_active_image(old(self)@, index),
            r is Some <==> has_active_image(old(self)@, index),
            r matches Some(img) ==> img@ == old(self)@.layers[old(self)@.active_layer as int].images[index as int],
    {
        if !self.active_image_exists(index) {
            return None;
        }
        let a = self.active_layer;
        let ghost before = self.layers@;
        let ghost l0 = self.layers@[a as int]@;
        let layer = &mut self.layers[a];
        let ghost imgs = layer.images@;
        let img = layer.images.remove(index);
        proof {
            assert(image_views(layer.images@) =~= image_views(imgs).remove(index as int));
            assert(layer@ == (LayerView { images: l0.images.remove(index as int), ..l0 }));
        }
        assert(layer_views(self.layers@) =~= layer_views(before).update(
            a as int,
            LayerView { images: l0.images.remove(index as int), ..l0 },
        ));
        Some(img)
    }
}

/// Pasting selects exactly the pasted points: point `i` of the `q`-th pasted
/// path, which lands at path `start + q`, for every such point.
pub proof fn lemma_pasted_nodes_cover<P, S>(start: int, paths: Seq<PathView<P, S>>, k: int)
    requires
        0 <= start,
        0 <= k <= paths.len(),
        start + k <= usize::MAX + 1,
    ensures
        forall|n: PointSelection| #[trigger] pasted_nodes(start, paths, k).contains(n) <==> (start <= n.path_index
            < start + k && n.point_index < paths[n.path_index - start].control_points.len()),
    decreases k,
{
    if k > 0 {
        lemma_pasted_nodes_cover(start, paths, k - 1);
        let a = pasted_nodes(start, paths, k - 1);
        let b = Seq::new(
            paths[k - 1].control_points.len(),
            |i: int| PointSelection { path_index: (start + k - 1) as usize, point_index: i as usize },
        );
        let all = pasted_nodes(start, paths, k);
        assert(all == a + b);
        assert forall|n: PointSelection| #[trigger] all.contains(n) <==> (start <= n.path_index < start + k
            && n.point_index < paths[n.path_index - start].control_points.len()) by {
            if all.contains(n) {
                let x = choose|x: int| 0 <= x < all.len() && all[x] == n;
                if x < a.len() {
                    assert(a[x] == n);
                    assert(a.contains(n));
                } else {
                    assert(b[x - a.len()] == n);
                }
            }
            if start <= n.path_index < start + k && n.point_index < paths[n.path_index - start].control_points.len() {
                if n.path_index < start + k - 1 {
                    assert(a.contains(n));
                    let x = choose|x: int| 0 <= x < a.len() && a[x] == n;
                    assert(all[x] == n);
                } else {
                    let x = n.point_index as int;
                    assert(b[x] == n);
                    assert(all[a.len() + x] == n);
                }
            }
        }
    }
}

} // verus!

verus! {

/// The views of layers with one replaced are the views with its view replaced.
proof fn lemma_layer_views_update<P, S>(layers: Seq<Layer<P, S>>, i: int, x: Layer<P, S>)
    requires
        0 <= i < layers.len(),
    ensures
        layer_views(layers.update(i, x)) == layer_views(layers).update(i, x@),
{
    assert(layer_views(layers.update(i, x)) =~= layer_views(layers).update(i, x@));
}

impl<P: Copy, S: Copy> Document<P, S> {
    /// The active layer, to change it in place.
    pub fn active_layer_mut(&mut self) -> (r: Option<&mut Layer<P, S>>)
        ensures
            old(self).active_layer < old(self).layers@.len() ==> (r matches Some(l) && l@ == old(self)@.layers[old(
                self,
            ).active_layer as int] && final(self)@ == (DocumentView {
                layers: old(self)@.layers.update(old(self).active_layer as int, final(l)@),
                ..old(self)@
            })),
            old(self).active_layer >= old(self).layers@.len() ==> r is None && final(self)@ == old(self)@,
    {
        let a = self.active_layer;
        if a < self.layers.len() {
            let layer = &mut self.layers[a];
            proof {
                lemma_layer_views_update(old(self).layers@, a as int, *final(layer));
            }
            Some(layer)
        } else {
            None
        }
    }

    /// The paths of the active layer, to change them in place.
    pub fn active_paths_mut(&mut self) -> (r: Option<&mut Vec<PPWPath<P, S>>>)
        ensures
            old(self).active_layer < old(self).layers@.len() ==> (r matches Some(p) && path_views(p@) == old(
                self,
            )@.layers[old(self).active_layer as int].paths && final(self)@ == (DocumentView {
                layers: old(self)@.layers.update(
                    old(self).active_layer as int,
                    LayerView { paths: path_views(final(p)@), ..old(self)@.layers[old(self).active_layer as int] },
                ),
                ..old(self)@
            })),
            old(self).active_layer >= old(self).layers@.len() ==> r is None && final(self)@ == old(self)@,
    {
        let a = self.active_layer;
        if a < self.layers.len() {
            let layer = &mut self.layers[a];
            proof {
                lemma_layer_views_update(old(self).layers@, a as int, *final(layer));
            }
            let paths = &mut layer.paths;
            Some(paths)
        } else {
            None
        }
    }

    /// Path `path_index` of the active layer, to change it in place.
    pub fn active_path_mut(&mut self, path_index: usize) -> (r: Option<&mut PPWPath<P, S>>)
        ensures
            ({
                let d = old(self)@;
                let a = old(self).active_layer as int;
                if a < d.layers.len() && path_index < d.layers[a].paths.len() {
                    r matches Some(p) && p@ == d.layers[a].paths[path_index as int] && final(self)@ == (DocumentView {
                        layers: d.layers.update(
                            a,
                            LayerView { paths: d.layers[a].paths.update(path_index as int, final(p)@), ..d.layers[a] },
                        ),
                        ..d
                    })
                } else {
                    r is None && final(self)@ == d
                }
            }),
    {
        let a = self.active_layer;
        if a < self.layers.len() && path_index < self.layers[a].paths.len() {
            let layer = &mut self.layers[a];
            proof {
                lemma_layer_views_update(old(self).layers@, a as int, *final(layer));
            }
            let ghost old_paths = layer.paths@;
            let path = &mut layer.paths[path_index];
            proof {
                assert(path_views(old_paths.update(path_index as int, *final(path))) =~= path_views(old_paths).update(
                    path_index as int,
                    final(path)@,
                ));
            }
            Some(path)
        } else {
            None
        }
    }
}

/// Duplicating the active layer `a` inserts, right after it, a copy that is
/// the same layer in every field (kind, visibility, lock, paths, raster
/// strokes, canvas pixels and size, placed images) but its name, which is the
/// old name followed by ` Copy`; the copy becomes active, the layers before and
/// including `a` stay where they were and those after it move down one place.
/// Without an active layer nothing changes.
pub proof fn lemma_duplicate_copies_active_layer<P, S>(d: DocumentView<P, S>)
    requires
        d.layers.len() <= usize::MAX,
    ensures
        ({
            let r = spec_duplicate_active_layer(d);
            let a = d.active_layer as int;
            if a < d.layers.len() {
                let old = d.layers[a];
                let copy = r.layers[a + 1];
                &&& r.layers.len() == d.layers.len() + 1
                &&& r.active_layer == a + 1
                &&& copy.name == old.name + " Copy"@
                &&& copy.visible == old.visible
                &&& copy.locked == old.locked
                &&& copy.kind == old.kind
                &&& copy.paths == old.paths
                &&& copy.raster_strokes == old.raster_strokes
                &&& copy.raster_pixels_rgba == old.raster_pixels_rgba
                &&& copy.raster_width == old.raster_width
                &&& copy.raster_height == old.raster_height
                &&& copy.images == old.images
                &&& forall|j: int| 0 <= j <= a ==> r.layers[j] == d.layers[j]
                &&& forall|j: int| a < j < d.layers.len() ==> r.layers[j + 1] == d.layers[j]
                &&& r.canvas_width == d.canvas_width
                &&& r.canvas_height == d.canvas_height
                &&& r.next_image_id == d.next_image_id
            } else {
                r == d
            }
        }),
{
    let a = d.active_layer as int;
    if a < d.layers.len() {
        let copy = LayerView { name: d.layers[a].name + " Copy"@, ..d.layers[a] };
        d.layers.insert_ensures(a + 1, copy);
    }
}

/// Removing image `k` of the active layer hands back that image and leaves
/// the layer's other images in their drawing order: those before `k` keep
/// their place and those after it move down one; nothing else changes. With
/// no image `k` nothing changes.
pub proof fn lemma_remove_image_keeps_order<P, S>(d: DocumentView<P, S>, k: usize)
    ensures
        ({
            let r = spec_remove_active_image(d, k);
            let a = d.active_layer as int;
            if a < d.layers.len() && k < d.layers[a].images.len() {
                let old = d.layers[a].images;
                let new = r.layers[a].images;
                &&& r.layers.len() == d.layers.len()
                &&& new.len() == old.len() - 1
                &&& forall|j: int| 0 <= j < k ==> new[j] == old[j]
                &&& forall|j: int| k <= j < new.len() ==> new[j] == old[j + 1]
                &&& (LayerView { images: old, ..r.layers[a] }) == d.layers[a]
                &&& forall|j: int| 0 <= j < d.layers.len() && j != a ==> r.layers[j] == d.layers[j]
                &&& r.active_layer == d.active_layer
                &&& r.next_image_id == d.next_image_id
            } else {
                r == d
            }
        }),
{
}

/// Deleting the active layer `a` of a document with more than one layer
/// removes exactly that layer and keeps the others in order (those after it
/// move down one place); the layer now at `a` becomes active, or the new last
/// layer when `a` was the last. A single layer is replaced by a fresh
/// "Layer 1".
pub proof fn lemma_delete_removes_active_layer<P, S>(d: DocumentView<P, S>, stroke_width: S)
    requires
        d.active_layer < d.layers.len(),
    ensures
        ({
            let r = spec_delete_active_layer(d, stroke_width);
            let a = d.active_layer as int;
            let n = d.layers.len() as int;
            if n > 1 {
                &&& r.layers.len() == n - 1
                &&& forall|j: int| 0 <= j < a ==> r.layers[j] == d.layers[j]
                &&& forall|j: int| a <= j < n - 1 ==> r.layers[j] == d.layers[j + 1]
                &&& r.active_layer == (if a < n - 1 { a } else { n - 2 })
                &&& r.active_layer < r.layers.len()
            } else {
                &&& r.layers.len() == 1
                &&& r.layers[0].name == "Layer 1"@
                &&& r.layers[0].kind == LayerKind::Vector
                &&& r.active_layer == 0
            }
        }),
{
}

/// Placing an image on an unlocked active layer appends it as that layer's
/// last (topmost) image, with every other image and layer unchanged; the next
/// image id moves on by one (saturating) whether or not the image was placed.
pub proof fn lemma_add_image_appends<P, S>(d: DocumentView<P, S>, image: ImageView<P, S>)
    ensures
        ({
            let r = spec_add_image(d, image);
            let a = d.active_layer as int;
            &&& r.next_image_id == (if d.next_image_id == u64::MAX { u64::MAX } else { (d.next_image_id + 1) as u64 })
            &&& r.layers.len() == d.layers.len()
            &&& r.active_layer == d.active_layer
            &&& forall|j: int| 0 <= j < d.layers.len() && j != a ==> r.layers[j] == d.layers[j]
            &&& if a < d.layers.len() && !d.layers[a].locked {
                let old = d.layers[a].images;
                let new = r.layers[a].images;
                &&& new.len() == old.len() + 1
                &&& new[old.len() as int] == image
                &&& forall|j: int| 0 <= j < old.len() ==> new[j] == old[j]
                &&& (LayerView { images: old, ..r.layers[a] }) == d.layers[a]
            } else {
                r.layers == d.layers
            }
        }),
{
}

/// Adding a layer appends it after all the others, which stay as they were,
/// and makes it active; a vector layer is named "Vector Layer N" and a raster
/// layer "Raster Layer N", where N is the new number of layers.
pub proof fn lemma_added_layer_is_last<P, S>(d: DocumentView<P, S>, stroke_width: S, w: u32, h: u32)
    requires
        d.layers.len() < usize::MAX,
    ensures
        ({
            let v = spec_add_vector_layer(d, stroke_width);
            let r = spec_add_raster_layer(d, w, h);
            let n = d.layers.len() as int;
            &&& v.layers.len() == n + 1
            &&& r.layers.len() == n + 1
            &&& forall|j: int| 0 <= j < n ==> v.layers[j] == d.layers[j] && r.layers[j] == d.layers[j]
            &&& v.active_layer == n
            &&& r.active_layer == n
            &&& v.layers[n].name == "Vector Layer "@ + spec_decimal((n + 1) as nat)
            &&& v.layers[n].kind == LayerKind::Vector
            &&& r.layers[n].name == "Raster Layer "@ + spec_decimal((n + 1) as nat)
            &&& r.layers[n].kind == LayerKind::Raster
        }),
{
}

/// Moving the active layer up exchanges it with the layer above it (the next
/// one in drawing order) and keeps it active; the other layers stay put. The
/// topmost layer, or no active layer, stays where it is.
pub proof fn lemma_move_up_swaps<P, S>(d: DocumentView<P, S>)
    requires
        d.layers.len() <= usize::MAX,
    ensures
        ({
            let r = spec_move_active_layer_up(d);
            let a = d.active_layer as int;
            if a + 1 < d.layers.len() {
                &&& r.layers.len() == d.layers.len()
                &&& r.layers[a] == d.layers[a + 1]
                &&& r.layers[a + 1] == d.layers[a]
                &&& forall|j: int| 0 <= j < d.layers.len() && j != a && j != a + 1 ==> r.layers[j] == d.layers[j]
                &&& r.active_layer == a + 1
            } else {
                r == d
            }
        }),
{
}

/// Resizing a well-formed `ow` by `oh` canvas to `w` by `h` (each at least
/// 1), when the new one fits in memory, gives a `w * h * 4`-byte canvas in
/// which every pixel inside both canvases keeps its four bytes and every other
/// pixel is transparent black.
pub proof fn lemma_resized_canvas_keeps_overlap(old: Seq<u8>, ow: u32, oh: u32, w: u32, h: u32, x: int, y: int, c: int)
    requires
        old.len() == ow as int * oh as int * 4,
        at_least_one(w) as int * at_least_one(h) as int * 4 <= usize::MAX,
        0 <= x < at_least_one(w),
        0 <= y < at_least_one(h),
        0 <= c < 4,
    ensures
        ({
            let r = resized_canvas(old, ow, oh, w, h);
            let w1 = at_least_one(w) as int;
            &&& r.len() == w1 * at_least_one(h) as int * 4
            &&& 0 <= 4 * (y * w1 + x) + c < r.len()
            &&& r[4 * (y * w1 + x) + c] == (if x < ow && y < oh { old[4 * (y * ow + x) + c] } else { 0u8 })
        }),
{
    let w1 = at_least_one(w) as int;
    let h1 = at_least_one(h) as int;
    let owi = ow as int;
    let ohi = oh as int;
    let i = 4 * (y * w1 + x) + c;
    assert(w1 * h1 <= usize::MAX) by (nonlinear_arith)
        requires
            w1 * h1 * 4 <= usize::MAX,
            w1 >= 1,
            h1 >= 1,
    ;
    assert(canvas_bytes(w1 as u32, h1 as u32) == w1 * h1 * 4);
    assert(0 <= i < w1 * h1 * 4) by (nonlinear_arith)
        requires
            i == 4 * (y * w1 + x) + c,
            0 <= x < w1,
            0 <= y < h1,
            0 <= c < 4,
    ;
    assert(i == y * (4 * w1) + (4 * x + c)) by (nonlinear_arith)
        requires
            i == 4 * (y * w1 + x) + c,
    ;
    lemma_row_col(y, 4 * w1, 4 * x + c);
    let len = 4 * min_int(owi, w1);
    if x < ow && y < oh {
        assert(row_fits(old, owi, w1, w1 * h1 * 4, y, len)) by {
            assert(4 * (y * owi) + len <= old.len()) by (nonlinear_arith)
                requires
                    len <= 4 * owi,
                    0 <= y < ohi,
                    old.len() == owi * ohi * 4,
            ;
            assert((y + 1) * w1 <= h1 * w1) by (nonlinear_arith)
                requires
                    0 <= y < h1,
                    w1 >= 1,
            ;
            assert(4 * (y * w1) + len <= w1 * h1 * 4) by (nonlinear_arith)
                requires
                    len <= 4 * w1,
                    (y + 1) * w1 <= h1 * w1,
            ;
        }
        assert(4 * (y * owi) + (4 * x + c) == 4 * (y * owi + x) + c) by (nonlinear_arith);
    }
}

/// Starting a new path on an unlocked vector layer leaves the layer ending
/// with a path without control points, returned by index: a fresh empty path
/// appended after the others, or the last path itself when it is already
/// empty; the other paths and layers are unchanged. Any other active layer (or
/// none) changes nothing and gives `None`.
pub proof fn lemma_new_path_is_empty_last<P, S>(d: DocumentView<P, S>, stroke_width: S)
    requires
        forall|j: int| 0 <= j < d.layers.len() ==> (#[trigger] d.layers[j]).paths.len() < usize::MAX,
    ensures
        ({
            let (r, idx) = spec_start_new_path(d, stroke_width);
            let a = d.active_layer as int;
            if a < d.layers.len() && d.layers[a].kind == LayerKind::Vector && !d.layers[a].locked {
                let old = d.layers[a].paths;
                let new = r.layers[a].paths;
                &&& idx == Some((new.len() - 1) as usize)
                &&& new.last().control_points.len() == 0
                &&& forall|j: int| 0 <= j < old.len() ==> new[j] == old[j]
                &&& (old.len() == 0 || old.last().control_points.len() > 0) ==> new.len() == old.len() + 1
                    && new.last() == empty_path_view::<P, S>(stroke_width)
                &&& !(old.len() == 0 || old.last().control_points.len() > 0) ==> new == old
                &&& (LayerView { paths: old, ..r.layers[a] }) == d.layers[a]
                &&& forall|j: int| 0 <= j < d.layers.len() && j != a ==> r.layers[j] == d.layers[j]
                &&& r.layers.len() == d.layers.len()
            } else {
                r == d && idx is None
            }
        }),
{
}

} // verus!
