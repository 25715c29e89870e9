//! The SVG lines that hold PPW paths, raster strokes, placed images and raster
//! canvases: how they are written, and what is read back from them.

use vstd::prelude::*;
use crate::document::LayerKind;
use crate::svg_tags::{
    layer_tag_pieces, layer_tag_tail, lemma_layer_tag_pieces, occurs_in, spec_layer_open_tag,
    append, append_piece, bool_text, bool_word, ends_with, lemma_attr_of_pieces, lemma_decimal_digits,
    lemma_quoted_prefix, parse_bool, quote_free, quoted_pieces, quoted_prefix, same_text, spec_parse_bool, attr_from,
};
use crate::svg_data::uri_plain;
use crate::svg_reader::{contains_text, image_id_of, image_name_of, spec_line_marks, starts_with, LineMarks};
use crate::text::{
    attr, escape_xml, spec_escape_xml, lemma_find_from, occurs_at, format_color, hex_color, hex_color_can_slice, hex_color_slices_ok, parse_color, parse_hex_color,
    push_decimal, spec_attr, spec_decimal, spec_format_color, spec_hex_color, spec_parse_color,
    spec_parse_hex_color, string_from_chars, lemma_parse_format_color, lower_hex_char, lemma_parse_u64_decimal,
    lemma_escape_has_no_quote, lemma_unescape_escape,
};

verus! {

/// The numbers of a path as the editor formats them, each the text of one
/// attribute value.
pub struct PathNumberTexts {
    pub fill_opacity: String,
    pub stroke_width: String,
    pub points: String,
    pub control_points: String,
    pub weights: String,
    pub phis: String,
    pub psis: String,
}

/// The mathematical model of the number texts.
pub struct NumberTextsView {
    pub fill_opacity: Seq<char>,
    pub stroke_width: Seq<char>,
    pub points: Seq<char>,
    pub control_points: Seq<char>,
    pub weights: Seq<char>,
    pub phis: Seq<char>,
    pub psis: Seq<char>,
}

impl View for PathNumberTexts {
    type V = NumberTextsView;

    open spec fn view(&self) -> NumberTextsView {
        NumberTextsView {
            fill_opacity: self.fill_opacity@,
            stroke_width: self.stroke_width@,
            points: self.points@,
            control_points: self.control_points@,
            weights: self.weights@,
            phis: self.phis@,
            psis: self.psis@,
        }
    }
}

/// The `fill` value: the fill color as `#rrggbb`, or `none` without fill.
pub open spec fn fill_text(fill_enabled: bool, fill_color: Seq<u8>) -> Seq<char> {
    if fill_enabled { spec_hex_color(fill_color) } else { "none"@ }
}

/// The quoted pieces of a path's line (see `spec_path_tag`).
pub open spec fn path_tag_pieces(
    layer: nat,
    path: nat,
    is_closed: bool,
    fill_enabled: bool,
    fill_color: Seq<u8>,
    stroke_color: Seq<u8>,
    t: NumberTextsView,
) -> Seq<Seq<char>> {
    seq![
        "<polyline id="@,
        "path-"@ + spec_decimal(layer) + "-"@ + spec_decimal(path),
        " fill="@,
        fill_text(fill_enabled, fill_color),
        " fill-opacity="@,
        t.fill_opacity,
        " stroke="@,
        spec_hex_color(stroke_color),
        " stroke-width="@,
        t.stroke_width,
        " points="@,
        t.points,
        " data-ppw="@,
        "true"@,
        " data-ppw-closed="@,
        bool_text(is_closed),
        " data-ppw-control-points="@,
        t.control_points,
        " data-ppw-weights="@,
        t.weights,
        " data-ppw-phis="@,
        t.phis,
        " data-ppw-psis="@,
        t.psis,
        " data-ppw-fill-enabled="@,
        bool_text(fill_enabled),
        " data-ppw-fill-color="@,
        spec_format_color(fill_color),
        " data-ppw-stroke-width="@,
        t.stroke_width,
        " data-ppw-stroke-color="@,
        spec_format_color(stroke_color),
    ]
}

/// The line that holds path `path` of layer `layer`:
/// `<polyline id="path-L-P" fill="..." fill-opacity="..." stroke="#rrggbb" stroke-width="..." points="..." data-ppw="true" data-ppw-closed="..." data-ppw-control-points="..." data-ppw-weights="..." data-ppw-phis="..." data-ppw-psis="..." data-ppw-fill-enabled="..." data-ppw-fill-color="r,g,b,a" data-ppw-stroke-width="..." data-ppw-stroke-color="r,g,b,a" />`.
pub open spec fn spec_path_tag(
    layer: nat,
    path: nat,
    is_closed: bool,
    fill_enabled: bool,
    fill_color: Seq<u8>,
    stroke_color: Seq<u8>,
    t: NumberTextsView,
) -> Seq<char> {
    quoted_pieces(path_tag_pieces(layer, path, is_closed, fill_enabled, fill_color, stroke_color, t), " />"@)
}

/// Writes the line of path `path_number` of layer `layer_number` (see
/// `spec_path_tag`).
pub fn ppw_path_tag(
    layer_number: u64,
    path_number: u64,
    is_closed: bool,
    fill_enabled: bool,
    fill_color: [u8; 4],
    stroke_color: [u8; 4],
    texts: &PathNumberTexts,
) -> (r: String)
    ensures
        r@ == spec_path_tag(
            layer_number as nat,
            path_number as nat,
            is_closed,
            fill_enabled,
            fill_color@,
            stroke_color@,
            texts@,
        ),
{
    let mut v: Vec<char> = Vec::new();
    let ghost ps = Seq::<Seq<char>>::empty();
    assert(v@ =~= quoted_prefix(ps));
    append_piece(&mut v, "<polyline id=", Ghost(ps));
    let ghost ps = ps.push("<polyline id="@);
    let mut label: Vec<char> = Vec::new();
    append(&mut label, "path-");
    push_decimal(&mut label, layer_number);
    append(&mut label, "-");
    push_decimal(&mut label, path_number);
    let label_text = string_from_chars(label.as_slice());
    append_piece(&mut v, label_text.as_str(), Ghost(ps));
    let ghost ps = ps.push(label_text@);
    append_piece(&mut v, " fill=", Ghost(ps));
    let ghost ps = ps.push(" fill="@);
    let fill = if fill_enabled { hex_color(fill_color) } else { "none".to_string() };
    append_piece(&mut v, fill.as_str(), Ghost(ps));
    let ghost ps = ps.push(fill@);
    append_piece(&mut v, " fill-opacity=", Ghost(ps));
    let ghost ps = ps.push(" fill-opacity="@);
    append_piece(&mut v, texts.fill_opacity.as_str(), Ghost(ps));
    let ghost ps = ps.push(texts.fill_opacity@);
    append_piece(&mut v, " stroke=", Ghost(ps));
    let ghost ps = ps.push(" stroke="@);
    let stroke = hex_color(stroke_color);
    append_piece(&mut v, stroke.as_str(), Ghost(ps));
    let ghost ps = ps.push(stroke@);
    append_piece(&mut v, " stroke-width=", Ghost(ps));
    let ghost ps = ps.push(" stroke-width="@);
    append_piece(&mut v, texts.stroke_width.as_str(), Ghost(ps));
    let ghost ps = ps.push(texts.stroke_width@);
    append_piece(&mut v, " points=", Ghost(ps));
    let ghost ps = ps.push(" points="@);
    append_piece(&mut v, texts.points.as_str(), Ghost(ps));
    let ghost ps = ps.push(texts.points@);
    append_piece(&mut v, " data-ppw=", Ghost(ps));
    let ghost ps = ps.push(" data-ppw="@);
    append_piece(&mut v, "true", Ghost(ps));
    let ghost ps = ps.push("true"@);
    append_piece(&mut v, " data-ppw-closed=", Ghost(ps));
    let ghost ps = ps.push(" data-ppw-closed="@);
    append_piece(&mut v, bool_word(is_closed), Ghost(ps));
    let ghost ps = ps.push(bool_text(is_closed));
    append_piece(&mut v, " data-ppw-control-points=", Ghost(ps));
    let ghost ps = ps.push(" data-ppw-control-points="@);
    append_piece(&mut v, texts.control_points.as_str(), Ghost(ps));
    let ghost ps = ps.push(texts.control_points@);
    append_piece(&mut v, " data-ppw-weights=", Ghost(ps));
    let ghost ps = ps.push(" data-ppw-weights="@);
    append_piece(&mut v, texts.weights.as_str(), Ghost(ps));
    let ghost ps = ps.push(texts.weights@);
    append_piece(&mut v, " data-ppw-phis=", Ghost(ps));
    let ghost ps = ps.push(" data-ppw-phis="@);
    append_piece(&mut v, texts.phis.as_str(), Ghost(ps));
    let ghost ps = ps.push(texts.phis@);
    append_piece(&mut v, " data-ppw-psis=", Ghost(ps));
    let ghost ps = ps.push(" data-ppw-psis="@);
    append_piece(&mut v, texts.psis.as_str(), Ghost(ps));
    let ghost ps = ps.push(texts.psis@);
    append_piece(&mut v, " data-ppw-fill-enabled=", Ghost(ps));
    let ghost ps = ps.push(" data-ppw-fill-enabled="@);
    append_piece(&mut v, bool_word(fill_enabled), Ghost(ps));
    let ghost ps = ps.push(bool_text(fill_enabled));
    append_piece(&mut v, " data-ppw-fill-color=", Ghost(ps));
    let ghost ps = ps.push(" data-ppw-fill-color="@);
    let fill_rgba = format_color(fill_color);
    append_piece(&mut v, fill_rgba.as_str(), Ghost(ps));
    let ghost ps = ps.push(fill_rgba@);
    append_piece(&mut v, " data-ppw-stroke-width=", Ghost(ps));
    let ghost ps = ps.push(" data-ppw-stroke-width="@);
    append_piece(&mut v, texts.stroke_width.as_str(), Ghost(ps));
    let ghost ps = ps.push(texts.stroke_width@);
    append_piece(&mut v, " data-ppw-stroke-color=", Ghost(ps));
    let ghost ps = ps.push(" data-ppw-stroke-color="@);
    let stroke_rgba = format_color(stroke_color);
    append_piece(&mut v, stroke_rgba.as_str(), Ghost(ps));
    let ghost ps = ps.push(stroke_rgba@);
    append(&mut v, " />");
    proof {
        lemma_quoted_prefix(ps, " />"@);
        assert(ps =~= path_tag_pieces(
            layer_number as nat,
            path_number as nat,
            is_closed,
            fill_enabled,
            fill_color@,
            stroke_color@,
            texts@,
        ));
    }
    string_from_chars(v.as_slice())
}

/// The flag an attribute gives, if it is `true` or `false`.
pub open spec fn flag_of(line: Seq<char>, key: Seq<char>) -> Option<bool> {
    match spec_attr(line, key) {
        Some(v) => spec_parse_bool(v),
        None => None,
    }
}

/// The `r,g,b,a` color an attribute gives, if it reads as one.
pub open spec fn rgba_of(line: Seq<char>, key: Seq<char>) -> Option<Seq<u8>> {
    match spec_attr(line, key) {
        Some(v) => spec_parse_color(v),
        None => None,
    }
}

/// The `#rrggbb` color of the `stroke` attribute, if it reads as one.
pub open spec fn stroke_hex_of(line: Seq<char>) -> Option<Seq<u8>> {
    match spec_attr(line, "stroke"@) {
        Some(v) => spec_parse_hex_color(v),
        None => None,
    }
}

/// Whether reading a stroke color from `line` stays clear of cutting the
/// `stroke` attribute inside a character: the `key` color reads, or the
/// `stroke` value can be cut in byte pairs.
pub open spec fn stroke_color_readable(line: Seq<char>, key: Seq<char>) -> bool {
    rgba_of(line, key) is Some || match spec_attr(line, "stroke"@) {
        Some(v) => hex_color_slices_ok(v),
        None => true,
    }
}

/// The stroke color a line gives: its `key` color, else its `stroke` color
/// (opaque), else `default`.
pub open spec fn stroke_color_of(line: Seq<char>, key: Seq<char>, default: Seq<u8>) -> Seq<u8> {
    match rgba_of(line, key) {
        Some(c) => c,
        None => match stroke_hex_of(line) {
            Some(c) => c,
            None => default,
        },
    }
}

/// The value of `key`, or else of `fallback`.
pub open spec fn attr_or(line: Seq<char>, key: Seq<char>, fallback: Seq<char>) -> Option<Seq<char>> {
    match spec_attr(line, key) {
        Some(v) => Some(v),
        None => spec_attr(line, fallback),
    }
}

/// Whether a path line asks for a fill: its `data-ppw-fill-enabled` flag, or
/// else a `fill` other than `none`.
pub open spec fn fill_enabled_of(line: Seq<char>) -> bool {
    match flag_of(line, "data-ppw-fill-enabled"@) {
        Some(b) => b,
        None => match spec_attr(line, "fill"@) {
            Some(v) => v != "none"@,
            None => false,
        },
    }
}

/// The fields other than numbers that a path line gives, and the texts of its numbers.
pub struct PathFields {
    pub is_closed: bool,
    pub fill_enabled: bool,
    pub fill_color: [u8; 4],
    pub stroke_color: [u8; 4],
    /// `data-ppw-control-points`, or else `points`.
    pub control_points: Option<String>,
    pub weights: Option<String>,
    pub phis: Option<String>,
    pub psis: Option<String>,
    /// `data-ppw-stroke-width`, or else `stroke-width`.
    pub stroke_width: Option<String>,
}

/// The view of an optional text.
pub open spec fn opt_text(t: Option<String>) -> Option<Seq<char>> {
    match t {
        Some(s) => Some(s@),
        None => None,
    }
}

/// Whether `f` holds what `line` gives: the closed and fill flags (unset:
/// open, and fill as the `fill` attribute says), the fill color (default
/// `120,170,255,70`), the stroke color (default opaque black) and the texts.
pub open spec fn path_fields_of(line: Seq<char>, f: PathFields) -> bool {
    &&& f.is_closed == match flag_of(line, "data-ppw-closed"@) {
        Some(b) => b,
        None => false,
    }
    &&& f.fill_enabled == fill_enabled_of(line)
    &&& f.fill_color@ == match rgba_of(line, "data-ppw-fill-color"@) {
        Some(c) => c,
        None => seq![120u8, 170u8, 255u8, 70u8],
    }
    &&& f.stroke_color@ == stroke_color_of(line, "data-ppw-stroke-color"@, seq![0u8, 0u8, 0u8, 255u8])
    &&& opt_text(f.control_points) == attr_or(line, "data-ppw-control-points"@, "points"@)
    &&& opt_text(f.weights) == spec_attr(line, "data-ppw-weights"@)
    &&& opt_text(f.phis) == spec_attr(line, "data-ppw-phis"@)
    &&& opt_text(f.psis) == spec_attr(line, "data-ppw-psis"@)
    &&& opt_text(f.stroke_width) == attr_or(line, "data-ppw-stroke-width"@, "stroke-width"@)
}

/// The flag attribute `key` gives.
fn flag_attr(line: &str, key: &str) -> (r: Option<bool>)
    ensures
        r == flag_of(line@, key@),
{
    match attr(line, key) {
        Some(v) => parse_bool(v.as_str()),
        None => None,
    }
}

/// The `r,g,b,a` color attribute `key` gives.
fn rgba_attr(line: &str, key: &str) -> (r: Option<[u8; 4]>)
    ensures
        r matches Some(c) ==> rgba_of(line@, key@) == Some(c@),
        r is None ==> rgba_of(line@, key@) is None,
{
    match attr(line, key) {
        Some(v) => parse_color(v.as_str()),
        None => None,
    }
}

/// The value of `key`, or else of `fallback`.
fn attr_or_else(line: &str, key: &str, fallback: &str) -> (r: Option<String>)
    ensures
        opt_text(r) == attr_or(line@, key@, fallback@),
{
    match attr(line, key) {
        Some(v) => Some(v),
        None => attr(line, fallback),
    }
}

/// Whether a path line holds control point data: a `data-ppw-control-points`
/// or else a `points` attribute. A path line without it is refused on loading.
pub fn has_control_point_data(line: &str) -> (r: bool)
    ensures
        r == attr_or(line@, "data-ppw-control-points"@, "points"@) is Some,
{
    attr_or_else(line, "data-ppw-control-points", "points").is_some()
}

/// Whether reading a stroke color with `key` from `line` is safe (see
/// `stroke_color_readable`).
pub fn stroke_color_is_readable(line: &str, key: &str) -> (r: bool)
    ensures
        r == stroke_color_readable(line@, key@),
{
    if rgba_attr(line, key).is_some() {
        return true;
    }
    match attr(line, "stroke") {
        Some(v) => hex_color_can_slice(v.as_str()),
        None => true,
    }
}

/// The stroke color a line gives (see `stroke_color_of`).
pub fn stroke_color_attr(line: &str, key: &str, default: [u8; 4]) -> (r: [u8; 4])
    requires
        stroke_color_readable(line@, key@),
    ensures
        r@ == stroke_color_of(line@, key@, default@),
{
    match rgba_attr(line, key) {
        Some(c) => c,
        None => {
            let hex = match attr(line, "stroke") {
                Some(v) => parse_hex_color(v.as_str()),
                None => None,
            };
            match hex {
                Some(c) => c,
                None => default,
            }
        },
    }
}

/// Reads the fields of a path line.
pub fn read_path_fields(line: &str) -> (r: PathFields)
    requires
        stroke_color_readable(line@, "data-ppw-stroke-color"@),
    ensures
        path_fields_of(line@, r),
{
    let is_closed = match flag_attr(line, "data-ppw-closed") {
        Some(b) => b,
        None => false,
    };
    let fill_enabled = match flag_attr(line, "data-ppw-fill-enabled") {
        Some(b) => b,
        None => match attr(line, "fill") {
            Some(v) => !same_text(v.as_str(), "none"),
            None => false,
        },
    };
    let fill_color = match rgba_attr(line, "data-ppw-fill-color") {
        Some(c) => c,
        None => {
            let c: [u8; 4] = [120, 170, 255, 70];
            assert(c@ =~= seq![120u8, 170u8, 255u8, 70u8]);
            c
        },
    };
    let black: [u8; 4] = [0, 0, 0, 255];
    assert(black@ =~= seq![0u8, 0u8, 0u8, 255u8]);
    let stroke_color = stroke_color_attr(line, "data-ppw-stroke-color", black);
    PathFields {
        is_closed,
        fill_enabled,
        fill_color,
        stroke_color,
        control_points: attr_or_else(line, "data-ppw-control-points", "points"),
        weights: attr(line, "data-ppw-weights"),
        phis: attr(line, "data-ppw-phis"),
        psis: attr(line, "data-ppw-psis"),
        stroke_width: attr_or_else(line, "data-ppw-stroke-width", "stroke-width"),
    }
}

/// A text that is empty or does not end with `=` cannot end with a key and `=`.
proof fn lemma_no_key_end(s: Seq<char>, key: Seq<char>)
    requires
        s.len() == 0 || s.last() != '=',
        key.len() > 0,
        key.last() == '=',
    ensures
        !ends_with(s, key),
{
    if ends_with(s, key) {
        assert(s.subrange(s.len() - key.len(), s.len() as int)[key.len() - 1] == s.last());
    }
}

/// `s` does not end with `t` when they differ at the `j`-th character from the end.
proof fn lemma_not_ends_with(s: Seq<char>, t: Seq<char>, j: int)
    requires
        1 <= j <= t.len(),
        j > s.len() || s[s.len() - j] != t[t.len() - j],
    ensures
        !ends_with(s, t),
{
    if ends_with(s, t) {
        assert(s.subrange(s.len() - t.len(), s.len() as int)[t.len() - j] == s[s.len() - j]);
    }
}

/// Searching from piece `i`, `attr` finds the piece after the first one from
/// `i` on that ends with `key=`.
proof fn lemma_attr_from_at(ps: Seq<Seq<char>>, tail: Seq<char>, key: Seq<char>, i: int, t: int)
    requires
        0 <= i <= t,
        t + 1 < ps.len(),
        ends_with(ps[t], key.push('=')),
        forall|k: int| i <= k < t ==> !ends_with(#[trigger] ps[k], key.push('=')),
    ensures
        attr_from(ps, tail, key, i) == Some(ps[t + 1]),
    decreases t - i,
{
    if i < t {
        lemma_attr_from_at(ps, tail, key, i + 1, t);
    }
}

/// `attr` on quote-free pieces gives the piece after the first one that ends
/// with `key=`.
proof fn lemma_attr_at(ps: Seq<Seq<char>>, tail: Seq<char>, key: Seq<char>, t: int)
    requires
        forall|k: int| 0 <= k < ps.len() ==> quote_free(#[trigger] ps[k]),
        quote_free(key),
        0 <= t,
        t + 1 < ps.len(),
        ends_with(ps[t], key.push('=')),
        forall|k: int| 0 <= k < t ==> !ends_with(#[trigger] ps[k], key.push('=')),
    ensures
        spec_attr(quoted_pieces(ps, tail), key) == Some(ps[t + 1]),
{
    lemma_attr_of_pieces(ps, tail, key, 0);
    assert(ps.skip(0) =~= ps);
    lemma_attr_from_at(ps, tail, key, 0, t);
}

/// A hexadecimal digit is neither `"` nor `=`.
proof fn lemma_hex_char_plain(d: int)
    ensures
        lower_hex_char(d) != '"',
        lower_hex_char(d) != '=',
{
}

/// A color written as `#rrggbb` holds no `"` and does not end with `=`.
proof fn lemma_hex_color_plain(c: Seq<u8>)
    requires
        c.len() == 4,
    ensures
        quote_free(spec_hex_color(c)),
        spec_hex_color(c).len() == 7,
        spec_hex_color(c).last() != '=',
{
    let s = spec_hex_color(c);
    assert forall|i: int| 0 <= i < s.len() implies s[i] != '"' by {
        lemma_hex_char_plain(c[0] as int / 16);
        lemma_hex_char_plain(c[0] as int % 16);
        lemma_hex_char_plain(c[1] as int / 16);
        lemma_hex_char_plain(c[1] as int % 16);
        lemma_hex_char_plain(c[2] as int / 16);
        lemma_hex_char_plain(c[2] as int % 16);
    }
    lemma_hex_char_plain(c[2] as int % 16);
}

/// A color written as `r,g,b,a` holds no `"` and does not end with `=`.
proof fn lemma_rgba_plain(c: Seq<u8>)
    requires
        c.len() == 4,
    ensures
        quote_free(spec_format_color(c)),
        spec_format_color(c).len() > 0,
        spec_format_color(c).last() != '=',
{
    let d0 = spec_decimal(c[0] as nat);
    let d1 = spec_decimal(c[1] as nat);
    let d2 = spec_decimal(c[2] as nat);
    let d3 = spec_decimal(c[3] as nat);
    lemma_decimal_digits(c[0] as nat);
    lemma_decimal_digits(c[1] as nat);
    lemma_decimal_digits(c[2] as nat);
    lemma_decimal_digits(c[3] as nat);
    let s = spec_format_color(c);
    assert(s == d0 + seq![','] + d1 + seq![','] + d2 + seq![','] + d3);
    assert forall|i: int| 0 <= i < s.len() implies s[i] != '"' by {
        let a = d0.len() as int;
        let b = a + 1 + d1.len();
        let e = b + 1 + d2.len();
        if i < a {
            assert(s[i] == d0[i]);
        } else if i == a {
        } else if i < b {
            assert(s[i] == d1[i - a - 1]);
        } else if i == b {
        } else if i < e {
            assert(s[i] == d2[i - b - 1]);
        } else if i == e {
        } else {
            assert(s[i] == d3[i - e - 1]);
        }
    }
    assert(s.last() == d3.last());
}

/// The texts of a path's numbers fit in its line: no `"`, and not ending with `=`.
pub open spec fn number_text_ok(t: Seq<char>) -> bool {
    quote_free(t) && (t.len() == 0 || t.last() != '=')
}

/// Whether all the number texts fit in a path line.
pub open spec fn number_texts_ok(t: NumberTextsView) -> bool {
    &&& number_text_ok(t.fill_opacity)
    &&& number_text_ok(t.stroke_width)
    &&& number_text_ok(t.points)
    &&& number_text_ok(t.control_points)
    &&& number_text_ok(t.weights)
    &&& number_text_ok(t.phis)
    &&& number_text_ok(t.psis)
}

/// The pieces of a path line are quote-free, the names sit at even places and
/// the values do not end with `=`.
proof fn lemma_path_pieces(
    layer: nat,
    path: nat,
    is_closed: bool,
    fill_enabled: bool,
    fill_color: Seq<u8>,
    stroke_color: Seq<u8>,
    t: NumberTextsView,
)
    requires
        fill_color.len() == 4,
        stroke_color.len() == 4,
        number_texts_ok(t),
    ensures
        ({
            let ps = path_tag_pieces(layer, path, is_closed, fill_enabled, fill_color, stroke_color, t);
            &&& fixed_path_pieces(ps)
            &&& path_values_open(ps)
            &&& forall|k: int| 0 <= k < ps.len() ==> quote_free(#[trigger] ps[k])
        }),
{
    let ps = path_tag_pieces(layer, path, is_closed, fill_enabled, fill_color, stroke_color, t);
    reveal_strlit("path-");
    reveal_strlit("-");
    reveal_strlit("none");
    reveal_strlit("true");
    reveal_strlit("false");
    reveal_strlit("<polyline id=");
    reveal_strlit(" fill=");
    reveal_strlit(" fill-opacity=");
    reveal_strlit(" stroke=");
    reveal_strlit(" stroke-width=");
    reveal_strlit(" points=");
    reveal_strlit(" data-ppw=");
    reveal_strlit(" data-ppw-closed=");
    reveal_strlit(" data-ppw-control-points=");
    reveal_strlit(" data-ppw-weights=");
    reveal_strlit(" data-ppw-phis=");
    reveal_strlit(" data-ppw-psis=");
    reveal_strlit(" data-ppw-fill-enabled=");
    reveal_strlit(" data-ppw-fill-color=");
    reveal_strlit(" data-ppw-stroke-width=");
    reveal_strlit(" data-ppw-stroke-color=");
    lemma_decimal_digits(layer);
    lemma_decimal_digits(path);
    lemma_hex_color_plain(fill_color);
    lemma_hex_color_plain(stroke_color);
    lemma_rgba_plain(fill_color);
    lemma_rgba_plain(stroke_color);
    let label = "path-"@ + spec_decimal(layer) + "-"@ + spec_decimal(path);
    assert(quote_free(label)) by {
        let a = 5 + spec_decimal(layer).len();
        assert forall|i: int| 0 <= i < label.len() implies label[i] != '"' by {
            if i < 5 {
                assert(label[i] == "path-"@[i]);
            } else if i < a {
                assert(label[i] == spec_decimal(layer)[i - 5]);
            } else if i == a {
                assert(label[i] == '-');
            } else {
                assert(label[i] == spec_decimal(path)[i - a - 1]);
            }
        }
    }
    assert(label.last() == spec_decimal(path).last());
    assert forall|k: int| 0 <= k < ps.len() implies quote_free(#[trigger] ps[k]) by {
        if k == 1 {
        } else if k == 3 {
        }
    }
    assert forall|k: int| 0 <= k < ps.len() && k % 2 == 1 implies (#[trigger] ps[k]).len() == 0 || ps[k].last() != '=' by {
    }
}

/// The pieces of a path line at even places are the attribute names.
pub open spec fn fixed_path_pieces(ps: Seq<Seq<char>>) -> bool {
    &&& ps.len() == 32
    &&& ps[0] == "<polyline id="@
    &&& ps[2] == " fill="@
    &&& ps[4] == " fill-opacity="@
    &&& ps[6] == " stroke="@
    &&& ps[8] == " stroke-width="@
    &&& ps[10] == " points="@
    &&& ps[12] == " data-ppw="@
    &&& ps[14] == " data-ppw-closed="@
    &&& ps[16] == " data-ppw-control-points="@
    &&& ps[18] == " data-ppw-weights="@
    &&& ps[20] == " data-ppw-phis="@
    &&& ps[22] == " data-ppw-psis="@
    &&& ps[24] == " data-ppw-fill-enabled="@
    &&& ps[26] == " data-ppw-fill-color="@
    &&& ps[28] == " data-ppw-stroke-width="@
    &&& ps[30] == " data-ppw-stroke-color="@
}

/// The pieces of a path line at odd places are values that do not end with `=`.
pub open spec fn path_values_open(ps: Seq<Seq<char>>) -> bool {
    forall|k: int| 0 <= k < ps.len() && k % 2 == 1 ==> (#[trigger] ps[k]).len() == 0 || ps[k].last() != '='
}

/// Only the piece at 14 ends with `data-ppw-closed=` among the first 15.
proof fn lemma_key_closed(ps: Seq<Seq<char>>)
    requires
        fixed_path_pieces(ps),
        path_values_open(ps),
    ensures
        forall|k: int| 0 <= k < 14 ==> !ends_with(#[trigger] ps[k], "data-ppw-closed"@.push('=')),
        ends_with(ps[14], "data-ppw-closed"@.push('=')),
{
    reveal_strlit("data-ppw-closed");
    reveal_strlit("<polyline id=");
    reveal_strlit(" fill=");
    reveal_strlit(" fill-opacity=");
    reveal_strlit(" stroke=");
    reveal_strlit(" stroke-width=");
    reveal_strlit(" points=");
    reveal_strlit(" data-ppw=");
    reveal_strlit(" data-ppw-closed=");
    let key = "data-ppw-closed"@.push('=');
    assert forall|k: int| 0 <= k < 14 implies !ends_with(#[trigger] ps[k], key) by {
        if k % 2 == 1 {
            lemma_no_key_end(ps[k], key);
        } else if k == 0 {
            lemma_not_ends_with(ps[k], key, 3);
        } else if k == 2 {
            lemma_not_ends_with(ps[k], key, 2);
        } else if k == 4 {
            lemma_not_ends_with(ps[k], key, 2);
        } else if k == 6 {
            lemma_not_ends_with(ps[k], key, 2);
        } else if k == 8 {
            lemma_not_ends_with(ps[k], key, 2);
        } else if k == 10 {
            lemma_not_ends_with(ps[k], key, 2);
        } else if k == 12 {
            lemma_not_ends_with(ps[k], key, 2);
        }
    }
    assert(ps[14].subrange(1, ps[14].len() as int) =~= key);
}

/// Only the piece at 16 ends with `data-ppw-control-points=` among the first 17.
proof fn lemma_key_control_points(ps: Seq<Seq<char>>)
    requires
        fixed_path_pieces(ps),
        path_values_open(ps),
    ensures
        forall|k: int| 0 <= k < 16 ==> !ends_with(#[trigger] ps[k], "data-ppw-control-points"@.push('=')),
        ends_with(ps[16], "data-ppw-control-points"@.push('=')),
{
    reveal_strlit("data-ppw-control-points");
    reveal_strlit("<polyline id=");
    reveal_strlit(" fill=");
    reveal_strlit(" fill-opacity=");
    reveal_strlit(" stroke=");
    reveal_strlit(" stroke-width=");
    reveal_strlit(" points=");
    reveal_strlit(" data-ppw=");
    reveal_strlit(" data-ppw-closed=");
    reveal_strlit(" data-ppw-control-points=");
    let key = "data-ppw-control-points"@.push('=');
    assert forall|k: int| 0 <= k < 16 implies !ends_with(#[trigger] ps[k], key) by {
        if k % 2 == 1 {
            lemma_no_key_end(ps[k], key);
        } else if k == 0 {
            lemma_not_ends_with(ps[k], key, 2);
        } else if k == 2 {
            lemma_not_ends_with(ps[k], key, 2);
        } else if k == 4 {
            lemma_not_ends_with(ps[k], key, 2);
        } else if k == 6 {
            lemma_not_ends_with(ps[k], key, 2);
        } else if k == 8 {
            lemma_not_ends_with(ps[k], key, 2);
        } else if k == 10 {
            lemma_not_ends_with(ps[k], key, 8);
        } else if k == 12 {
            lemma_not_ends_with(ps[k], key, 2);
        } else if k == 14 {
            lemma_not_ends_with(ps[k], key, 2);
        }
    }
    assert(ps[16].subrange(1, ps[16].len() as int) =~= key);
}

/// Only the piece at 18 ends with `data-ppw-weights=` among the first 19.
proof fn lemma_key_weights(ps: Seq<Seq<char>>)
    requires
        fixed_path_pieces(ps),
        path_values_open(ps),
    ensures
        forall|k: int| 0 <= k < 18 ==> !ends_with(#[trigger] ps[k], "data-ppw-weights"@.push('=')),
        ends_with(ps[18], "data-ppw-weights"@.push('=')),
{
    reveal_strlit("data-ppw-weights");
    reveal_strlit("<polyline id=");
    reveal_strlit(" fill=");
    reveal_strlit(" fill-opacity=");
    reveal_strlit(" stroke=");
    reveal_strlit(" stroke-width=");
    reveal_strlit(" points=");
    reveal_strlit(" data-ppw=");
    reveal_strlit(" data-ppw-closed=");
    reveal_strlit(" data-ppw-control-points=");
    reveal_strlit(" data-ppw-weights=");
    let key = "data-ppw-weights"@.push('=');
    assert forall|k: int| 0 <= k < 18 implies !ends_with(#[trigger] ps[k], key) by {
        if k % 2 == 1 {
            lemma_no_key_end(ps[k], key);
        } else if k == 0 {
            lemma_not_ends_with(ps[k], key, 2);
        } else if k == 2 {
            lemma_not_ends_with(ps[k], key, 2);
        } else if k == 4 {
            lemma_not_ends_with(ps[k], key, 2);
        } else if k == 6 {
            lemma_not_ends_with(ps[k], key, 2);
        } else if k == 8 {
            lemma_not_ends_with(ps[k], key, 2);
        } else if k == 10 {
            lemma_not_ends_with(ps[k], key, 4);
        } else if k == 12 {
            lemma_not_ends_with(ps[k], key, 2);
        } else if k == 14 {
            lemma_not_ends_with(ps[k], key, 2);
        } else if k == 16 {
            lemma_not_ends_with(ps[k], key, 4);
        }
    }
    assert(ps[18].subrange(1, ps[18].len() as int) =~= key);
}

/// Only the piece at 20 ends with `data-ppw-phis=` among the first 21.
proof fn lemma_key_phis(ps: Seq<Seq<char>>)
    requires
        fixed_path_pieces(ps),
        path_values_open(ps),
    ensures
        forall|k: int| 0 <= k < 20 ==> !ends_with(#[trigger] ps[k], "data-ppw-phis"@.push('=')),
        ends_with(ps[20], "data-ppw-phis"@.push('=')),
{
    reveal_strlit("data-ppw-phis");
    reveal_strlit("<polyline id=");
    reveal_strlit(" fill=");
    reveal_strlit(" fill-opacity=");
    reveal_strlit(" stroke=");
    reveal_strlit(" stroke-width=");
    reveal_strlit(" points=");
    reveal_strlit(" data-ppw=");
    reveal_strlit(" data-ppw-closed=");
    reveal_strlit(" data-ppw-control-points=");
    reveal_strlit(" data-ppw-weights=");
    reveal_strlit(" data-ppw-phis=");
    let key = "data-ppw-phis"@.push('=');
    assert forall|k: int| 0 <= k < 20 implies !ends_with(#[trigger] ps[k], key) by {
        if k % 2 == 1 {
            lemma_no_key_end(ps[k], key);
        } else if k == 0 {
            lemma_not_ends_with(ps[k], key, 2);
        } else if k == 2 {
            lemma_not_ends_with(ps[k], key, 2);
        } else if k == 4 {
            lemma_not_ends_with(ps[k], key, 2);
        } else if k == 6 {
            lemma_not_ends_with(ps[k], key, 2);
        } else if k == 8 {
            lemma_not_ends_with(ps[k], key, 2);
        } else if k == 10 {
            lemma_not_ends_with(ps[k], key, 3);
        } else if k == 12 {
            lemma_not_ends_with(ps[k], key, 2);
        } else if k == 14 {
            lemma_not_ends_with(ps[k], key, 2);
        } else if k == 16 {
            lemma_not_ends_with(ps[k], key, 3);
        } else if k == 18 {
            lemma_not_ends_with(ps[k], key, 3);
        }
    }
    assert(ps[20].subrange(1, ps[20].len() as int) =~= key);
}

/// Only the piece at 22 ends with `data-ppw-psis=` among the first 23.
proof fn lemma_key_psis(ps: Seq<Seq<char>>)
    requires
        fixed_path_pieces(ps),
        path_values_open(ps),
    ensures
        forall|k: int| 0 <= k < 22 ==> !ends_with(#[trigger] ps[k], "data-ppw-psis"@.push('=')),
        ends_with(ps[22], "data-ppw-psis"@.push('=')),
{
    reveal_strlit("data-ppw-psis");
    reveal_strlit("<polyline id=");
    reveal_strlit(" fill=");
    reveal_strlit(" fill-opacity=");
    reveal_strlit(" stroke=");
    reveal_strlit(" stroke-width=");
    reveal_strlit(" points=");
    reveal_strlit(" data-ppw=");
    reveal_strlit(" data-ppw-closed=");
    reveal_strlit(" data-ppw-control-points=");
    reveal_strlit(" data-ppw-weights=");
    reveal_strlit(" data-ppw-phis=");
    reveal_strlit(" data-ppw-psis=");
    let key = "data-ppw-psis"@.push('=');
    assert forall|k: int| 0 <= k < 22 implies !ends_with(#[trigger] ps[k], key) by {
        if k % 2 == 1 {
            lemma_no_key_end(ps[k], key);
        } else if k == 0 {
            lemma_not_ends_with(ps[k], key, 2);
        } else if k == 2 {
            lemma_not_ends_with(ps[k], key, 2);
        } else if k == 4 {
            lemma_not_ends_with(ps[k], key, 2);
        } else if k == 6 {
            lemma_not_ends_with(ps[k], key, 2);
        } else if k == 8 {
            lemma_not_ends_with(ps[k], key, 2);
        } else if k == 10 {
            lemma_not_ends_with(ps[k], key, 3);
        } else if k == 12 {
            lemma_not_ends_with(ps[k], key, 2);
        } else if k == 14 {
            lemma_not_ends_with(ps[k], key, 2);
        } else if k == 16 {
            lemma_not_ends_with(ps[k], key, 3);
        } else if k == 18 {
            lemma_not_ends_with(ps[k], key, 3);
        } else if k == 20 {
            lemma_not_ends_with(ps[k], key, 4);
        }
    }
    assert(ps[22].subrange(1, ps[22].len() as int) =~= key);
}

/// Only the piece at 24 ends with `data-ppw-fill-enabled=` among the first 25.
proof fn lemma_key_fill_enabled(ps: Seq<Seq<char>>)
    requires
        fixed_path_pieces(ps),
        path_values_open(ps),
    ensures
        forall|k: int| 0 <= k < 24 ==> !ends_with(#[trigger] ps[k], "data-ppw-fill-enabled"@.push('=')),
        ends_with(ps[24], "data-ppw-fill-enabled"@.push('=')),
{
    reveal_strlit("data-ppw-fill-enabled");
    reveal_strlit("<polyline id=");
    reveal_strlit(" fill=");
    reveal_strlit(" fill-opacity=");
    reveal_strlit(" stroke=");
    reveal_strlit(" stroke-width=");
    reveal_strlit(" points=");
    reveal_strlit(" data-ppw=");
    reveal_strlit(" data-ppw-closed=");
    reveal_strlit(" data-ppw-control-points=");
    reveal_strlit(" data-ppw-weights=");
    reveal_strlit(" data-ppw-phis=");
    reveal_strlit(" data-ppw-psis=");
    reveal_strlit(" data-ppw-fill-enabled=");
    let key = "data-ppw-fill-enabled"@.push('=');
    assert forall|k: int| 0 <= k < 24 implies !ends_with(#[trigger] ps[k], key) by {
        if k % 2 == 1 {
            lemma_no_key_end(ps[k], key);
        } else if k == 0 {
            lemma_not_ends_with(ps[k], key, 3);
        } else if k == 2 {
            lemma_not_ends_with(ps[k], key, 2);
        } else if k == 4 {
            lemma_not_ends_with(ps[k], key, 2);
        } else if k == 6 {
            lemma_not_ends_with(ps[k], key, 2);
        } else if k == 8 {
            lemma_not_ends_with(ps[k], key, 2);
        } else if k == 10 {
            lemma_not_ends_with(ps[k], key, 2);
        } else if k == 12 {
            lemma_not_ends_with(ps[k], key, 2);
        } else if k == 14 {
            lemma_not_ends_with(ps[k], key, 4);
        } else if k == 16 {
            lemma_not_ends_with(ps[k], key, 2);
        } else if k == 18 {
            lemma_not_ends_with(ps[k], key, 2);
        } else if k == 20 {
            lemma_not_ends_with(ps[k], key, 2);
        } else if k == 22 {
            lemma_not_ends_with(ps[k], key, 2);
        }
    }
    assert(ps[24].subrange(1, ps[24].len() as int) =~= key);
}

/// Only the piece at 26 ends with `data-ppw-fill-color=` among the first 27.
proof fn lemma_key_fill_color(ps: Seq<Seq<char>>)
    requires
        fixed_path_pieces(ps),
        path_values_open(ps),
    ensures
        forall|k: int| 0 <= k < 26 ==> !ends_with(#[trigger] ps[k], "data-ppw-fill-color"@.push('=')),
        ends_with(ps[26], "data-ppw-fill-color"@.push('=')),
{
    reveal_strlit("data-ppw-fill-color");
    reveal_strlit("<polyline id=");
    reveal_strlit(" fill=");
    reveal_strlit(" fill-opacity=");
    reveal_strlit(" stroke=");
    reveal_strlit(" stroke-width=");
    reveal_strlit(" points=");
    reveal_strlit(" data-ppw=");
    reveal_strlit(" data-ppw-closed=");
    reveal_strlit(" data-ppw-control-points=");
    reveal_strlit(" data-ppw-weights=");
    reveal_strlit(" data-ppw-phis=");
    reveal_strlit(" data-ppw-psis=");
    reveal_strlit(" data-ppw-fill-enabled=");
    reveal_strlit(" data-ppw-fill-color=");
    let key = "data-ppw-fill-color"@.push('=');
    assert forall|k: int| 0 <= k < 26 implies !ends_with(#[trigger] ps[k], key) by {
        if k % 2 == 1 {
            lemma_no_key_end(ps[k], key);
        } else if k == 0 {
            lemma_not_ends_with(ps[k], key, 2);
        } else if k == 2 {
            lemma_not_ends_with(ps[k], key, 2);
        } else if k == 4 {
            lemma_not_ends_with(ps[k], key, 2);
        } else if k == 6 {
            lemma_not_ends_with(ps[k], key, 2);
        } else if k == 8 {
            lemma_not_ends_with(ps[k], key, 2);
        } else if k == 10 {
            lemma_not_ends_with(ps[k], key, 2);
        } else if k == 12 {
            lemma_not_ends_with(ps[k], key, 2);
        } else if k == 14 {
            lemma_not_ends_with(ps[k], key, 2);
        } else if k == 16 {
            lemma_not_ends_with(ps[k], key, 2);
        } else if k == 18 {
            lemma_not_ends_with(ps[k], key, 2);
        } else if k == 20 {
            lemma_not_ends_with(ps[k], key, 2);
        } else if k == 22 {
            lemma_not_ends_with(ps[k], key, 2);
        } else if k == 24 {
            lemma_not_ends_with(ps[k], key, 2);
        }
    }
    assert(ps[26].subrange(1, ps[26].len() as int) =~= key);
}

/// Only the piece at 28 ends with `data-ppw-stroke-width=` among the first 29.
proof fn lemma_key_stroke_width(ps: Seq<Seq<char>>)
    requires
        fixed_path_pieces(ps),
        path_values_open(ps),
    ensures
        forall|k: int| 0 <= k < 28 ==> !ends_with(#[trigger] ps[k], "data-ppw-stroke-width"@.push('=')),
        ends_with(ps[28], "data-ppw-stroke-width"@.push('=')),
{
    reveal_strlit("data-ppw-stroke-width");
    reveal_strlit("<polyline id=");
    reveal_strlit(" fill=");
    reveal_strlit(" fill-opacity=");
    reveal_strlit(" stroke=");
    reveal_strlit(" stroke-width=");
    reveal_strlit(" points=");
    reveal_strlit(" data-ppw=");
    reveal_strlit(" data-ppw-closed=");
    reveal_strlit(" data-ppw-control-points=");
    reveal_strlit(" data-ppw-weights=");
    reveal_strlit(" data-ppw-phis=");
    reveal_strlit(" data-ppw-psis=");
    reveal_strlit(" data-ppw-fill-enabled=");
    reveal_strlit(" data-ppw-fill-color=");
    reveal_strlit(" data-ppw-stroke-width=");
    let key = "data-ppw-stroke-width"@.push('=');
    assert forall|k: int| 0 <= k < 28 implies !ends_with(#[trigger] ps[k], key) by {
        if k % 2 == 1 {
            lemma_no_key_end(ps[k], key);
        } else if k == 0 {
            lemma_not_ends_with(ps[k], key, 2);
        } else if k == 2 {
            lemma_not_ends_with(ps[k], key, 2);
        } else if k == 4 {
            lemma_not_ends_with(ps[k], key, 2);
        } else if k == 6 {
            lemma_not_ends_with(ps[k], key, 2);
        } else if k == 8 {
            lemma_not_ends_with(ps[k], key, 14);
        } else if k == 10 {
            lemma_not_ends_with(ps[k], key, 2);
        } else if k == 12 {
            lemma_not_ends_with(ps[k], key, 2);
        } else if k == 14 {
            lemma_not_ends_with(ps[k], key, 2);
        } else if k == 16 {
            lemma_not_ends_with(ps[k], key, 2);
        } else if k == 18 {
            lemma_not_ends_with(ps[k], key, 2);
        } else if k == 20 {
            lemma_not_ends_with(ps[k], key, 2);
        } else if k == 22 {
            lemma_not_ends_with(ps[k], key, 2);
        } else if k == 24 {
            lemma_not_ends_with(ps[k], key, 2);
        } else if k == 26 {
            lemma_not_ends_with(ps[k], key, 2);
        }
    }
    assert(ps[28].subrange(1, ps[28].len() as int) =~= key);
}

/// Only the piece at 30 ends with `data-ppw-stroke-color=` among the first 31.
proof fn lemma_key_stroke_color(ps: Seq<Seq<char>>)
    requires
        fixed_path_pieces(ps),
        path_values_open(ps),
    ensures
        forall|k: int| 0 <= k < 30 ==> !ends_with(#[trigger] ps[k], "data-ppw-stroke-color"@.push('=')),
        ends_with(ps[30], "data-ppw-stroke-color"@.push('=')),
{
    reveal_strlit("data-ppw-stroke-color");
    reveal_strlit("<polyline id=");
    reveal_strlit(" fill=");
    reveal_strlit(" fill-opacity=");
    reveal_strlit(" stroke=");
    reveal_strlit(" stroke-width=");
    reveal_strlit(" points=");
    reveal_strlit(" data-ppw=");
    reveal_strlit(" data-ppw-closed=");
    reveal_strlit(" data-ppw-control-points=");
    reveal_strlit(" data-ppw-weights=");
    reveal_strlit(" data-ppw-phis=");
    reveal_strlit(" data-ppw-psis=");
    reveal_strlit(" data-ppw-fill-enabled=");
    reveal_strlit(" data-ppw-fill-color=");
    reveal_strlit(" data-ppw-stroke-width=");
    reveal_strlit(" data-ppw-stroke-color=");
    let key = "data-ppw-stroke-color"@.push('=');
    assert forall|k: int| 0 <= k < 30 implies !ends_with(#[trigger] ps[k], key) by {
        if k % 2 == 1 {
            lemma_no_key_end(ps[k], key);
        } else if k == 0 {
            lemma_not_ends_with(ps[k], key, 2);
        } else if k == 2 {
            lemma_not_ends_with(ps[k], key, 2);
        } else if k == 4 {
            lemma_not_ends_with(ps[k], key, 2);
        } else if k == 6 {
            lemma_not_ends_with(ps[k], key, 2);
        } else if k == 8 {
            lemma_not_ends_with(ps[k], key, 2);
        } else if k == 10 {
            lemma_not_ends_with(ps[k], key, 2);
        } else if k == 12 {
            lemma_not_ends_with(ps[k], key, 2);
        } else if k == 14 {
            lemma_not_ends_with(ps[k], key, 2);
        } else if k == 16 {
            lemma_not_ends_with(ps[k], key, 2);
        } else if k == 18 {
            lemma_not_ends_with(ps[k], key, 2);
        } else if k == 20 {
            lemma_not_ends_with(ps[k], key, 2);
        } else if k == 22 {
            lemma_not_ends_with(ps[k], key, 2);
        } else if k == 24 {
            lemma_not_ends_with(ps[k], key, 2);
        } else if k == 26 {
            lemma_not_ends_with(ps[k], key, 8);
        } else if k == 28 {
            lemma_not_ends_with(ps[k], key, 2);
        }
    }
    assert(ps[30].subrange(1, ps[30].len() as int) =~= key);
}

/// A path line written and read back gives the path's closed and fill flags,
/// its fill and stroke colors, and the texts of its numbers.
pub proof fn lemma_path_tag_roundtrip(
    layer: nat,
    path: nat,
    is_closed: bool,
    fill_enabled: bool,
    fill_color: Seq<u8>,
    stroke_color: Seq<u8>,
    t: NumberTextsView,
)
    requires
        fill_color.len() == 4,
        stroke_color.len() == 4,
        number_texts_ok(t),
    ensures
        stroke_color_readable(
            spec_path_tag(layer, path, is_closed, fill_enabled, fill_color, stroke_color, t),
            "data-ppw-stroke-color"@,
        ),
        forall|f: PathFields|
            path_fields_of(spec_path_tag(layer, path, is_closed, fill_enabled, fill_color, stroke_color, t), f) ==> {
                &&& f.is_closed == is_closed
                &&& f.fill_enabled == fill_enabled
                &&& f.fill_color@ == fill_color
                &&& f.stroke_color@ == stroke_color
                &&& opt_text(f.control_points) == Some(t.control_points)
                &&& opt_text(f.weights) == Some(t.weights)
                &&& opt_text(f.phis) == Some(t.phis)
                &&& opt_text(f.psis) == Some(t.psis)
                &&& opt_text(f.stroke_width) == Some(t.stroke_width)
            },
{
    let ps = path_tag_pieces(layer, path, is_closed, fill_enabled, fill_color, stroke_color, t);
    let line = spec_path_tag(layer, path, is_closed, fill_enabled, fill_color, stroke_color, t);
    let tail = " />"@;
    lemma_path_pieces(layer, path, is_closed, fill_enabled, fill_color, stroke_color, t);
    reveal_strlit("true");
    reveal_strlit("false");
    reveal_strlit("data-ppw-closed");
    lemma_key_closed(ps);
    lemma_attr_at(ps, tail, "data-ppw-closed"@, 14);
    reveal_strlit("data-ppw-control-points");
    lemma_key_control_points(ps);
    lemma_attr_at(ps, tail, "data-ppw-control-points"@, 16);
    reveal_strlit("data-ppw-weights");
    lemma_key_weights(ps);
    lemma_attr_at(ps, tail, "data-ppw-weights"@, 18);
    reveal_strlit("data-ppw-phis");
    lemma_key_phis(ps);
    lemma_attr_at(ps, tail, "data-ppw-phis"@, 20);
    reveal_strlit("data-ppw-psis");
    lemma_key_psis(ps);
    lemma_attr_at(ps, tail, "data-ppw-psis"@, 22);
    reveal_strlit("data-ppw-fill-enabled");
    lemma_key_fill_enabled(ps);
    lemma_attr_at(ps, tail, "data-ppw-fill-enabled"@, 24);
    reveal_strlit("data-ppw-fill-color");
    lemma_key_fill_color(ps);
    lemma_attr_at(ps, tail, "data-ppw-fill-color"@, 26);
    reveal_strlit("data-ppw-stroke-width");
    lemma_key_stroke_width(ps);
    lemma_attr_at(ps, tail, "data-ppw-stroke-width"@, 28);
    reveal_strlit("data-ppw-stroke-color");
    lemma_key_stroke_color(ps);
    lemma_attr_at(ps, tail, "data-ppw-stroke-color"@, 30);
    lemma_parse_format_color(fill_color);
    lemma_parse_format_color(stroke_color);
    assert(spec_parse_bool(bool_text(is_closed)) == Some(is_closed));
    assert(spec_parse_bool(bool_text(fill_enabled)) == Some(fill_enabled));
}

/// The numbers of a raster stroke as the editor formats them.
pub struct StrokeNumberTexts {
    pub opacity: String,
    pub width: String,
    pub points: String,
}

/// The mathematical model of a stroke's number texts.
pub struct StrokeTextsView {
    pub opacity: Seq<char>,
    pub width: Seq<char>,
    pub points: Seq<char>,
}

impl View for StrokeNumberTexts {
    type V = StrokeTextsView;

    open spec fn view(&self) -> StrokeTextsView {
        StrokeTextsView { opacity: self.opacity@, width: self.width@, points: self.points@ }
    }
}

/// The quoted pieces of a raster stroke's line (see `spec_stroke_tag`).
pub open spec fn stroke_tag_pieces(layer: nat, stroke: nat, color: Seq<u8>, t: StrokeTextsView) -> Seq<Seq<char>> {
    seq![
        "<polyline id="@,
        "raster-"@ + spec_decimal(layer) + "-"@ + spec_decimal(stroke),
        " fill="@,
        "none"@,
        " stroke="@,
        spec_hex_color(color),
        " stroke-opacity="@,
        t.opacity,
        " stroke-width="@,
        t.width,
        " stroke-linecap="@,
        "round"@,
        " stroke-linejoin="@,
        "round"@,
        " points="@,
        t.points,
        " data-raster-stroke="@,
        "true"@,
        " data-raster-color="@,
        spec_format_color(color),
        " data-raster-width="@,
        t.width,
    ]
}

/// The line that holds stroke `stroke` of raster layer `layer`:
/// `<polyline id="raster-L-S" fill="none" stroke="#rrggbb" stroke-opacity="..." stroke-width="..." stroke-linecap="round" stroke-linejoin="round" points="..." data-raster-stroke="true" data-raster-color="r,g,b,a" data-raster-width="..." />`.
pub open spec fn spec_stroke_tag(layer: nat, stroke: nat, color: Seq<u8>, t: StrokeTextsView) -> Seq<char> {
    quoted_pieces(stroke_tag_pieces(layer, stroke, color, t), " />"@)
}

/// Writes the line of stroke `stroke_number` of layer `layer_number` (see
/// `spec_stroke_tag`).
pub fn raster_stroke_tag(layer_number: u64, stroke_number: u64, color: [u8; 4], texts: &StrokeNumberTexts) -> (r: String)
    ensures
        r@ == spec_stroke_tag(layer_number as nat, stroke_number as nat, color@, texts@),
{
    let mut v: Vec<char> = Vec::new();
    let ghost ps = Seq::<Seq<char>>::empty();
    assert(v@ =~= quoted_prefix(ps));
    append_piece(&mut v, "<polyline id=", Ghost(ps));
    let ghost ps = ps.push("<polyline id="@);
    let mut label: Vec<char> = Vec::new();
    append(&mut label, "raster-");
    push_decimal(&mut label, layer_number);
    append(&mut label, "-");
    push_decimal(&mut label, stroke_number);
    let label_text = string_from_chars(label.as_slice());
    append_piece(&mut v, label_text.as_str(), Ghost(ps));
    let ghost ps = ps.push(label_text@);
    append_piece(&mut v, " fill=", Ghost(ps));
    let ghost ps = ps.push(" fill="@);
    append_piece(&mut v, "none", Ghost(ps));
    let ghost ps = ps.push("none"@);
    append_piece(&mut v, " stroke=", Ghost(ps));
    let ghost ps = ps.push(" stroke="@);
    let hex = hex_color(color);
    append_piece(&mut v, hex.as_str(), Ghost(ps));
    let ghost ps = ps.push(hex@);
    append_piece(&mut v, " stroke-opacity=", Ghost(ps));
    let ghost ps = ps.push(" stroke-opacity="@);
    append_piece(&mut v, texts.opacity.as_str(), Ghost(ps));
    let ghost ps = ps.push(texts.opacity@);
    append_piece(&mut v, " stroke-width=", Ghost(ps));
    let ghost ps = ps.push(" stroke-width="@);
    append_piece(&mut v, texts.width.as_str(), Ghost(ps));
    let ghost ps = ps.push(texts.width@);
    append_piece(&mut v, " stroke-linecap=", Ghost(ps));
    let ghost ps = ps.push(" stroke-linecap="@);
    append_piece(&mut v, "round", Ghost(ps));
    let ghost ps = ps.push("round"@);
    append_piece(&mut v, " stroke-linejoin=", Ghost(ps));
    let ghost ps = ps.push(" stroke-linejoin="@);
    append_piece(&mut v, "round", Ghost(ps));
    let ghost ps = ps.push("round"@);
    append_piece(&mut v, " points=", Ghost(ps));
    let ghost ps = ps.push(" points="@);
    append_piece(&mut v, texts.points.as_str(), Ghost(ps));
    let ghost ps = ps.push(texts.points@);
    append_piece(&mut v, " data-raster-stroke=", Ghost(ps));
    let ghost ps = ps.push(" data-raster-stroke="@);
    append_piece(&mut v, "true", Ghost(ps));
    let ghost ps = ps.push("true"@);
    append_piece(&mut v, " data-raster-color=", Ghost(ps));
    let ghost ps = ps.push(" data-raster-color="@);
    let rgba = format_color(color);
    append_piece(&mut v, rgba.as_str(), Ghost(ps));
    let ghost ps = ps.push(rgba@);
    append_piece(&mut v, " data-raster-width=", Ghost(ps));
    let ghost ps = ps.push(" data-raster-width="@);
    append_piece(&mut v, texts.width.as_str(), Ghost(ps));
    let ghost ps = ps.push(texts.width@);
    append(&mut v, " />");
    proof {
        lemma_quoted_prefix(ps, " />"@);
        assert(ps =~= stroke_tag_pieces(layer_number as nat, stroke_number as nat, color@, texts@));
    }
    string_from_chars(v.as_slice())
}

/// What a raster stroke line gives: its points text, its width text
/// (`data-raster-width`, or else `stroke-width`) and its color.
pub struct StrokeFields {
    pub points: Option<String>,
    pub width: Option<String>,
    pub color: [u8; 4],
}

/// Whether `f` holds what a raster stroke `line` gives (color default `0,0,0,180`).
pub open spec fn stroke_fields_of(line: Seq<char>, f: StrokeFields) -> bool {
    &&& opt_text(f.points) == spec_attr(line, "points"@)
    &&& opt_text(f.width) == attr_or(line, "data-raster-width"@, "stroke-width"@)
    &&& f.color@ == stroke_color_of(line, "data-raster-color"@, seq![0u8, 0u8, 0u8, 180u8])
}

/// Reads the fields of a raster stroke line.
pub fn read_stroke_fields(line: &str) -> (r: StrokeFields)
    requires
        stroke_color_readable(line@, "data-raster-color"@),
    ensures
        stroke_fields_of(line@, r),
{
    let default: [u8; 4] = [0, 0, 0, 180];
    assert(default@ =~= seq![0u8, 0u8, 0u8, 180u8]);
    StrokeFields {
        points: attr(line, "points"),
        width: attr_or_else(line, "data-raster-width", "stroke-width"),
        color: stroke_color_attr(line, "data-raster-color", default),
    }
}

/// The numbers of a placed image as the editor formats them.
pub struct ImageNumberTexts {
    pub x: String,
    pub y: String,
    pub width: String,
    pub height: String,
}

/// The mathematical model of an image's number texts.
pub struct ImageTextsView {
    pub x: Seq<char>,
    pub y: Seq<char>,
    pub width: Seq<char>,
    pub height: Seq<char>,
}

impl View for ImageNumberTexts {
    type V = ImageTextsView;

    open spec fn view(&self) -> ImageTextsView {
        ImageTextsView { x: self.x@, y: self.y@, width: self.width@, height: self.height@ }
    }
}

/// The quoted pieces of a placed image's line (see `spec_image_tag`).
pub open spec fn image_tag_pieces(
    layer: nat,
    image: nat,
    t: ImageTextsView,
    uri: Seq<char>,
    id: u64,
    name: Seq<char>,
    original_width: u32,
    original_height: u32,
) -> Seq<Seq<char>> {
    seq![
        "<image id="@,
        "placed-image-"@ + spec_decimal(layer) + "-"@ + spec_decimal(image),
        " x="@,
        t.x,
        " y="@,
        t.y,
        " width="@,
        t.width,
        " height="@,
        t.height,
        " href="@,
        uri,
        " xlink:href="@,
        uri,
        " data-ppw-image="@,
        "true"@,
        " data-image-id="@,
        spec_decimal(id as nat),
        " data-image-name="@,
        spec_escape_xml(name),
        " data-image-original-width="@,
        spec_decimal(original_width as nat),
        " data-image-original-height="@,
        spec_decimal(original_height as nat),
    ]
}

/// The line that holds image `image` of layer `layer`:
/// `<image id="placed-image-L-I" x="..." y="..." width="..." height="..." href="URI" xlink:href="URI" data-ppw-image="true" data-image-id="ID" data-image-name="NAME" data-image-original-width="W" data-image-original-height="H" />`,
/// with the name escaped.
pub open spec fn spec_image_tag(
    layer: nat,
    image: nat,
    t: ImageTextsView,
    uri: Seq<char>,
    id: u64,
    name: Seq<char>,
    original_width: u32,
    original_height: u32,
) -> Seq<char> {
    quoted_pieces(image_tag_pieces(layer, image, t, uri, id, name, original_width, original_height), " />"@)
}

/// Appends `n` in decimal as a quoted piece.
fn append_decimal_piece(v: &mut Vec<char>, n: u64, Ghost(ps): Ghost<Seq<Seq<char>>>)
    requires
        old(v)@ == quoted_prefix(ps),
    ensures
        final(v)@ == quoted_prefix(ps.push(spec_decimal(n as nat))),
{
    let mut digits: Vec<char> = Vec::new();
    push_decimal(&mut digits, n);
    assert(digits@ =~= spec_decimal(n as nat));
    let text = string_from_chars(digits.as_slice());
    append_piece(v, text.as_str(), Ghost(ps));
}

/// Writes the line of image `image_number` of layer `layer_number` (see
/// `spec_image_tag`).
pub fn placed_image_tag(
    layer_number: u64,
    image_number: u64,
    texts: &ImageNumberTexts,
    uri: &str,
    id: u64,
    name: &str,
    original_width: u32,
    original_height: u32,
) -> (r: String)
    ensures
        r@ == spec_image_tag(
            layer_number as nat,
            image_number as nat,
            texts@,
            uri@,
            id,
            name@,
            original_width,
            original_height,
        ),
{
    let mut v: Vec<char> = Vec::new();
    let ghost ps = Seq::<Seq<char>>::empty();
    assert(v@ =~= quoted_prefix(ps));
    append_piece(&mut v, "<image id=", Ghost(ps));
    let ghost ps = ps.push("<image id="@);
    let mut label: Vec<char> = Vec::new();
    append(&mut label, "placed-image-");
    push_decimal(&mut label, layer_number);
    append(&mut label, "-");
    push_decimal(&mut label, image_number);
    let label_text = string_from_chars(label.as_slice());
    append_piece(&mut v, label_text.as_str(), Ghost(ps));
    let ghost ps = ps.push(label_text@);
    append_piece(&mut v, " x=", Ghost(ps));
    let ghost ps = ps.push(" x="@);
    append_piece(&mut v, texts.x.as_str(), Ghost(ps));
    let ghost ps = ps.push(texts.x@);
    append_piece(&mut v, " y=", Ghost(ps));
    let ghost ps = ps.push(" y="@);
    append_piece(&mut v, texts.y.as_str(), Ghost(ps));
    let ghost ps = ps.push(texts.y@);
    append_piece(&mut v, " width=", Ghost(ps));
    let ghost ps = ps.push(" width="@);
    append_piece(&mut v, texts.width.as_str(), Ghost(ps));
    let ghost ps = ps.push(texts.width@);
    append_piece(&mut v, " height=", Ghost(ps));
    let ghost ps = ps.push(" height="@);
    append_piece(&mut v, texts.height.as_str(), Ghost(ps));
    let ghost ps = ps.push(texts.height@);
    append_piece(&mut v, " href=", Ghost(ps));
    let ghost ps = ps.push(" href="@);
    append_piece(&mut v, uri, Ghost(ps));
    let ghost ps = ps.push(uri@);
    append_piece(&mut v, " xlink:href=", Ghost(ps));
    let ghost ps = ps.push(" xlink:href="@);
    append_piece(&mut v, uri, Ghost(ps));
    let ghost ps = ps.push(uri@);
    append_piece(&mut v, " data-ppw-image=", Ghost(ps));
    let ghost ps = ps.push(" data-ppw-image="@);
    append_piece(&mut v, "true", Ghost(ps));
    let ghost ps = ps.push("true"@);
    append_piece(&mut v, " data-image-id=", Ghost(ps));
    let ghost ps = ps.push(" data-image-id="@);
    append_decimal_piece(&mut v, id, Ghost(ps));
    let ghost ps = ps.push(spec_decimal(id as nat));
    append_piece(&mut v, " data-image-name=", Ghost(ps));
    let ghost ps = ps.push(" data-image-name="@);
    let escaped = escape_xml(name);
    append_piece(&mut v, escaped.as_str(), Ghost(ps));
    let ghost ps = ps.push(escaped@);
    append_piece(&mut v, " data-image-original-width=", Ghost(ps));
    let ghost ps = ps.push(" data-image-original-width="@);
    append_decimal_piece(&mut v, original_width as u64, Ghost(ps));
    let ghost ps = ps.push(spec_decimal(original_width as nat));
    append_piece(&mut v, " data-image-original-height=", Ghost(ps));
    let ghost ps = ps.push(" data-image-original-height="@);
    append_decimal_piece(&mut v, original_height as u64, Ghost(ps));
    let ghost ps = ps.push(spec_decimal(original_height as nat));
    append(&mut v, " />");
    proof {
        lemma_quoted_prefix(ps, " />"@);
        assert(ps =~= image_tag_pieces(
            layer_number as nat,
            image_number as nat,
            texts@,
            uri@,
            id,
            name@,
            original_width,
            original_height,
        ));
    }
    string_from_chars(v.as_slice())
}

/// The quoted pieces of a raster layer's canvas line (see `spec_canvas_tag`).
pub open spec fn canvas_tag_pieces(layer: nat, width: u32, height: u32, uri: Seq<char>) -> Seq<Seq<char>> {
    seq![
        "<image id="@,
        "raster-canvas-"@ + spec_decimal(layer),
        " x="@,
        "0"@,
        " y="@,
        "0"@,
        " width="@,
        spec_decimal(width as nat),
        " height="@,
        spec_decimal(height as nat),
        " href="@,
        uri,
        " xlink:href="@,
        uri,
        " data-ppw-raster-canvas="@,
        "true"@,
        " data-raster-width="@,
        spec_decimal(width as nat),
        " data-raster-height="@,
        spec_decimal(height as nat),
    ]
}

/// The line that holds the canvas of raster layer `layer`:
/// `<image id="raster-canvas-L" x="0" y="0" width="W" height="H" href="URI" xlink:href="URI" data-ppw-raster-canvas="true" data-raster-width="W" data-raster-height="H" />`.
pub open spec fn spec_canvas_tag(layer: nat, width: u32, height: u32, uri: Seq<char>) -> Seq<char> {
    quoted_pieces(canvas_tag_pieces(layer, width, height, uri), " />"@)
}

/// Writes the canvas line of raster layer `layer_number` (see `spec_canvas_tag`).
pub fn raster_canvas_tag(layer_number: u64, width: u32, height: u32, uri: &str) -> (r: String)
    ensures
        r@ == spec_canvas_tag(layer_number as nat, width, height, uri@),
{
    let mut v: Vec<char> = Vec::new();
    let ghost ps = Seq::<Seq<char>>::empty();
    assert(v@ =~= quoted_prefix(ps));
    append_piece(&mut v, "<image id=", Ghost(ps));
    let ghost ps = ps.push("<image id="@);
    let mut label: Vec<char> = Vec::new();
    append(&mut label, "raster-canvas-");
    push_decimal(&mut label, layer_number);
    let label_text = string_from_chars(label.as_slice());
    append_piece(&mut v, label_text.as_str(), Ghost(ps));
    let ghost ps = ps.push(label_text@);
    append_piece(&mut v, " x=", Ghost(ps));
    let ghost ps = ps.push(" x="@);
    append_piece(&mut v, "0", Ghost(ps));
    let ghost ps = ps.push("0"@);
    append_piece(&mut v, " y=", Ghost(ps));
    let ghost ps = ps.push(" y="@);
    append_piece(&mut v, "0", Ghost(ps));
    let ghost ps = ps.push("0"@);
    append_piece(&mut v, " width=", Ghost(ps));
    let ghost ps = ps.push(" width="@);
    append_decimal_piece(&mut v, width as u64, Ghost(ps));
    let ghost ps = ps.push(spec_decimal(width as nat));
    append_piece(&mut v, " height=", Ghost(ps));
    let ghost ps = ps.push(" height="@);
    append_decimal_piece(&mut v, height as u64, Ghost(ps));
    let ghost ps = ps.push(spec_decimal(height as nat));
    append_piece(&mut v, " href=", Ghost(ps));
    let ghost ps = ps.push(" href="@);
    append_piece(&mut v, uri, Ghost(ps));
    let ghost ps = ps.push(uri@);
    append_piece(&mut v, " xlink:href=", Ghost(ps));
    let ghost ps = ps.push(" xlink:href="@);
    append_piece(&mut v, uri, Ghost(ps));
    let ghost ps = ps.push(uri@);
    append_piece(&mut v, " data-ppw-raster-canvas=", Ghost(ps));
    let ghost ps = ps.push(" data-ppw-raster-canvas="@);
    append_piece(&mut v, "true", Ghost(ps));
    let ghost ps = ps.push("true"@);
    append_piece(&mut v, " data-raster-width=", Ghost(ps));
    let ghost ps = ps.push(" data-raster-width="@);
    append_decimal_piece(&mut v, width as u64, Ghost(ps));
    let ghost ps = ps.push(spec_decimal(width as nat));
    append_piece(&mut v, " data-raster-height=", Ghost(ps));
    let ghost ps = ps.push(" data-raster-height="@);
    append_decimal_piece(&mut v, height as u64, Ghost(ps));
    let ghost ps = ps.push(spec_decimal(height as nat));
    append(&mut v, " />");
    proof {
        lemma_quoted_prefix(ps, " />"@);
        assert(ps =~= canvas_tag_pieces(layer_number as nat, width, height, uri@));
    }
    string_from_chars(v.as_slice())
}

/// The pieces of a stroke line at even places are the attribute names.
pub open spec fn fixed_stroke_pieces(ps: Seq<Seq<char>>) -> bool {
    &&& ps.len() == 22
    &&& ps[0] == "<polyline id="@
    &&& ps[2] == " fill="@
    &&& ps[4] == " stroke="@
    &&& ps[6] == " stroke-opacity="@
    &&& ps[8] == " stroke-width="@
    &&& ps[10] == " stroke-linecap="@
    &&& ps[12] == " stroke-linejoin="@
    &&& ps[14] == " points="@
    &&& ps[16] == " data-raster-stroke="@
    &&& ps[18] == " data-raster-color="@
    &&& ps[20] == " data-raster-width="@
}

/// The values of a stroke line before the last key read do not end with `=`.
pub open spec fn stroke_values_open(ps: Seq<Seq<char>>) -> bool {
    &&& forall|k: int| 0 <= k < 22 && k % 2 == 1 ==> (#[trigger] ps[k]).len() == 0 || ps[k].last() != '='
}

/// Only the piece at 14 ends with `points=` among the first 15.
proof fn lemma_stroke_key_points(ps: Seq<Seq<char>>)
    requires
        fixed_stroke_pieces(ps),
        stroke_values_open(ps),
    ensures
        forall|k: int| 0 <= k < 14 ==> !ends_with(#[trigger] ps[k], "points"@.push('=')),
        ends_with(ps[14], "points"@.push('=')),
{
    reveal_strlit("points");
    reveal_strlit("<polyline id=");
    reveal_strlit(" fill=");
    reveal_strlit(" stroke=");
    reveal_strlit(" stroke-opacity=");
    reveal_strlit(" stroke-width=");
    reveal_strlit(" stroke-linecap=");
    reveal_strlit(" stroke-linejoin=");
    reveal_strlit(" points=");
    let key = "points"@.push('=');
    assert forall|k: int| 0 <= k < 14 implies !ends_with(#[trigger] ps[k], key) by {
        if k % 2 == 1 {
            lemma_no_key_end(ps[k], key);
        } else if k == 0 {
            lemma_not_ends_with(ps[k], key, 2);
        } else if k == 2 {
            lemma_not_ends_with(ps[k], key, 2);
        } else if k == 4 {
            lemma_not_ends_with(ps[k], key, 2);
        } else if k == 6 {
            lemma_not_ends_with(ps[k], key, 2);
        } else if k == 8 {
            lemma_not_ends_with(ps[k], key, 2);
        } else if k == 10 {
            lemma_not_ends_with(ps[k], key, 2);
        } else if k == 12 {
            lemma_not_ends_with(ps[k], key, 2);
        }
    }
    assert(ps[14].subrange(1, ps[14].len() as int) =~= key);
}

/// Only the piece at 18 ends with `data-raster-color=` among the first 19.
proof fn lemma_stroke_key_color(ps: Seq<Seq<char>>)
    requires
        fixed_stroke_pieces(ps),
        stroke_values_open(ps),
    ensures
        forall|k: int| 0 <= k < 18 ==> !ends_with(#[trigger] ps[k], "data-raster-color"@.push('=')),
        ends_with(ps[18], "data-raster-color"@.push('=')),
{
    reveal_strlit("data-raster-color");
    reveal_strlit("<polyline id=");
    reveal_strlit(" fill=");
    reveal_strlit(" stroke=");
    reveal_strlit(" stroke-opacity=");
    reveal_strlit(" stroke-width=");
    reveal_strlit(" stroke-linecap=");
    reveal_strlit(" stroke-linejoin=");
    reveal_strlit(" points=");
    reveal_strlit(" data-raster-stroke=");
    reveal_strlit(" data-raster-color=");
    let key = "data-raster-color"@.push('=');
    assert forall|k: int| 0 <= k < 18 implies !ends_with(#[trigger] ps[k], key) by {
        if k % 2 == 1 {
            lemma_no_key_end(ps[k], key);
        } else if k == 0 {
            lemma_not_ends_with(ps[k], key, 2);
        } else if k == 2 {
            lemma_not_ends_with(ps[k], key, 2);
        } else if k == 4 {
            lemma_not_ends_with(ps[k], key, 2);
        } else if k == 6 {
            lemma_not_ends_with(ps[k], key, 2);
        } else if k == 8 {
            lemma_not_ends_with(ps[k], key, 2);
        } else if k == 10 {
            lemma_not_ends_with(ps[k], key, 2);
        } else if k == 12 {
            lemma_not_ends_with(ps[k], key, 2);
        } else if k == 14 {
            lemma_not_ends_with(ps[k], key, 2);
        } else if k == 16 {
            lemma_not_ends_with(ps[k], key, 2);
        }
    }
    assert(ps[18].subrange(1, ps[18].len() as int) =~= key);
}

/// Only the piece at 20 ends with `data-raster-width=` among the first 21.
proof fn lemma_stroke_key_width(ps: Seq<Seq<char>>)
    requires
        fixed_stroke_pieces(ps),
        stroke_values_open(ps),
    ensures
        forall|k: int| 0 <= k < 20 ==> !ends_with(#[trigger] ps[k], "data-raster-width"@.push('=')),
        ends_with(ps[20], "data-raster-width"@.push('=')),
{
    reveal_strlit("data-raster-width");
    reveal_strlit("<polyline id=");
    reveal_strlit(" fill=");
    reveal_strlit(" stroke=");
    reveal_strlit(" stroke-opacity=");
    reveal_strlit(" stroke-width=");
    reveal_strlit(" stroke-linecap=");
    reveal_strlit(" stroke-linejoin=");
    reveal_strlit(" points=");
    reveal_strlit(" data-raster-stroke=");
    reveal_strlit(" data-raster-color=");
    reveal_strlit(" data-raster-width=");
    let key = "data-raster-width"@.push('=');
    assert forall|k: int| 0 <= k < 20 implies !ends_with(#[trigger] ps[k], key) by {
        if k % 2 == 1 {
            lemma_no_key_end(ps[k], key);
        } else if k == 0 {
            lemma_not_ends_with(ps[k], key, 2);
        } else if k == 2 {
            lemma_not_ends_with(ps[k], key, 2);
        } else if k == 4 {
            lemma_not_ends_with(ps[k], key, 2);
        } else if k == 6 {
            lemma_not_ends_with(ps[k], key, 2);
        } else if k == 8 {
            lemma_not_ends_with(ps[k], key, 8);
        } else if k == 10 {
            lemma_not_ends_with(ps[k], key, 2);
        } else if k == 12 {
            lemma_not_ends_with(ps[k], key, 2);
        } else if k == 14 {
            lemma_not_ends_with(ps[k], key, 2);
        } else if k == 16 {
            lemma_not_ends_with(ps[k], key, 2);
        } else if k == 18 {
            lemma_not_ends_with(ps[k], key, 2);
        }
    }
    assert(ps[20].subrange(1, ps[20].len() as int) =~= key);
}

/// The pieces of an image line at even places are the attribute names.
pub open spec fn fixed_image_pieces(ps: Seq<Seq<char>>) -> bool {
    &&& ps.len() == 24
    &&& ps[0] == "<image id="@
    &&& ps[2] == " x="@
    &&& ps[4] == " y="@
    &&& ps[6] == " width="@
    &&& ps[8] == " height="@
    &&& ps[10] == " href="@
    &&& ps[12] == " xlink:href="@
    &&& ps[14] == " data-ppw-image="@
    &&& ps[16] == " data-image-id="@
    &&& ps[18] == " data-image-name="@
    &&& ps[20] == " data-image-original-width="@
    &&& ps[22] == " data-image-original-height="@
}

/// The values of an image line before the last key read do not end with `=`, but for the data URIs, which hold no `-`.
pub open spec fn image_values_open(ps: Seq<Seq<char>>) -> bool {
    &&& forall|k: int| 0 <= k < 18 && k % 2 == 1 && k != 11 && k != 13 ==> (#[trigger] ps[k]).len() == 0 || ps[k].last() != '='
    &&& uri_plain(ps[11])
    &&& uri_plain(ps[13])
}

/// Only the piece at 2 ends with `x=` among the first 3.
proof fn lemma_image_key_x(ps: Seq<Seq<char>>)
    requires
        fixed_image_pieces(ps),
        image_values_open(ps),
    ensures
        forall|k: int| 0 <= k < 2 ==> !ends_with(#[trigger] ps[k], "x"@.push('=')),
        ends_with(ps[2], "x"@.push('=')),
{
    reveal_strlit("x");
    reveal_strlit("<image id=");
    reveal_strlit(" x=");
    let key = "x"@.push('=');
    assert forall|k: int| 0 <= k < 2 implies !ends_with(#[trigger] ps[k], key) by {
        if k % 2 == 1 && k != 11 && k != 13 {
            lemma_no_key_end(ps[k], key);
        } else if k == 0 {
            lemma_not_ends_with(ps[k], key, 2);
        }
    }
    assert(ps[2].subrange(1, ps[2].len() as int) =~= key);
}

/// Only the piece at 4 ends with `y=` among the first 5.
proof fn lemma_image_key_y(ps: Seq<Seq<char>>)
    requires
        fixed_image_pieces(ps),
        image_values_open(ps),
    ensures
        forall|k: int| 0 <= k < 4 ==> !ends_with(#[trigger] ps[k], "y"@.push('=')),
        ends_with(ps[4], "y"@.push('=')),
{
    reveal_strlit("y");
    reveal_strlit("<image id=");
    reveal_strlit(" x=");
    reveal_strlit(" y=");
    let key = "y"@.push('=');
    assert forall|k: int| 0 <= k < 4 implies !ends_with(#[trigger] ps[k], key) by {
        if k % 2 == 1 && k != 11 && k != 13 {
            lemma_no_key_end(ps[k], key);
        } else if k == 0 {
            lemma_not_ends_with(ps[k], key, 2);
        } else if k == 2 {
            lemma_not_ends_with(ps[k], key, 2);
        }
    }
    assert(ps[4].subrange(1, ps[4].len() as int) =~= key);
}

/// Only the piece at 6 ends with `width=` among the first 7.
proof fn lemma_image_key_width(ps: Seq<Seq<char>>)
    requires
        fixed_image_pieces(ps),
        image_values_open(ps),
    ensures
        forall|k: int| 0 <= k < 6 ==> !ends_with(#[trigger] ps[k], "width"@.push('=')),
        ends_with(ps[6], "width"@.push('=')),
{
    reveal_strlit("width");
    reveal_strlit("<image id=");
    reveal_strlit(" x=");
    reveal_strlit(" y=");
    reveal_strlit(" width=");
    let key = "width"@.push('=');
    assert forall|k: int| 0 <= k < 6 implies !ends_with(#[trigger] ps[k], key) by {
        if k % 2 == 1 && k != 11 && k != 13 {
            lemma_no_key_end(ps[k], key);
        } else if k == 0 {
            lemma_not_ends_with(ps[k], key, 2);
        } else if k == 2 {
            lemma_not_ends_with(ps[k], key, 2);
        } else if k == 4 {
            lemma_not_ends_with(ps[k], key, 2);
        }
    }
    assert(ps[6].subrange(1, ps[6].len() as int) =~= key);
}

/// Only the piece at 8 ends with `height=` among the first 9.
proof fn lemma_image_key_height(ps: Seq<Seq<char>>)
    requires
        fixed_image_pieces(ps),
        image_values_open(ps),
    ensures
        forall|k: int| 0 <= k < 8 ==> !ends_with(#[trigger] ps[k], "height"@.push('=')),
        ends_with(ps[8], "height"@.push('=')),
{
    reveal_strlit("height");
    reveal_strlit("<image id=");
    reveal_strlit(" x=");
    reveal_strlit(" y=");
    reveal_strlit(" width=");
    reveal_strlit(" height=");
    let key = "height"@.push('=');
    assert forall|k: int| 0 <= k < 8 implies !ends_with(#[trigger] ps[k], key) by {
        if k % 2 == 1 && k != 11 && k != 13 {
            lemma_no_key_end(ps[k], key);
        } else if k == 0 {
            lemma_not_ends_with(ps[k], key, 2);
        } else if k == 2 {
            lemma_not_ends_with(ps[k], key, 2);
        } else if k == 4 {
            lemma_not_ends_with(ps[k], key, 2);
        } else if k == 6 {
            lemma_not_ends_with(ps[k], key, 2);
        }
    }
    assert(ps[8].subrange(1, ps[8].len() as int) =~= key);
}

/// Only the piece at 10 ends with `href=` among the first 11.
proof fn lemma_image_key_href(ps: Seq<Seq<char>>)
    requires
        fixed_image_pieces(ps),
        image_values_open(ps),
    ensures
        forall|k: int| 0 <= k < 10 ==> !ends_with(#[trigger] ps[k], "href"@.push('=')),
        ends_with(ps[10], "href"@.push('=')),
{
    reveal_strlit("href");
    reveal_strlit("<image id=");
    reveal_strlit(" x=");
    reveal_strlit(" y=");
    reveal_strlit(" width=");
    reveal_strlit(" height=");
    reveal_strlit(" href=");
    let key = "href"@.push('=');
    assert forall|k: int| 0 <= k < 10 implies !ends_with(#[trigger] ps[k], key) by {
        if k % 2 == 1 && k != 11 && k != 13 {
            lemma_no_key_end(ps[k], key);
        } else if k == 0 {
            lemma_not_ends_with(ps[k], key, 2);
        } else if k == 2 {
            lemma_not_ends_with(ps[k], key, 2);
        } else if k == 4 {
            lemma_not_ends_with(ps[k], key, 2);
        } else if k == 6 {
            lemma_not_ends_with(ps[k], key, 2);
        } else if k == 8 {
            lemma_not_ends_with(ps[k], key, 2);
        }
    }
    assert(ps[10].subrange(1, ps[10].len() as int) =~= key);
}

/// Only the piece at 16 ends with `data-image-id=` among the first 17.
proof fn lemma_image_key_id(ps: Seq<Seq<char>>)
    requires
        fixed_image_pieces(ps),
        image_values_open(ps),
    ensures
        forall|k: int| 0 <= k < 16 ==> !ends_with(#[trigger] ps[k], "data-image-id"@.push('=')),
        ends_with(ps[16], "data-image-id"@.push('=')),
{
    reveal_strlit("data-image-id");
    reveal_strlit("<image id=");
    reveal_strlit(" x=");
    reveal_strlit(" y=");
    reveal_strlit(" width=");
    reveal_strlit(" height=");
    reveal_strlit(" href=");
    reveal_strlit(" xlink:href=");
    reveal_strlit(" data-ppw-image=");
    reveal_strlit(" data-image-id=");
    let key = "data-image-id"@.push('=');
    assert forall|k: int| 0 <= k < 16 implies !ends_with(#[trigger] ps[k], key) by {
        if k % 2 == 1 && k != 11 && k != 13 {
            lemma_no_key_end(ps[k], key);
        } else if k == 11 {
            lemma_not_ends_with(ps[k], key, 4);
        } else if k == 13 {
            lemma_not_ends_with(ps[k], key, 4);
        } else if k == 0 {
            lemma_not_ends_with(ps[k], key, 4);
        } else if k == 2 {
            lemma_not_ends_with(ps[k], key, 2);
        } else if k == 4 {
            lemma_not_ends_with(ps[k], key, 2);
        } else if k == 6 {
            lemma_not_ends_with(ps[k], key, 2);
        } else if k == 8 {
            lemma_not_ends_with(ps[k], key, 2);
        } else if k == 10 {
            lemma_not_ends_with(ps[k], key, 2);
        } else if k == 12 {
            lemma_not_ends_with(ps[k], key, 2);
        } else if k == 14 {
            lemma_not_ends_with(ps[k], key, 2);
        }
    }
    assert(ps[16].subrange(1, ps[16].len() as int) =~= key);
}

/// Only the piece at 18 ends with `data-image-name=` among the first 19.
proof fn lemma_image_key_name(ps: Seq<Seq<char>>)
    requires
        fixed_image_pieces(ps),
        image_values_open(ps),
    ensures
        forall|k: int| 0 <= k < 18 ==> !ends_with(#[trigger] ps[k], "data-image-name"@.push('=')),
        ends_with(ps[18], "data-image-name"@.push('=')),
{
    reveal_strlit("data-image-name");
    reveal_strlit("<image id=");
    reveal_strlit(" x=");
    reveal_strlit(" y=");
    reveal_strlit(" width=");
    reveal_strlit(" height=");
    reveal_strlit(" href=");
    reveal_strlit(" xlink:href=");
    reveal_strlit(" data-ppw-image=");
    reveal_strlit(" data-image-id=");
    reveal_strlit(" data-image-name=");
    let key = "data-image-name"@.push('=');
    assert forall|k: int| 0 <= k < 18 implies !ends_with(#[trigger] ps[k], key) by {
        if k % 2 == 1 && k != 11 && k != 13 {
            lemma_no_key_end(ps[k], key);
        } else if k == 11 {
            lemma_not_ends_with(ps[k], key, 6);
        } else if k == 13 {
            lemma_not_ends_with(ps[k], key, 6);
        } else if k == 0 {
            lemma_not_ends_with(ps[k], key, 2);
        } else if k == 2 {
            lemma_not_ends_with(ps[k], key, 2);
        } else if k == 4 {
            lemma_not_ends_with(ps[k], key, 2);
        } else if k == 6 {
            lemma_not_ends_with(ps[k], key, 2);
        } else if k == 8 {
            lemma_not_ends_with(ps[k], key, 2);
        } else if k == 10 {
            lemma_not_ends_with(ps[k], key, 2);
        } else if k == 12 {
            lemma_not_ends_with(ps[k], key, 2);
        } else if k == 14 {
            lemma_not_ends_with(ps[k], key, 3);
        } else if k == 16 {
            lemma_not_ends_with(ps[k], key, 2);
        }
    }
    assert(ps[18].subrange(1, ps[18].len() as int) =~= key);
}

/// The pieces of a canvas line at even places are the attribute names.
pub open spec fn fixed_canvas_pieces(ps: Seq<Seq<char>>) -> bool {
    &&& ps.len() == 20
    &&& ps[0] == "<image id="@
    &&& ps[2] == " x="@
    &&& ps[4] == " y="@
    &&& ps[6] == " width="@
    &&& ps[8] == " height="@
    &&& ps[10] == " href="@
    &&& ps[12] == " xlink:href="@
    &&& ps[14] == " data-ppw-raster-canvas="@
    &&& ps[16] == " data-raster-width="@
    &&& ps[18] == " data-raster-height="@
}

/// The values of a canvas line before the last key read do not end with `=`.
pub open spec fn canvas_values_open(ps: Seq<Seq<char>>) -> bool {
    &&& forall|k: int| 0 <= k < 10 && k % 2 == 1 ==> (#[trigger] ps[k]).len() == 0 || ps[k].last() != '='
}

/// Only the piece at 10 ends with `href=` among the first 11.
proof fn lemma_canvas_key_href(ps: Seq<Seq<char>>)
    requires
        fixed_canvas_pieces(ps),
        canvas_values_open(ps),
    ensures
        forall|k: int| 0 <= k < 10 ==> !ends_with(#[trigger] ps[k], "href"@.push('=')),
        ends_with(ps[10], "href"@.push('=')),
{
    reveal_strlit("href");
    reveal_strlit("<image id=");
    reveal_strlit(" x=");
    reveal_strlit(" y=");
    reveal_strlit(" width=");
    reveal_strlit(" height=");
    reveal_strlit(" href=");
    let key = "href"@.push('=');
    assert forall|k: int| 0 <= k < 10 implies !ends_with(#[trigger] ps[k], key) by {
        if k % 2 == 1 {
            lemma_no_key_end(ps[k], key);
        } else if k == 0 {
            lemma_not_ends_with(ps[k], key, 2);
        } else if k == 2 {
            lemma_not_ends_with(ps[k], key, 2);
        } else if k == 4 {
            lemma_not_ends_with(ps[k], key, 2);
        } else if k == 6 {
            lemma_not_ends_with(ps[k], key, 2);
        } else if k == 8 {
            lemma_not_ends_with(ps[k], key, 2);
        }
    }
    assert(ps[10].subrange(1, ps[10].len() as int) =~= key);
}

/// Decimal digits hold no `"` and end with a digit.
proof fn lemma_decimal_plain(n: nat)
    ensures
        quote_free(spec_decimal(n)),
        spec_decimal(n).len() > 0,
        spec_decimal(n).last() != '=',
{
    lemma_decimal_digits(n);
    assert(spec_decimal(n).last() == spec_decimal(n)[spec_decimal(n).len() - 1]);
}

/// `prefix` followed by numbers holds no `"` when `prefix` holds none, and
/// ends with a digit.
proof fn lemma_label_plain(prefix: Seq<char>, a: nat, b: nat)
    requires
        quote_free(prefix),
    ensures
        quote_free(prefix + spec_decimal(a) + "-"@ + spec_decimal(b)),
        (prefix + spec_decimal(a) + "-"@ + spec_decimal(b)).last() != '=',
        quote_free(prefix + spec_decimal(a)),
        (prefix + spec_decimal(a)).last() != '=',
{
    reveal_strlit("-");
    lemma_decimal_plain(a);
    lemma_decimal_plain(b);
    let p = prefix.len() as int;
    let la = prefix + spec_decimal(a);
    let label = la + "-"@ + spec_decimal(b);
    assert forall|i: int| 0 <= i < la.len() implies la[i] != '"' by {
        if i < p {
            assert(la[i] == prefix[i]);
        } else {
            assert(la[i] == spec_decimal(a)[i - p]);
        }
    }
    assert forall|i: int| 0 <= i < label.len() implies label[i] != '"' by {
        if i < la.len() {
            assert(label[i] == la[i]);
        } else if i == la.len() {
            assert(label[i] == '-');
        } else {
            assert(label[i] == spec_decimal(b)[i - la.len() - 1]);
        }
    }
    assert(label.last() == spec_decimal(b).last());
    assert(la.last() == spec_decimal(a).last());
}

/// The pieces of a raster stroke line are quote-free, the names sit at even
/// places and the values do not end with `=`.
proof fn lemma_stroke_pieces(layer: nat, stroke: nat, color: Seq<u8>, t: StrokeTextsView)
    requires
        color.len() == 4,
        number_text_ok(t.opacity),
        number_text_ok(t.width),
        number_text_ok(t.points),
    ensures
        ({
            let ps = stroke_tag_pieces(layer, stroke, color, t);
            &&& fixed_stroke_pieces(ps)
            &&& stroke_values_open(ps)
            &&& forall|k: int| 0 <= k < ps.len() ==> quote_free(#[trigger] ps[k])
        }),
{
    let ps = stroke_tag_pieces(layer, stroke, color, t);
    reveal_strlit("raster-");
    reveal_strlit("none");
    reveal_strlit("round");
    reveal_strlit("true");
    reveal_strlit("<polyline id=");
    reveal_strlit(" fill=");
    reveal_strlit(" stroke=");
    reveal_strlit(" stroke-opacity=");
    reveal_strlit(" stroke-width=");
    reveal_strlit(" stroke-linecap=");
    reveal_strlit(" stroke-linejoin=");
    reveal_strlit(" points=");
    reveal_strlit(" data-raster-stroke=");
    reveal_strlit(" data-raster-color=");
    reveal_strlit(" data-raster-width=");
    lemma_label_plain("raster-"@, layer, stroke);
    lemma_hex_color_plain(color);
    lemma_rgba_plain(color);
    assert forall|k: int| 0 <= k < ps.len() implies quote_free(#[trigger] ps[k]) by {}
    assert forall|k: int| 0 <= k < 22 && k % 2 == 1 implies (#[trigger] ps[k]).len() == 0 || ps[k].last() != '=' by {}
}

/// A raster stroke line written and read back gives the stroke's color and the
/// texts of its points and width.
pub proof fn lemma_stroke_tag_roundtrip(layer: nat, stroke: nat, color: Seq<u8>, t: StrokeTextsView)
    requires
        color.len() == 4,
        number_text_ok(t.opacity),
        number_text_ok(t.width),
        number_text_ok(t.points),
    ensures
        stroke_color_readable(spec_stroke_tag(layer, stroke, color, t), "data-raster-color"@),
        forall|f: StrokeFields| stroke_fields_of(spec_stroke_tag(layer, stroke, color, t), f) ==> {
            &&& opt_text(f.points) == Some(t.points)
            &&& opt_text(f.width) == Some(t.width)
            &&& f.color@ == color
        },
{
    let ps = stroke_tag_pieces(layer, stroke, color, t);
    let tail = " />"@;
    lemma_stroke_pieces(layer, stroke, color, t);
    reveal_strlit("points");
    lemma_stroke_key_points(ps);
    lemma_attr_at(ps, tail, "points"@, 14);
    reveal_strlit("data-raster-color");
    lemma_stroke_key_color(ps);
    lemma_attr_at(ps, tail, "data-raster-color"@, 18);
    reveal_strlit("data-raster-width");
    lemma_stroke_key_width(ps);
    lemma_attr_at(ps, tail, "data-raster-width"@, 20);
    lemma_parse_format_color(color);
}

/// The pieces of a placed image line are quote-free, the names sit at even
/// places and the values before the last key read do not end with `=` (but
/// for the data URIs, which hold no `-`).
proof fn lemma_image_pieces(
    layer: nat,
    image: nat,
    t: ImageTextsView,
    uri: Seq<char>,
    id: u64,
    name: Seq<char>,
    original_width: u32,
    original_height: u32,
)
    requires
        number_text_ok(t.x),
        number_text_ok(t.y),
        number_text_ok(t.width),
        number_text_ok(t.height),
        uri_plain(uri),
    ensures
        ({
            let ps = image_tag_pieces(layer, image, t, uri, id, name, original_width, original_height);
            &&& fixed_image_pieces(ps)
            &&& image_values_open(ps)
            &&& forall|k: int| 0 <= k < ps.len() ==> quote_free(#[trigger] ps[k])
        }),
{
    let ps = image_tag_pieces(layer, image, t, uri, id, name, original_width, original_height);
    reveal_strlit("placed-image-");
    reveal_strlit("true");
    reveal_strlit("<image id=");
    reveal_strlit(" x=");
    reveal_strlit(" y=");
    reveal_strlit(" width=");
    reveal_strlit(" height=");
    reveal_strlit(" href=");
    reveal_strlit(" xlink:href=");
    reveal_strlit(" data-ppw-image=");
    reveal_strlit(" data-image-id=");
    reveal_strlit(" data-image-name=");
    reveal_strlit(" data-image-original-width=");
    reveal_strlit(" data-image-original-height=");
    lemma_label_plain("placed-image-"@, layer, image);
    lemma_decimal_plain(id as nat);
    lemma_decimal_plain(original_width as nat);
    lemma_decimal_plain(original_height as nat);
    lemma_escape_has_no_quote(name);
    assert(quote_free(uri));
    assert forall|k: int| 0 <= k < ps.len() implies quote_free(#[trigger] ps[k]) by {}
}

/// A placed image line written and read back gives the image's id and name,
/// its data URI and the texts of its place and size.
pub proof fn lemma_image_tag_roundtrip(
    layer: nat,
    image: nat,
    t: ImageTextsView,
    uri: Seq<char>,
    id: u64,
    name: Seq<char>,
    original_width: u32,
    original_height: u32,
    max_id: u64,
)
    requires
        number_text_ok(t.x),
        number_text_ok(t.y),
        number_text_ok(t.width),
        number_text_ok(t.height),
        uri_plain(uri),
    ensures
        ({
            let line = spec_image_tag(layer, image, t, uri, id, name, original_width, original_height);
            &&& image_id_of(line, max_id) == id
            &&& image_name_of(line) == name
            &&& spec_attr(line, "href"@) == Some(uri)
            &&& spec_attr(line, "x"@) == Some(t.x)
            &&& spec_attr(line, "y"@) == Some(t.y)
            &&& spec_attr(line, "width"@) == Some(t.width)
            &&& spec_attr(line, "height"@) == Some(t.height)
        }),
{
    let ps = image_tag_pieces(layer, image, t, uri, id, name, original_width, original_height);
    let tail = " />"@;
    lemma_image_pieces(layer, image, t, uri, id, name, original_width, original_height);
    reveal_strlit("x");
    lemma_image_key_x(ps);
    lemma_attr_at(ps, tail, "x"@, 2);
    reveal_strlit("y");
    lemma_image_key_y(ps);
    lemma_attr_at(ps, tail, "y"@, 4);
    reveal_strlit("width");
    lemma_image_key_width(ps);
    lemma_attr_at(ps, tail, "width"@, 6);
    reveal_strlit("height");
    lemma_image_key_height(ps);
    lemma_attr_at(ps, tail, "height"@, 8);
    reveal_strlit("href");
    lemma_image_key_href(ps);
    lemma_attr_at(ps, tail, "href"@, 10);
    reveal_strlit("data-image-id");
    lemma_image_key_id(ps);
    lemma_attr_at(ps, tail, "data-image-id"@, 16);
    reveal_strlit("data-image-name");
    lemma_image_key_name(ps);
    lemma_attr_at(ps, tail, "data-image-name"@, 18);
    lemma_parse_u64_decimal(id);
    lemma_unescape_escape(name);
}

/// The pieces of a canvas line are quote-free, the names sit at even places
/// and the values before `href` do not end with `=`.
proof fn lemma_canvas_pieces(layer: nat, width: u32, height: u32, uri: Seq<char>)
    requires
        uri_plain(uri),
    ensures
        ({
            let ps = canvas_tag_pieces(layer, width, height, uri);
            &&& fixed_canvas_pieces(ps)
            &&& canvas_values_open(ps)
            &&& forall|k: int| 0 <= k < ps.len() ==> quote_free(#[trigger] ps[k])
        }),
{
    let ps = canvas_tag_pieces(layer, width, height, uri);
    reveal_strlit("raster-canvas-");
    reveal_strlit("0");
    reveal_strlit("true");
    reveal_strlit("<image id=");
    reveal_strlit(" x=");
    reveal_strlit(" y=");
    reveal_strlit(" width=");
    reveal_strlit(" height=");
    reveal_strlit(" href=");
    reveal_strlit(" xlink:href=");
    reveal_strlit(" data-ppw-raster-canvas=");
    reveal_strlit(" data-raster-width=");
    reveal_strlit(" data-raster-height=");
    lemma_label_plain("raster-canvas-"@, layer, 0);
    lemma_decimal_plain(width as nat);
    lemma_decimal_plain(height as nat);
    assert(quote_free(uri));
    assert forall|k: int| 0 <= k < ps.len() implies quote_free(#[trigger] ps[k]) by {}
}

/// A raster layer's canvas line written and read back gives its data URI.
pub proof fn lemma_canvas_tag_roundtrip(layer: nat, width: u32, height: u32, uri: Seq<char>)
    requires
        uri_plain(uri),
    ensures
        spec_attr(spec_canvas_tag(layer, width, height, uri), "href"@) == Some(uri),
{
    let ps = canvas_tag_pieces(layer, width, height, uri);
    lemma_canvas_pieces(layer, width, height, uri);
    reveal_strlit("href");
    lemma_canvas_key_href(ps);
    lemma_attr_at(ps, " />"@, "href"@, 10);
}

/// The marker `ma"mb"` that tells what a line holds.
pub open spec fn marker(ma: Seq<char>, mb: Seq<char>) -> Seq<char> {
    ma + seq!['"'] + mb + seq!['"']
}

/// `contains_text` is `occurs_in`.
proof fn lemma_contains_occurs(s: Seq<char>, t: Seq<char>)
    ensures
        contains_text(s, t) <==> occurs_in(s, t),
{
    lemma_find_from(s, t, 0);
    if occurs_in(s, t) {
        let j = choose|j: int| occurs_at(s, t, j);
        assert(occurs_at(s, t, j));
    }
}

/// A marker in a text that starts with a quote-free piece `a` and a `"` lies
/// either across that quote (`a` ends with `ma` and the rest starts with
/// `mb"`) or wholly after it.
proof fn lemma_marker_after_piece(a: Seq<char>, r: Seq<char>, ma: Seq<char>, mb: Seq<char>)
    requires
        quote_free(a),
        quote_free(ma),
        quote_free(mb),
    ensures
        occurs_in(a + seq!['"'] + r, marker(ma, mb)) ==> (ends_with(a, ma) && r.len() > mb.len() && r.take(
            mb.len() as int,
        ) == mb && r[mb.len() as int] == '"') || occurs_in(r, marker(ma, mb)),
{
    let d = marker(ma, mb);
    let line = a + seq!['"'] + r;
    let al = a.len() as int;
    let q = ma.len() as int;
    let l = d.len() as int;
    assert(d[q] == '"');
    assert(d[q + 1 + mb.len()] == '"');
    assert forall|k: int| 0 <= k < q implies d[k] == ma[k] by {}
    assert forall|k: int| 0 <= k < mb.len() implies d[q + 1 + k] == mb[k] by {}
    if occurs_in(line, d) {
        let j = choose|j: int| occurs_at(line, d, j);
        let w = line.subrange(j, j + l);
        assert(w == d);
        if j > al {
            assert(r.subrange(j - al - 1, j - al - 1 + l) =~= w);
            assert(occurs_at(r, d, j - al - 1));
        } else if j + q < al {
            assert(w[q] == line[j + q]);
            assert(line[j + q] == a[j + q]);
        } else if j + q > al {
            assert(w[al - j] == line[al]);
            assert(d[al - j] == ma[al - j]);
        } else {
            assert(a.subrange(al - q, al) =~= ma) by {
                assert forall|k: int| 0 <= k < q implies a.subrange(al - q, al)[k] == ma[k] by {
                    assert(w[k] == d[k]);
                    assert(w[k] == line[j + k]);
                    assert(line[j + k] == a[j + k]);
                }
            }
            assert(r.take(mb.len() as int) =~= mb) by {
                assert forall|k: int| 0 <= k < mb.len() implies r.take(mb.len() as int)[k] == mb[k] by {
                    assert(w[q + 1 + k] == d[q + 1 + k]);
                    assert(w[q + 1 + k] == line[al + 1 + k]);
                    assert(line[al + 1 + k] == r[k]);
                }
            }
            assert(w[q + 1 + mb.len()] == line[al + 1 + mb.len()]);
            assert(line[al + 1 + mb.len()] == r[mb.len() as int]);
        }
    }
}

/// A marker in text made of quote-free pieces, where no piece that ends with
/// `ma` is followed by the piece `mb`, can only lie in the tail.
proof fn lemma_marker_in_pieces(ps: Seq<Seq<char>>, tail: Seq<char>, i: int, ma: Seq<char>, mb: Seq<char>)
    requires
        0 <= i <= ps.len(),
        forall|k: int| 0 <= k < ps.len() ==> quote_free(#[trigger] ps[k]),
        quote_free(ma),
        quote_free(mb),
        forall|k: int| i <= k < ps.len() && ends_with(#[trigger] ps[k], ma) ==> k + 1 < ps.len() && ps[k + 1] != mb,
    ensures
        occurs_in(quoted_pieces(ps.skip(i), tail), marker(ma, mb)) ==> occurs_in(tail, marker(ma, mb)),
    decreases ps.len() - i,
{
    if i < ps.len() {
        let rest = ps.skip(i);
        assert(rest[0] == ps[i]);
        assert(rest.skip(1) =~= ps.skip(i + 1));
        let r = quoted_pieces(ps.skip(i + 1), tail);
        lemma_marker_after_piece(ps[i], r, ma, mb);
        lemma_marker_in_pieces(ps, tail, i + 1, ma, mb);
        if ends_with(ps[i], ma) && r.len() > mb.len() && r.take(mb.len() as int) == mb && r[mb.len() as int] == '"' {
            let nxt = ps[i + 1];
            let r2 = ps.skip(i + 1);
            assert(r2[0] == nxt);
            assert(r == nxt + seq!['"'] + quoted_pieces(r2.skip(1), tail));
            if nxt.len() > mb.len() {
                assert(r[mb.len() as int] == nxt[mb.len() as int]);
            } else if nxt.len() < mb.len() {
                assert(r[nxt.len() as int] == '"');
                assert(r.take(mb.len() as int)[nxt.len() as int] == mb[nxt.len() as int]);
            } else {
                assert(nxt =~= mb) by {
                    assert forall|k: int| 0 <= k < mb.len() implies nxt[k] == mb[k] by {
                        assert(r.take(mb.len() as int)[k] == r[k]);
                    }
                }
            }
        }
    } else {
        assert(ps.skip(i) =~= Seq::<Seq<char>>::empty());
    }
}

/// A piece ending with `ma` followed by the piece `mb` puts the marker in the text.
proof fn lemma_marker_present(ps: Seq<Seq<char>>, tail: Seq<char>, i: int, k: int, ma: Seq<char>, mb: Seq<char>)
    requires
        0 <= i <= k,
        k + 1 < ps.len(),
        ends_with(ps[k], ma),
        ps[k + 1] == mb,
    ensures
        occurs_in(quoted_pieces(ps.skip(i), tail), marker(ma, mb)),
    decreases k - i,
{
    let rest = ps.skip(i);
    assert(rest[0] == ps[i]);
    assert(rest.skip(1) =~= ps.skip(i + 1));
    let r = quoted_pieces(ps.skip(i + 1), tail);
    let line = ps[i] + seq!['"'] + r;
    let d = marker(ma, mb);
    if i < k {
        lemma_marker_present(ps, tail, i + 1, k, ma, mb);
        let j = choose|j: int| occurs_at(r, d, j);
        let al = ps[i].len() as int;
        assert(line.subrange(j + al + 1, j + al + 1 + d.len()) =~= r.subrange(j, j + d.len()));
        assert(occurs_at(line, d, j + al + 1));
    } else {
        let a = ps[k];
        let r2 = ps.skip(k + 1);
        assert(r2[0] == mb);
        assert(r2.skip(1) =~= ps.skip(k + 2));
        assert(r == mb + seq!['"'] + quoted_pieces(ps.skip(k + 2), tail));
        let p = a.len() - ma.len();
        assert(line.subrange(p, p + d.len()) =~= d) by {
            assert forall|x: int| 0 <= x < d.len() implies line.subrange(p, p + d.len())[x] == d[x] by {
                if x < ma.len() {
                    assert(a.subrange(p, a.len() as int)[x] == ma[x]);
                }
            }
        }
        assert(occurs_at(line, d, p));
    }
}

/// A text without `"` holds no marker.
proof fn lemma_no_marker_in_plain(s: Seq<char>)
    requires
        quote_free(s),
    ensures
        forall|ma: Seq<char>, mb: Seq<char>| !occurs_in(s, #[trigger] marker(ma, mb)),
{
    assert forall|ma: Seq<char>, mb: Seq<char>| !occurs_in(s, #[trigger] marker(ma, mb)) by {
        let d = marker(ma, mb);
        if occurs_in(s, d) {
            let j = choose|j: int| occurs_at(s, d, j);
            assert(s.subrange(j, j + d.len())[ma.len() as int] == d[ma.len() as int]);
            assert(s[j + ma.len()] == '"');
        }
    }
}

/// The marker `data-ppw-raster-canvas="true"` is not in a path line.
#[verifier::spinoff_prover]
proof fn lemma_path_no_raster_canvas(ps: Seq<Seq<char>>, tail: Seq<char>)
    requires
        fixed_path_pieces(ps),
        forall|k: int| 0 <= k < ps.len() ==> quote_free(#[trigger] ps[k]),
        quote_free(tail),
        ps[31].len() == 0 || ps[31].last() != '=',
    ensures
        !occurs_in(quoted_pieces(ps, tail), marker("data-ppw-raster-canvas="@, "true"@)),
{
    reveal_strlit("data-ppw-raster-canvas=");
    reveal_strlit("true");
    reveal_strlit("<polyline id=");
    reveal_strlit(" fill=");
    reveal_strlit(" fill-opacity=");
    reveal_strlit(" stroke=");
    reveal_strlit(" stroke-width=");
    reveal_strlit(" points=");
    reveal_strlit(" data-ppw=");
    reveal_strlit(" data-ppw-closed=");
    reveal_strlit(" data-ppw-control-points=");
    reveal_strlit(" data-ppw-weights=");
    reveal_strlit(" data-ppw-phis=");
    reveal_strlit(" data-ppw-psis=");
    reveal_strlit(" data-ppw-fill-enabled=");
    reveal_strlit(" data-ppw-fill-color=");
    reveal_strlit(" data-ppw-stroke-width=");
    reveal_strlit(" data-ppw-stroke-color=");
    let ma = "data-ppw-raster-canvas="@;
    assert forall|k: int| 0 <= k < 32 && ends_with(#[trigger] ps[k], ma) implies k + 1 < 32 && ps[k + 1] != "true"@ by {
        if k == 0 {
            lemma_not_ends_with(ps[k], ma, 2);
        } else if k == 1 {
            assert(ps[k + 1].len() != 4);
        } else if k == 2 {
            lemma_not_ends_with(ps[k], ma, 2);
        } else if k == 3 {
            assert(ps[k + 1].len() != 4);
        } else if k == 4 {
            lemma_not_ends_with(ps[k], ma, 2);
        } else if k == 5 {
            assert(ps[k + 1].len() != 4);
        } else if k == 6 {
            lemma_not_ends_with(ps[k], ma, 2);
        } else if k == 7 {
            assert(ps[k + 1].len() != 4);
        } else if k == 8 {
            lemma_not_ends_with(ps[k], ma, 2);
        } else if k == 9 {
            assert(ps[k + 1].len() != 4);
        } else if k == 10 {
            lemma_not_ends_with(ps[k], ma, 3);
        } else if k == 11 {
            assert(ps[k + 1].len() != 4);
        } else if k == 12 {
            lemma_not_ends_with(ps[k], ma, 2);
        } else if k == 13 {
            assert(ps[k + 1].len() != 4);
        } else if k == 14 {
            lemma_not_ends_with(ps[k], ma, 2);
        } else if k == 15 {
            assert(ps[k + 1].len() != 4);
        } else if k == 16 {
            lemma_not_ends_with(ps[k], ma, 3);
        } else if k == 17 {
            assert(ps[k + 1].len() != 4);
        } else if k == 18 {
            lemma_not_ends_with(ps[k], ma, 3);
        } else if k == 19 {
            assert(ps[k + 1].len() != 4);
        } else if k == 20 {
            lemma_not_ends_with(ps[k], ma, 3);
        } else if k == 21 {
            assert(ps[k + 1].len() != 4);
        } else if k == 22 {
            lemma_not_ends_with(ps[k], ma, 3);
        } else if k == 23 {
            assert(ps[k + 1].len() != 4);
        } else if k == 24 {
            lemma_not_ends_with(ps[k], ma, 2);
        } else if k == 25 {
            assert(ps[k + 1].len() != 4);
        } else if k == 26 {
            lemma_not_ends_with(ps[k], ma, 2);
        } else if k == 27 {
            assert(ps[k + 1].len() != 4);
        } else if k == 28 {
            lemma_not_ends_with(ps[k], ma, 2);
        } else if k == 29 {
            assert(ps[k + 1].len() != 4);
        } else if k == 30 {
            lemma_not_ends_with(ps[k], ma, 2);
        } else if k == 31 {
            lemma_no_key_end(ps[k], ma);
        }
    }
    lemma_marker_in_pieces(ps, tail, 0, ma, "true"@);
    lemma_no_marker_in_plain(tail);
    assert(ps.skip(0) =~= ps);
}

/// The marker `data-ppw-image="true"` is not in a path line.
#[verifier::spinoff_prover]
proof fn lemma_path_no_placed_image(ps: Seq<Seq<char>>, tail: Seq<char>)
    requires
        fixed_path_pieces(ps),
        forall|k: int| 0 <= k < ps.len() ==> quote_free(#[trigger] ps[k]),
        quote_free(tail),
        ps[31].len() == 0 || ps[31].last() != '=',
    ensures
        !occurs_in(quoted_pieces(ps, tail), marker("data-ppw-image="@, "true"@)),
{
    reveal_strlit("data-ppw-image=");
    reveal_strlit("true");
    reveal_strlit("<polyline id=");
    reveal_strlit(" fill=");
    reveal_strlit(" fill-opacity=");
    reveal_strlit(" stroke=");
    reveal_strlit(" stroke-width=");
    reveal_strlit(" points=");
    reveal_strlit(" data-ppw=");
    reveal_strlit(" data-ppw-closed=");
    reveal_strlit(" data-ppw-control-points=");
    reveal_strlit(" data-ppw-weights=");
    reveal_strlit(" data-ppw-phis=");
    reveal_strlit(" data-ppw-psis=");
    reveal_strlit(" data-ppw-fill-enabled=");
    reveal_strlit(" data-ppw-fill-color=");
    reveal_strlit(" data-ppw-stroke-width=");
    reveal_strlit(" data-ppw-stroke-color=");
    let ma = "data-ppw-image="@;
    assert forall|k: int| 0 <= k < 32 && ends_with(#[trigger] ps[k], ma) implies k + 1 < 32 && ps[k + 1] != "true"@ by {
        if k == 0 {
            lemma_not_ends_with(ps[k], ma, 2);
        } else if k == 1 {
            assert(ps[k + 1].len() != 4);
        } else if k == 2 {
            lemma_not_ends_with(ps[k], ma, 2);
        } else if k == 3 {
            assert(ps[k + 1].len() != 4);
        } else if k == 4 {
            lemma_not_ends_with(ps[k], ma, 2);
        } else if k == 5 {
            assert(ps[k + 1].len() != 4);
        } else if k == 6 {
            lemma_not_ends_with(ps[k], ma, 3);
        } else if k == 7 {
            assert(ps[k + 1].len() != 4);
        } else if k == 8 {
            lemma_not_ends_with(ps[k], ma, 2);
        } else if k == 9 {
            assert(ps[k + 1].len() != 4);
        } else if k == 10 {
            lemma_not_ends_with(ps[k], ma, 2);
        } else if k == 11 {
            assert(ps[k + 1].len() != 4);
        } else if k == 12 {
            lemma_not_ends_with(ps[k], ma, 2);
        } else if k == 13 {
            assert(ps[k + 1].len() != 4);
        } else if k == 14 {
            lemma_not_ends_with(ps[k], ma, 2);
        } else if k == 15 {
            assert(ps[k + 1].len() != 4);
        } else if k == 16 {
            lemma_not_ends_with(ps[k], ma, 2);
        } else if k == 17 {
            assert(ps[k + 1].len() != 4);
        } else if k == 18 {
            lemma_not_ends_with(ps[k], ma, 2);
        } else if k == 19 {
            assert(ps[k + 1].len() != 4);
        } else if k == 20 {
            lemma_not_ends_with(ps[k], ma, 2);
        } else if k == 21 {
            assert(ps[k + 1].len() != 4);
        } else if k == 22 {
            lemma_not_ends_with(ps[k], ma, 2);
        } else if k == 23 {
            assert(ps[k + 1].len() != 4);
        } else if k == 24 {
            lemma_not_ends_with(ps[k], ma, 2);
        } else if k == 25 {
            assert(ps[k + 1].len() != 4);
        } else if k == 26 {
            lemma_not_ends_with(ps[k], ma, 2);
        } else if k == 27 {
            assert(ps[k + 1].len() != 4);
        } else if k == 28 {
            lemma_not_ends_with(ps[k], ma, 2);
        } else if k == 29 {
            assert(ps[k + 1].len() != 4);
        } else if k == 30 {
            lemma_not_ends_with(ps[k], ma, 2);
        } else if k == 31 {
            lemma_no_key_end(ps[k], ma);
        }
    }
    lemma_marker_in_pieces(ps, tail, 0, ma, "true"@);
    lemma_no_marker_in_plain(tail);
    assert(ps.skip(0) =~= ps);
}

/// The marker `data-raster-stroke="true"` is not in a path line.
#[verifier::spinoff_prover]
proof fn lemma_path_no_raster_stroke(ps: Seq<Seq<char>>, tail: Seq<char>)
    requires
        fixed_path_pieces(ps),
        forall|k: int| 0 <= k < ps.len() ==> quote_free(#[trigger] ps[k]),
        quote_free(tail),
        ps[31].len() == 0 || ps[31].last() != '=',
    ensures
        !occurs_in(quoted_pieces(ps, tail), marker("data-raster-stroke="@, "true"@)),
{
    reveal_strlit("data-raster-stroke=");
    reveal_strlit("true");
    reveal_strlit("<polyline id=");
    reveal_strlit(" fill=");
    reveal_strlit(" fill-opacity=");
    reveal_strlit(" stroke=");
    reveal_strlit(" stroke-width=");
    reveal_strlit(" points=");
    reveal_strlit(" data-ppw=");
    reveal_strlit(" data-ppw-closed=");
    reveal_strlit(" data-ppw-control-points=");
    reveal_strlit(" data-ppw-weights=");
    reveal_strlit(" data-ppw-phis=");
    reveal_strlit(" data-ppw-psis=");
    reveal_strlit(" data-ppw-fill-enabled=");
    reveal_strlit(" data-ppw-fill-color=");
    reveal_strlit(" data-ppw-stroke-width=");
    reveal_strlit(" data-ppw-stroke-color=");
    let ma = "data-raster-stroke="@;
    assert forall|k: int| 0 <= k < 32 && ends_with(#[trigger] ps[k], ma) implies k + 1 < 32 && ps[k + 1] != "true"@ by {
        if k == 0 {
            lemma_not_ends_with(ps[k], ma, 2);
        } else if k == 1 {
            assert(ps[k + 1].len() != 4);
        } else if k == 2 {
            lemma_not_ends_with(ps[k], ma, 2);
        } else if k == 3 {
            assert(ps[k + 1].len() != 4);
        } else if k == 4 {
            lemma_not_ends_with(ps[k], ma, 2);
        } else if k == 5 {
            assert(ps[k + 1].len() != 4);
        } else if k == 6 {
            lemma_not_ends_with(ps[k], ma, 8);
        } else if k == 7 {
            assert(ps[k + 1].len() != 4);
        } else if k == 8 {
            lemma_not_ends_with(ps[k], ma, 2);
        } else if k == 9 {
            assert(ps[k + 1].len() != 4);
        } else if k == 10 {
            lemma_not_ends_with(ps[k], ma, 2);
        } else if k == 11 {
            assert(ps[k + 1].len() != 4);
        } else if k == 12 {
            lemma_not_ends_with(ps[k], ma, 2);
        } else if k == 13 {
            assert(ps[k + 1].len() != 4);
        } else if k == 14 {
            lemma_not_ends_with(ps[k], ma, 2);
        } else if k == 15 {
            assert(ps[k + 1].len() != 4);
        } else if k == 16 {
            lemma_not_ends_with(ps[k], ma, 2);
        } else if k == 17 {
            assert(ps[k + 1].len() != 4);
        } else if k == 18 {
            lemma_not_ends_with(ps[k], ma, 2);
        } else if k == 19 {
            assert(ps[k + 1].len() != 4);
        } else if k == 20 {
            lemma_not_ends_with(ps[k], ma, 2);
        } else if k == 21 {
            assert(ps[k + 1].len() != 4);
        } else if k == 22 {
            lemma_not_ends_with(ps[k], ma, 2);
        } else if k == 23 {
            assert(ps[k + 1].len() != 4);
        } else if k == 24 {
            lemma_not_ends_with(ps[k], ma, 2);
        } else if k == 25 {
            assert(ps[k + 1].len() != 4);
        } else if k == 26 {
            lemma_not_ends_with(ps[k], ma, 2);
        } else if k == 27 {
            assert(ps[k + 1].len() != 4);
        } else if k == 28 {
            lemma_not_ends_with(ps[k], ma, 2);
        } else if k == 29 {
            assert(ps[k + 1].len() != 4);
        } else if k == 30 {
            lemma_not_ends_with(ps[k], ma, 2);
        } else if k == 31 {
            lemma_no_key_end(ps[k], ma);
        }
    }
    lemma_marker_in_pieces(ps, tail, 0, ma, "true"@);
    lemma_no_marker_in_plain(tail);
    assert(ps.skip(0) =~= ps);
}

/// The marker `data-ppw="true"` is in a path line.
proof fn lemma_path_has_ppw_path(ps: Seq<Seq<char>>, tail: Seq<char>)
    requires
        fixed_path_pieces(ps),
        ps[13] == "true"@,
    ensures
        occurs_in(quoted_pieces(ps, tail), marker("data-ppw="@, "true"@)),
{
    reveal_strlit("data-ppw=");
    reveal_strlit(" data-ppw=");
    let ma = "data-ppw="@;
    assert(ps[12].subrange(ps[12].len() - ma.len(), ps[12].len() as int) =~= ma);
    lemma_marker_present(ps, tail, 0, 12, ma, "true"@);
    assert(ps.skip(0) =~= ps);
}

/// The marker `data-ppw-raster-canvas="true"` is not in a stroke line.
#[verifier::spinoff_prover]
proof fn lemma_stroke_no_raster_canvas(ps: Seq<Seq<char>>, tail: Seq<char>)
    requires
        fixed_stroke_pieces(ps),
        forall|k: int| 0 <= k < ps.len() ==> quote_free(#[trigger] ps[k]),
        quote_free(tail),
        ps[21].len() == 0 || ps[21].last() != '=',
    ensures
        !occurs_in(quoted_pieces(ps, tail), marker("data-ppw-raster-canvas="@, "true"@)),
{
    reveal_strlit("data-ppw-raster-canvas=");
    reveal_strlit("true");
    reveal_strlit("<polyline id=");
    reveal_strlit(" fill=");
    reveal_strlit(" stroke=");
    reveal_strlit(" stroke-opacity=");
    reveal_strlit(" stroke-width=");
    reveal_strlit(" stroke-linecap=");
    reveal_strlit(" stroke-linejoin=");
    reveal_strlit(" points=");
    reveal_strlit(" data-raster-stroke=");
    reveal_strlit(" data-raster-color=");
    reveal_strlit(" data-raster-width=");
    let ma = "data-ppw-raster-canvas="@;
    assert forall|k: int| 0 <= k < 22 && ends_with(#[trigger] ps[k], ma) implies k + 1 < 22 && ps[k + 1] != "true"@ by {
        if k == 0 {
            lemma_not_ends_with(ps[k], ma, 2);
        } else if k == 1 {
            assert(ps[k + 1].len() != 4);
        } else if k == 2 {
            lemma_not_ends_with(ps[k], ma, 2);
        } else if k == 3 {
            assert(ps[k + 1].len() != 4);
        } else if k == 4 {
            lemma_not_ends_with(ps[k], ma, 2);
        } else if k == 5 {
            assert(ps[k + 1].len() != 4);
        } else if k == 6 {
            lemma_not_ends_with(ps[k], ma, 2);
        } else if k == 7 {
            assert(ps[k + 1].len() != 4);
        } else if k == 8 {
            lemma_not_ends_with(ps[k], ma, 2);
        } else if k == 9 {
            assert(ps[k + 1].len() != 4);
        } else if k == 10 {
            lemma_not_ends_with(ps[k], ma, 2);
        } else if k == 11 {
            assert(ps[k + 1].len() != 4);
        } else if k == 12 {
            lemma_not_ends_with(ps[k], ma, 2);
        } else if k == 13 {
            assert(ps[k + 1].len() != 4);
        } else if k == 14 {
            lemma_not_ends_with(ps[k], ma, 3);
        } else if k == 15 {
            assert(ps[k + 1].len() != 4);
        } else if k == 16 {
            lemma_not_ends_with(ps[k], ma, 2);
        } else if k == 17 {
            assert(ps[k + 1].len() != 4);
        } else if k == 18 {
            lemma_not_ends_with(ps[k], ma, 2);
        } else if k == 19 {
            assert(ps[k + 1].len() != 4);
        } else if k == 20 {
            lemma_not_ends_with(ps[k], ma, 2);
        } else if k == 21 {
            lemma_no_key_end(ps[k], ma);
        }
    }
    lemma_marker_in_pieces(ps, tail, 0, ma, "true"@);
    lemma_no_marker_in_plain(tail);
    assert(ps.skip(0) =~= ps);
}

/// The marker `data-ppw-image="true"` is not in a stroke line.
#[verifier::spinoff_prover]
proof fn lemma_stroke_no_placed_image(ps: Seq<Seq<char>>, tail: Seq<char>)
    requires
        fixed_stroke_pieces(ps),
        forall|k: int| 0 <= k < ps.len() ==> quote_free(#[trigger] ps[k]),
        quote_free(tail),
        ps[21].len() == 0 || ps[21].last() != '=',
    ensures
        !occurs_in(quoted_pieces(ps, tail), marker("data-ppw-image="@, "true"@)),
{
    reveal_strlit("data-ppw-image=");
    reveal_strlit("true");
    reveal_strlit("<polyline id=");
    reveal_strlit(" fill=");
    reveal_strlit(" stroke=");
    reveal_strlit(" stroke-opacity=");
    reveal_strlit(" stroke-width=");
    reveal_strlit(" stroke-linecap=");
    reveal_strlit(" stroke-linejoin=");
    reveal_strlit(" points=");
    reveal_strlit(" data-raster-stroke=");
    reveal_strlit(" data-raster-color=");
    reveal_strlit(" data-raster-width=");
    let ma = "data-ppw-image="@;
    assert forall|k: int| 0 <= k < 22 && ends_with(#[trigger] ps[k], ma) implies k + 1 < 22 && ps[k + 1] != "true"@ by {
        if k == 0 {
            lemma_not_ends_with(ps[k], ma, 2);
        } else if k == 1 {
            assert(ps[k + 1].len() != 4);
        } else if k == 2 {
            lemma_not_ends_with(ps[k], ma, 2);
        } else if k == 3 {
            assert(ps[k + 1].len() != 4);
        } else if k == 4 {
            lemma_not_ends_with(ps[k], ma, 3);
        } else if k == 5 {
            assert(ps[k + 1].len() != 4);
        } else if k == 6 {
            lemma_not_ends_with(ps[k], ma, 2);
        } else if k == 7 {
            assert(ps[k + 1].len() != 4);
        } else if k == 8 {
            lemma_not_ends_with(ps[k], ma, 2);
        } else if k == 9 {
            assert(ps[k + 1].len() != 4);
        } else if k == 10 {
            lemma_not_ends_with(ps[k], ma, 2);
        } else if k == 11 {
            assert(ps[k + 1].len() != 4);
        } else if k == 12 {
            lemma_not_ends_with(ps[k], ma, 2);
        } else if k == 13 {
            assert(ps[k + 1].len() != 4);
        } else if k == 14 {
            lemma_not_ends_with(ps[k], ma, 2);
        } else if k == 15 {
            assert(ps[k + 1].len() != 4);
        } else if k == 16 {
            lemma_not_ends_with(ps[k], ma, 3);
        } else if k == 17 {
            assert(ps[k + 1].len() != 4);
        } else if k == 18 {
            lemma_not_ends_with(ps[k], ma, 2);
        } else if k == 19 {
            assert(ps[k + 1].len() != 4);
        } else if k == 20 {
            lemma_not_ends_with(ps[k], ma, 2);
        } else if k == 21 {
            lemma_no_key_end(ps[k], ma);
        }
    }
    lemma_marker_in_pieces(ps, tail, 0, ma, "true"@);
    lemma_no_marker_in_plain(tail);
    assert(ps.skip(0) =~= ps);
}

/// The marker `data-raster-stroke="true"` is in a stroke line.
proof fn lemma_stroke_has_raster_stroke(ps: Seq<Seq<char>>, tail: Seq<char>)
    requires
        fixed_stroke_pieces(ps),
        ps[17] == "true"@,
    ensures
        occurs_in(quoted_pieces(ps, tail), marker("data-raster-stroke="@, "true"@)),
{
    reveal_strlit("data-raster-stroke=");
    reveal_strlit(" data-raster-stroke=");
    let ma = "data-raster-stroke="@;
    assert(ps[16].subrange(ps[16].len() - ma.len(), ps[16].len() as int) =~= ma);
    lemma_marker_present(ps, tail, 0, 16, ma, "true"@);
    assert(ps.skip(0) =~= ps);
}

/// The marker `data-ppw="true"` is not in a stroke line.
#[verifier::spinoff_prover]
proof fn lemma_stroke_no_ppw_path(ps: Seq<Seq<char>>, tail: Seq<char>)
    requires
        fixed_stroke_pieces(ps),
        forall|k: int| 0 <= k < ps.len() ==> quote_free(#[trigger] ps[k]),
        quote_free(tail),
        ps[21].len() == 0 || ps[21].last() != '=',
    ensures
        !occurs_in(quoted_pieces(ps, tail), marker("data-ppw="@, "true"@)),
{
    reveal_strlit("data-ppw=");
    reveal_strlit("true");
    reveal_strlit("<polyline id=");
    reveal_strlit(" fill=");
    reveal_strlit(" stroke=");
    reveal_strlit(" stroke-opacity=");
    reveal_strlit(" stroke-width=");
    reveal_strlit(" stroke-linecap=");
    reveal_strlit(" stroke-linejoin=");
    reveal_strlit(" points=");
    reveal_strlit(" data-raster-stroke=");
    reveal_strlit(" data-raster-color=");
    reveal_strlit(" data-raster-width=");
    let ma = "data-ppw="@;
    assert forall|k: int| 0 <= k < 22 && ends_with(#[trigger] ps[k], ma) implies k + 1 < 22 && ps[k + 1] != "true"@ by {
        if k == 0 {
            lemma_not_ends_with(ps[k], ma, 2);
        } else if k == 1 {
            assert(ps[k + 1].len() != 4);
        } else if k == 2 {
            lemma_not_ends_with(ps[k], ma, 2);
        } else if k == 3 {
            assert(ps[k + 1].len() != 4);
        } else if k == 4 {
            lemma_not_ends_with(ps[k], ma, 2);
        } else if k == 5 {
            assert(ps[k + 1].len() != 4);
        } else if k == 6 {
            lemma_not_ends_with(ps[k], ma, 2);
        } else if k == 7 {
            assert(ps[k + 1].len() != 4);
        } else if k == 8 {
            lemma_not_ends_with(ps[k], ma, 2);
        } else if k == 9 {
            assert(ps[k + 1].len() != 4);
        } else if k == 10 {
            lemma_not_ends_with(ps[k], ma, 2);
        } else if k == 11 {
            assert(ps[k + 1].len() != 4);
        } else if k == 12 {
            lemma_not_ends_with(ps[k], ma, 2);
        } else if k == 13 {
            assert(ps[k + 1].len() != 4);
        } else if k == 14 {
            lemma_not_ends_with(ps[k], ma, 2);
        } else if k == 15 {
            assert(ps[k + 1].len() != 4);
        } else if k == 16 {
            lemma_not_ends_with(ps[k], ma, 2);
        } else if k == 17 {
            assert(ps[k + 1].len() != 4);
        } else if k == 18 {
            lemma_not_ends_with(ps[k], ma, 2);
        } else if k == 19 {
            assert(ps[k + 1].len() != 4);
        } else if k == 20 {
            lemma_not_ends_with(ps[k], ma, 2);
        } else if k == 21 {
            lemma_no_key_end(ps[k], ma);
        }
    }
    lemma_marker_in_pieces(ps, tail, 0, ma, "true"@);
    lemma_no_marker_in_plain(tail);
    assert(ps.skip(0) =~= ps);
}

/// The marker `data-ppw-raster-canvas="true"` is not in an image line.
#[verifier::spinoff_prover]
proof fn lemma_image_no_raster_canvas(ps: Seq<Seq<char>>, tail: Seq<char>)
    requires
        fixed_image_pieces(ps),
        forall|k: int| 0 <= k < ps.len() ==> quote_free(#[trigger] ps[k]),
        quote_free(tail),
        ps[23].len() == 0 || ps[23].last() != '=',
    ensures
        !occurs_in(quoted_pieces(ps, tail), marker("data-ppw-raster-canvas="@, "true"@)),
{
    reveal_strlit("data-ppw-raster-canvas=");
    reveal_strlit("true");
    reveal_strlit("<image id=");
    reveal_strlit(" x=");
    reveal_strlit(" y=");
    reveal_strlit(" width=");
    reveal_strlit(" height=");
    reveal_strlit(" href=");
    reveal_strlit(" xlink:href=");
    reveal_strlit(" data-ppw-image=");
    reveal_strlit(" data-image-id=");
    reveal_strlit(" data-image-name=");
    reveal_strlit(" data-image-original-width=");
    reveal_strlit(" data-image-original-height=");
    let ma = "data-ppw-raster-canvas="@;
    assert forall|k: int| 0 <= k < 24 && ends_with(#[trigger] ps[k], ma) implies k + 1 < 24 && ps[k + 1] != "true"@ by {
        if k == 0 {
            lemma_not_ends_with(ps[k], ma, 2);
        } else if k == 1 {
            assert(ps[k + 1].len() != 4);
        } else if k == 2 {
            lemma_not_ends_with(ps[k], ma, 2);
        } else if k == 3 {
            assert(ps[k + 1].len() != 4);
        } else if k == 4 {
            lemma_not_ends_with(ps[k], ma, 2);
        } else if k == 5 {
            assert(ps[k + 1].len() != 4);
        } else if k == 6 {
            lemma_not_ends_with(ps[k], ma, 2);
        } else if k == 7 {
            assert(ps[k + 1].len() != 4);
        } else if k == 8 {
            lemma_not_ends_with(ps[k], ma, 2);
        } else if k == 9 {
            assert(ps[k + 1].len() != 4);
        } else if k == 10 {
            lemma_not_ends_with(ps[k], ma, 2);
        } else if k == 11 {
            assert(ps[k + 1].len() != 4);
        } else if k == 12 {
            lemma_not_ends_with(ps[k], ma, 2);
        } else if k == 13 {
            assert(ps[k + 1].len() != 4);
        } else if k == 14 {
            lemma_not_ends_with(ps[k], ma, 2);
        } else if k == 15 {
            assert(ps[k + 1].len() != 4);
        } else if k == 16 {
            lemma_not_ends_with(ps[k], ma, 2);
        } else if k == 17 {
            assert(ps[k + 1].len() != 4);
        } else if k == 18 {
            lemma_not_ends_with(ps[k], ma, 2);
        } else if k == 19 {
            assert(ps[k + 1].len() != 4);
        } else if k == 20 {
            lemma_not_ends_with(ps[k], ma, 2);
        } else if k == 21 {
            assert(ps[k + 1].len() != 4);
        } else if k == 22 {
            lemma_not_ends_with(ps[k], ma, 2);
        } else if k == 23 {
            lemma_no_key_end(ps[k], ma);
        }
    }
    lemma_marker_in_pieces(ps, tail, 0, ma, "true"@);
    lemma_no_marker_in_plain(tail);
    assert(ps.skip(0) =~= ps);
}

/// The marker `data-ppw-image="true"` is in an image line.
proof fn lemma_image_has_placed_image(ps: Seq<Seq<char>>, tail: Seq<char>)
    requires
        fixed_image_pieces(ps),
        ps[15] == "true"@,
    ensures
        occurs_in(quoted_pieces(ps, tail), marker("data-ppw-image="@, "true"@)),
{
    reveal_strlit("data-ppw-image=");
    reveal_strlit(" data-ppw-image=");
    let ma = "data-ppw-image="@;
    assert(ps[14].subrange(ps[14].len() - ma.len(), ps[14].len() as int) =~= ma);
    lemma_marker_present(ps, tail, 0, 14, ma, "true"@);
    assert(ps.skip(0) =~= ps);
}

/// The marker `data-raster-stroke="true"` is not in an image line.
#[verifier::spinoff_prover]
proof fn lemma_image_no_raster_stroke(ps: Seq<Seq<char>>, tail: Seq<char>)
    requires
        fixed_image_pieces(ps),
        forall|k: int| 0 <= k < ps.len() ==> quote_free(#[trigger] ps[k]),
        quote_free(tail),
        ps[23].len() == 0 || ps[23].last() != '=',
    ensures
        !occurs_in(quoted_pieces(ps, tail), marker("data-raster-stroke="@, "true"@)),
{
    reveal_strlit("data-raster-stroke=");
    reveal_strlit("true");
    reveal_strlit("<image id=");
    reveal_strlit(" x=");
    reveal_strlit(" y=");
    reveal_strlit(" width=");
    reveal_strlit(" height=");
    reveal_strlit(" href=");
    reveal_strlit(" xlink:href=");
    reveal_strlit(" data-ppw-image=");
    reveal_strlit(" data-image-id=");
    reveal_strlit(" data-image-name=");
    reveal_strlit(" data-image-original-width=");
    reveal_strlit(" data-image-original-height=");
    let ma = "data-raster-stroke="@;
    assert forall|k: int| 0 <= k < 24 && ends_with(#[trigger] ps[k], ma) implies k + 1 < 24 && ps[k + 1] != "true"@ by {
        if k == 0 {
            lemma_not_ends_with(ps[k], ma, 2);
        } else if k == 1 {
            assert(ps[k + 1].len() != 4);
        } else if k == 2 {
            lemma_not_ends_with(ps[k], ma, 2);
        } else if k == 3 {
            assert(ps[k + 1].len() != 4);
        } else if k == 4 {
            lemma_not_ends_with(ps[k], ma, 2);
        } else if k == 5 {
            assert(ps[k + 1].len() != 4);
        } else if k == 6 {
            lemma_not_ends_with(ps[k], ma, 2);
        } else if k == 7 {
            assert(ps[k + 1].len() != 4);
        } else if k == 8 {
            lemma_not_ends_with(ps[k], ma, 2);
        } else if k == 9 {
            assert(ps[k + 1].len() != 4);
        } else if k == 10 {
            lemma_not_ends_with(ps[k], ma, 2);
        } else if k == 11 {
            assert(ps[k + 1].len() != 4);
        } else if k == 12 {
            lemma_not_ends_with(ps[k], ma, 2);
        } else if k == 13 {
            assert(ps[k + 1].len() != 4);
        } else if k == 14 {
            lemma_not_ends_with(ps[k], ma, 3);
        } else if k == 15 {
            assert(ps[k + 1].len() != 4);
        } else if k == 16 {
            lemma_not_ends_with(ps[k], ma, 2);
        } else if k == 17 {
            assert(ps[k + 1].len() != 4);
        } else if k == 18 {
            lemma_not_ends_with(ps[k], ma, 3);
        } else if k == 19 {
            assert(ps[k + 1].len() != 4);
        } else if k == 20 {
            lemma_not_ends_with(ps[k], ma, 2);
        } else if k == 21 {
            assert(ps[k + 1].len() != 4);
        } else if k == 22 {
            lemma_not_ends_with(ps[k], ma, 2);
        } else if k == 23 {
            lemma_no_key_end(ps[k], ma);
        }
    }
    lemma_marker_in_pieces(ps, tail, 0, ma, "true"@);
    lemma_no_marker_in_plain(tail);
    assert(ps.skip(0) =~= ps);
}

/// The marker `data-ppw="true"` is not in an image line.
#[verifier::spinoff_prover]
proof fn lemma_image_no_ppw_path(ps: Seq<Seq<char>>, tail: Seq<char>)
    requires
        fixed_image_pieces(ps),
        forall|k: int| 0 <= k < ps.len() ==> quote_free(#[trigger] ps[k]),
        quote_free(tail),
        ps[23].len() == 0 || ps[23].last() != '=',
    ensures
        !occurs_in(quoted_pieces(ps, tail), marker("data-ppw="@, "true"@)),
{
    reveal_strlit("data-ppw=");
    reveal_strlit("true");
    reveal_strlit("<image id=");
    reveal_strlit(" x=");
    reveal_strlit(" y=");
    reveal_strlit(" width=");
    reveal_strlit(" height=");
    reveal_strlit(" href=");
    reveal_strlit(" xlink:href=");
    reveal_strlit(" data-ppw-image=");
    reveal_strlit(" data-image-id=");
    reveal_strlit(" data-image-name=");
    reveal_strlit(" data-image-original-width=");
    reveal_strlit(" data-image-original-height=");
    let ma = "data-ppw="@;
    assert forall|k: int| 0 <= k < 24 && ends_with(#[trigger] ps[k], ma) implies k + 1 < 24 && ps[k + 1] != "true"@ by {
        if k == 0 {
            lemma_not_ends_with(ps[k], ma, 2);
        } else if k == 1 {
            assert(ps[k + 1].len() != 4);
        } else if k == 2 {
            lemma_not_ends_with(ps[k], ma, 2);
        } else if k == 3 {
            assert(ps[k + 1].len() != 4);
        } else if k == 4 {
            lemma_not_ends_with(ps[k], ma, 2);
        } else if k == 5 {
            assert(ps[k + 1].len() != 4);
        } else if k == 6 {
            lemma_not_ends_with(ps[k], ma, 2);
        } else if k == 7 {
            assert(ps[k + 1].len() != 4);
        } else if k == 8 {
            lemma_not_ends_with(ps[k], ma, 2);
        } else if k == 9 {
            assert(ps[k + 1].len() != 4);
        } else if k == 10 {
            lemma_not_ends_with(ps[k], ma, 2);
        } else if k == 11 {
            assert(ps[k + 1].len() != 4);
        } else if k == 12 {
            lemma_not_ends_with(ps[k], ma, 2);
        } else if k == 13 {
            assert(ps[k + 1].len() != 4);
        } else if k == 14 {
            lemma_not_ends_with(ps[k], ma, 2);
        } else if k == 15 {
            assert(ps[k + 1].len() != 4);
        } else if k == 16 {
            lemma_not_ends_with(ps[k], ma, 2);
        } else if k == 17 {
            assert(ps[k + 1].len() != 4);
        } else if k == 18 {
            lemma_not_ends_with(ps[k], ma, 2);
        } else if k == 19 {
            assert(ps[k + 1].len() != 4);
        } else if k == 20 {
            lemma_not_ends_with(ps[k], ma, 2);
        } else if k == 21 {
            assert(ps[k + 1].len() != 4);
        } else if k == 22 {
            lemma_not_ends_with(ps[k], ma, 2);
        } else if k == 23 {
            lemma_no_key_end(ps[k], ma);
        }
    }
    lemma_marker_in_pieces(ps, tail, 0, ma, "true"@);
    lemma_no_marker_in_plain(tail);
    assert(ps.skip(0) =~= ps);
}

/// The marker `data-ppw-raster-canvas="true"` is in a canvas line.
proof fn lemma_canvas_has_raster_canvas(ps: Seq<Seq<char>>, tail: Seq<char>)
    requires
        fixed_canvas_pieces(ps),
        ps[15] == "true"@,
    ensures
        occurs_in(quoted_pieces(ps, tail), marker("data-ppw-raster-canvas="@, "true"@)),
{
    reveal_strlit("data-ppw-raster-canvas=");
    reveal_strlit(" data-ppw-raster-canvas=");
    let ma = "data-ppw-raster-canvas="@;
    assert(ps[14].subrange(ps[14].len() - ma.len(), ps[14].len() as int) =~= ma);
    lemma_marker_present(ps, tail, 0, 14, ma, "true"@);
    assert(ps.skip(0) =~= ps);
}

/// The marker `data-ppw-image="true"` is not in a canvas line.
#[verifier::spinoff_prover]
proof fn lemma_canvas_no_placed_image(ps: Seq<Seq<char>>, tail: Seq<char>)
    requires
        fixed_canvas_pieces(ps),
        forall|k: int| 0 <= k < ps.len() ==> quote_free(#[trigger] ps[k]),
        quote_free(tail),
        ps[19].len() == 0 || ps[19].last() != '=',
    ensures
        !occurs_in(quoted_pieces(ps, tail), marker("data-ppw-image="@, "true"@)),
{
    reveal_strlit("data-ppw-image=");
    reveal_strlit("true");
    reveal_strlit("<image id=");
    reveal_strlit(" x=");
    reveal_strlit(" y=");
    reveal_strlit(" width=");
    reveal_strlit(" height=");
    reveal_strlit(" href=");
    reveal_strlit(" xlink:href=");
    reveal_strlit(" data-ppw-raster-canvas=");
    reveal_strlit(" data-raster-width=");
    reveal_strlit(" data-raster-height=");
    let ma = "data-ppw-image="@;
    assert forall|k: int| 0 <= k < 20 && ends_with(#[trigger] ps[k], ma) implies k + 1 < 20 && ps[k + 1] != "true"@ by {
        if k == 0 {
            lemma_not_ends_with(ps[k], ma, 2);
        } else if k == 1 {
            assert(ps[k + 1].len() != 4);
        } else if k == 2 {
            lemma_not_ends_with(ps[k], ma, 2);
        } else if k == 3 {
            assert(ps[k + 1].len() != 4);
        } else if k == 4 {
            lemma_not_ends_with(ps[k], ma, 2);
        } else if k == 5 {
            assert(ps[k + 1].len() != 4);
        } else if k == 6 {
            lemma_not_ends_with(ps[k], ma, 2);
        } else if k == 7 {
            assert(ps[k + 1].len() != 4);
        } else if k == 8 {
            lemma_not_ends_with(ps[k], ma, 2);
        } else if k == 9 {
            assert(ps[k + 1].len() != 4);
        } else if k == 10 {
            lemma_not_ends_with(ps[k], ma, 2);
        } else if k == 11 {
            assert(ps[k + 1].len() != 4);
        } else if k == 12 {
            lemma_not_ends_with(ps[k], ma, 2);
        } else if k == 13 {
            assert(ps[k + 1].len() != 4);
        } else if k == 14 {
            lemma_not_ends_with(ps[k], ma, 2);
        } else if k == 15 {
            assert(ps[k + 1].len() != 4);
        } else if k == 16 {
            lemma_not_ends_with(ps[k], ma, 2);
        } else if k == 17 {
            assert(ps[k + 1].len() != 4);
        } else if k == 18 {
            lemma_not_ends_with(ps[k], ma, 2);
        } else if k == 19 {
            lemma_no_key_end(ps[k], ma);
        }
    }
    lemma_marker_in_pieces(ps, tail, 0, ma, "true"@);
    lemma_no_marker_in_plain(tail);
    assert(ps.skip(0) =~= ps);
}

/// The marker `data-raster-stroke="true"` is not in a canvas line.
#[verifier::spinoff_prover]
proof fn lemma_canvas_no_raster_stroke(ps: Seq<Seq<char>>, tail: Seq<char>)
    requires
        fixed_canvas_pieces(ps),
        forall|k: int| 0 <= k < ps.len() ==> quote_free(#[trigger] ps[k]),
        quote_free(tail),
        ps[19].len() == 0 || ps[19].last() != '=',
    ensures
        !occurs_in(quoted_pieces(ps, tail), marker("data-raster-stroke="@, "true"@)),
{
    reveal_strlit("data-raster-stroke=");
    reveal_strlit("true");
    reveal_strlit("<image id=");
    reveal_strlit(" x=");
    reveal_strlit(" y=");
    reveal_strlit(" width=");
    reveal_strlit(" height=");
    reveal_strlit(" href=");
    reveal_strlit(" xlink:href=");
    reveal_strlit(" data-ppw-raster-canvas=");
    reveal_strlit(" data-raster-width=");
    reveal_strlit(" data-raster-height=");
    let ma = "data-raster-stroke="@;
    assert forall|k: int| 0 <= k < 20 && ends_with(#[trigger] ps[k], ma) implies k + 1 < 20 && ps[k + 1] != "true"@ by {
        if k == 0 {
            lemma_not_ends_with(ps[k], ma, 2);
        } else if k == 1 {
            assert(ps[k + 1].len() != 4);
        } else if k == 2 {
            lemma_not_ends_with(ps[k], ma, 2);
        } else if k == 3 {
            assert(ps[k + 1].len() != 4);
        } else if k == 4 {
            lemma_not_ends_with(ps[k], ma, 2);
        } else if k == 5 {
            assert(ps[k + 1].len() != 4);
        } else if k == 6 {
            lemma_not_ends_with(ps[k], ma, 2);
        } else if k == 7 {
            assert(ps[k + 1].len() != 4);
        } else if k == 8 {
            lemma_not_ends_with(ps[k], ma, 2);
        } else if k == 9 {
            assert(ps[k + 1].len() != 4);
        } else if k == 10 {
            lemma_not_ends_with(ps[k], ma, 2);
        } else if k == 11 {
            assert(ps[k + 1].len() != 4);
        } else if k == 12 {
            lemma_not_ends_with(ps[k], ma, 2);
        } else if k == 13 {
            assert(ps[k + 1].len() != 4);
        } else if k == 14 {
            lemma_not_ends_with(ps[k], ma, 2);
        } else if k == 15 {
            assert(ps[k + 1].len() != 4);
        } else if k == 16 {
            lemma_not_ends_with(ps[k], ma, 2);
        } else if k == 17 {
            assert(ps[k + 1].len() != 4);
        } else if k == 18 {
            lemma_not_ends_with(ps[k], ma, 2);
        } else if k == 19 {
            lemma_no_key_end(ps[k], ma);
        }
    }
    lemma_marker_in_pieces(ps, tail, 0, ma, "true"@);
    lemma_no_marker_in_plain(tail);
    assert(ps.skip(0) =~= ps);
}

/// The marker `data-ppw="true"` is not in a canvas line.
#[verifier::spinoff_prover]
proof fn lemma_canvas_no_ppw_path(ps: Seq<Seq<char>>, tail: Seq<char>)
    requires
        fixed_canvas_pieces(ps),
        forall|k: int| 0 <= k < ps.len() ==> quote_free(#[trigger] ps[k]),
        quote_free(tail),
        ps[19].len() == 0 || ps[19].last() != '=',
    ensures
        !occurs_in(quoted_pieces(ps, tail), marker("data-ppw="@, "true"@)),
{
    reveal_strlit("data-ppw=");
    reveal_strlit("true");
    reveal_strlit("<image id=");
    reveal_strlit(" x=");
    reveal_strlit(" y=");
    reveal_strlit(" width=");
    reveal_strlit(" height=");
    reveal_strlit(" href=");
    reveal_strlit(" xlink:href=");
    reveal_strlit(" data-ppw-raster-canvas=");
    reveal_strlit(" data-raster-width=");
    reveal_strlit(" data-raster-height=");
    let ma = "data-ppw="@;
    assert forall|k: int| 0 <= k < 20 && ends_with(#[trigger] ps[k], ma) implies k + 1 < 20 && ps[k + 1] != "true"@ by {
        if k == 0 {
            lemma_not_ends_with(ps[k], ma, 2);
        } else if k == 1 {
            assert(ps[k + 1].len() != 4);
        } else if k == 2 {
            lemma_not_ends_with(ps[k], ma, 2);
        } else if k == 3 {
            assert(ps[k + 1].len() != 4);
        } else if k == 4 {
            lemma_not_ends_with(ps[k], ma, 2);
        } else if k == 5 {
            assert(ps[k + 1].len() != 4);
        } else if k == 6 {
            lemma_not_ends_with(ps[k], ma, 2);
        } else if k == 7 {
            assert(ps[k + 1].len() != 4);
        } else if k == 8 {
            lemma_not_ends_with(ps[k], ma, 2);
        } else if k == 9 {
            assert(ps[k + 1].len() != 4);
        } else if k == 10 {
            lemma_not_ends_with(ps[k], ma, 2);
        } else if k == 11 {
            assert(ps[k + 1].len() != 4);
        } else if k == 12 {
            lemma_not_ends_with(ps[k], ma, 2);
        } else if k == 13 {
            assert(ps[k + 1].len() != 4);
        } else if k == 14 {
            lemma_not_ends_with(ps[k], ma, 2);
        } else if k == 15 {
            assert(ps[k + 1].len() != 4);
        } else if k == 16 {
            lemma_not_ends_with(ps[k], ma, 2);
        } else if k == 17 {
            assert(ps[k + 1].len() != 4);
        } else if k == 18 {
            lemma_not_ends_with(ps[k], ma, 2);
        } else if k == 19 {
            lemma_no_key_end(ps[k], ma);
        }
    }
    lemma_marker_in_pieces(ps, tail, 0, ma, "true"@);
    lemma_no_marker_in_plain(tail);
    assert(ps.skip(0) =~= ps);
}

/// A path line is read as a path line only.
pub proof fn lemma_path_line_marks(layer: nat, path: nat, is_closed: bool, fill_enabled: bool, fill_color: Seq<u8>, stroke_color: Seq<u8>, t: NumberTextsView)
    requires
        fill_color.len() == 4,
        stroke_color.len() == 4,
        number_texts_ok(t),
    ensures
        spec_line_marks(spec_path_tag(layer, path, is_closed, fill_enabled, fill_color, stroke_color, t)) == (LineMarks {
            opens_layer: false,
            raster_canvas: false,
            placed_image: false,
            raster_stroke: false,
            ppw_path: true,
            closes_layer: false,
        }),
{
    let ps = path_tag_pieces(layer, path, is_closed, fill_enabled, fill_color, stroke_color, t);
    let line = spec_path_tag(layer, path, is_closed, fill_enabled, fill_color, stroke_color, t);
    let tail = " />"@;
    reveal_strlit(" />");
    reveal_strlit("true");
    lemma_path_pieces(layer, path, is_closed, fill_enabled, fill_color, stroke_color, t);
    assert(ps[31].len() == 0 || ps[31].last() != '=');
    reveal_strlit("data-ppw-raster-canvas=\"true\"");
    reveal_strlit("data-ppw-raster-canvas=");
    assert("data-ppw-raster-canvas=\"true\""@ =~= marker("data-ppw-raster-canvas="@, "true"@));
    lemma_contains_occurs(line, marker("data-ppw-raster-canvas="@, "true"@));
    lemma_path_no_raster_canvas(ps, tail);
    reveal_strlit("data-ppw-image=\"true\"");
    reveal_strlit("data-ppw-image=");
    assert("data-ppw-image=\"true\""@ =~= marker("data-ppw-image="@, "true"@));
    lemma_contains_occurs(line, marker("data-ppw-image="@, "true"@));
    lemma_path_no_placed_image(ps, tail);
    reveal_strlit("data-raster-stroke=\"true\"");
    reveal_strlit("data-raster-stroke=");
    assert("data-raster-stroke=\"true\""@ =~= marker("data-raster-stroke="@, "true"@));
    lemma_contains_occurs(line, marker("data-raster-stroke="@, "true"@));
    lemma_path_no_raster_stroke(ps, tail);
    reveal_strlit("data-ppw=\"true\"");
    reveal_strlit("data-ppw=");
    assert("data-ppw=\"true\""@ =~= marker("data-ppw="@, "true"@));
    lemma_contains_occurs(line, marker("data-ppw="@, "true"@));
    lemma_path_has_ppw_path(ps, tail);
    reveal_strlit("<g ");
    reveal_strlit("<g>");
    reveal_strlit("</g");
    reveal_strlit("<polyline id=");
    assert(line == ps[0] + seq!['"'] + quoted_pieces(ps.skip(1), tail));
    assert(line[1] == ps[0][1]);
    assert(!starts_with(line, "<g "@)) by {
        assert(line.subrange(0, 3)[1] == line[1]);
    }
    assert(!starts_with(line, "<g>"@)) by {
        assert(line.subrange(0, 3)[1] == line[1]);
    }
    assert(!starts_with(line, "</g"@)) by {
        assert(line.subrange(0, 3)[1] == line[1]);
    }
}

/// A raster stroke line is read as a raster stroke line only.
pub proof fn lemma_stroke_line_marks(layer: nat, stroke: nat, color: Seq<u8>, t: StrokeTextsView)
    requires
        color.len() == 4,
        number_text_ok(t.opacity),
        number_text_ok(t.width),
        number_text_ok(t.points),
    ensures
        spec_line_marks(spec_stroke_tag(layer, stroke, color, t)) == (LineMarks {
            opens_layer: false,
            raster_canvas: false,
            placed_image: false,
            raster_stroke: true,
            ppw_path: false,
            closes_layer: false,
        }),
{
    let ps = stroke_tag_pieces(layer, stroke, color, t);
    let line = spec_stroke_tag(layer, stroke, color, t);
    let tail = " />"@;
    reveal_strlit(" />");
    reveal_strlit("true");
    lemma_stroke_pieces(layer, stroke, color, t);
    assert(ps[21].len() == 0 || ps[21].last() != '=');
    reveal_strlit("data-ppw-raster-canvas=\"true\"");
    reveal_strlit("data-ppw-raster-canvas=");
    assert("data-ppw-raster-canvas=\"true\""@ =~= marker("data-ppw-raster-canvas="@, "true"@));
    lemma_contains_occurs(line, marker("data-ppw-raster-canvas="@, "true"@));
    lemma_stroke_no_raster_canvas(ps, tail);
    reveal_strlit("data-ppw-image=\"true\"");
    reveal_strlit("data-ppw-image=");
    assert("data-ppw-image=\"true\""@ =~= marker("data-ppw-image="@, "true"@));
    lemma_contains_occurs(line, marker("data-ppw-image="@, "true"@));
    lemma_stroke_no_placed_image(ps, tail);
    reveal_strlit("data-raster-stroke=\"true\"");
    reveal_strlit("data-raster-stroke=");
    assert("data-raster-stroke=\"true\""@ =~= marker("data-raster-stroke="@, "true"@));
    lemma_contains_occurs(line, marker("data-raster-stroke="@, "true"@));
    lemma_stroke_has_raster_stroke(ps, tail);
    reveal_strlit("data-ppw=\"true\"");
    reveal_strlit("data-ppw=");
    assert("data-ppw=\"true\""@ =~= marker("data-ppw="@, "true"@));
    lemma_contains_occurs(line, marker("data-ppw="@, "true"@));
    lemma_stroke_no_ppw_path(ps, tail);
    reveal_strlit("<g ");
    reveal_strlit("<g>");
    reveal_strlit("</g");
    reveal_strlit("<polyline id=");
    assert(line == ps[0] + seq!['"'] + quoted_pieces(ps.skip(1), tail));
    assert(line[1] == ps[0][1]);
    assert(!starts_with(line, "<g "@)) by {
        assert(line.subrange(0, 3)[1] == line[1]);
    }
    assert(!starts_with(line, "<g>"@)) by {
        assert(line.subrange(0, 3)[1] == line[1]);
    }
    assert(!starts_with(line, "</g"@)) by {
        assert(line.subrange(0, 3)[1] == line[1]);
    }
}

/// A placed image line is read as a placed image line only.
pub proof fn lemma_image_line_marks(layer: nat, image: nat, t: ImageTextsView, uri: Seq<char>, id: u64, name: Seq<char>, original_width: u32, original_height: u32)
    requires
        number_text_ok(t.x),
        number_text_ok(t.y),
        number_text_ok(t.width),
        number_text_ok(t.height),
        uri_plain(uri),
    ensures
        spec_line_marks(spec_image_tag(layer, image, t, uri, id, name, original_width, original_height)) == (LineMarks {
            opens_layer: false,
            raster_canvas: false,
            placed_image: true,
            raster_stroke: false,
            ppw_path: false,
            closes_layer: false,
        }),
{
    let ps = image_tag_pieces(layer, image, t, uri, id, name, original_width, original_height);
    let line = spec_image_tag(layer, image, t, uri, id, name, original_width, original_height);
    let tail = " />"@;
    reveal_strlit(" />");
    reveal_strlit("true");
    lemma_image_pieces(layer, image, t, uri, id, name, original_width, original_height);
    lemma_decimal_plain(original_height as nat);
    assert(ps[23].len() == 0 || ps[23].last() != '=');
    reveal_strlit("data-ppw-raster-canvas=\"true\"");
    reveal_strlit("data-ppw-raster-canvas=");
    assert("data-ppw-raster-canvas=\"true\""@ =~= marker("data-ppw-raster-canvas="@, "true"@));
    lemma_contains_occurs(line, marker("data-ppw-raster-canvas="@, "true"@));
    lemma_image_no_raster_canvas(ps, tail);
    reveal_strlit("data-ppw-image=\"true\"");
    reveal_strlit("data-ppw-image=");
    assert("data-ppw-image=\"true\""@ =~= marker("data-ppw-image="@, "true"@));
    lemma_contains_occurs(line, marker("data-ppw-image="@, "true"@));
    lemma_image_has_placed_image(ps, tail);
    reveal_strlit("data-raster-stroke=\"true\"");
    reveal_strlit("data-raster-stroke=");
    assert("data-raster-stroke=\"true\""@ =~= marker("data-raster-stroke="@, "true"@));
    lemma_contains_occurs(line, marker("data-raster-stroke="@, "true"@));
    lemma_image_no_raster_stroke(ps, tail);
    reveal_strlit("data-ppw=\"true\"");
    reveal_strlit("data-ppw=");
    assert("data-ppw=\"true\""@ =~= marker("data-ppw="@, "true"@));
    lemma_contains_occurs(line, marker("data-ppw="@, "true"@));
    lemma_image_no_ppw_path(ps, tail);
    reveal_strlit("<g ");
    reveal_strlit("<g>");
    reveal_strlit("</g");
    reveal_strlit("<image id=");
    assert(line == ps[0] + seq!['"'] + quoted_pieces(ps.skip(1), tail));
    assert(line[1] == ps[0][1]);
    assert(!starts_with(line, "<g "@)) by {
        assert(line.subrange(0, 3)[1] == line[1]);
    }
    assert(!starts_with(line, "<g>"@)) by {
        assert(line.subrange(0, 3)[1] == line[1]);
    }
    assert(!starts_with(line, "</g"@)) by {
        assert(line.subrange(0, 3)[1] == line[1]);
    }
}

/// A raster canvas line is read as a raster canvas line only.
pub proof fn lemma_canvas_line_marks(layer: nat, width: u32, height: u32, uri: Seq<char>)
    requires
        uri_plain(uri),
    ensures
        spec_line_marks(spec_canvas_tag(layer, width, height, uri)) == (LineMarks {
            opens_layer: false,
            raster_canvas: true,
            placed_image: false,
            raster_stroke: false,
            ppw_path: false,
            closes_layer: false,
        }),
{
    let ps = canvas_tag_pieces(layer, width, height, uri);
    let line = spec_canvas_tag(layer, width, height, uri);
    let tail = " />"@;
    reveal_strlit(" />");
    reveal_strlit("true");
    lemma_canvas_pieces(layer, width, height, uri);
    lemma_decimal_plain(height as nat);
    assert(ps[19].len() == 0 || ps[19].last() != '=');
    reveal_strlit("data-ppw-raster-canvas=\"true\"");
    reveal_strlit("data-ppw-raster-canvas=");
    assert("data-ppw-raster-canvas=\"true\""@ =~= marker("data-ppw-raster-canvas="@, "true"@));
    lemma_contains_occurs(line, marker("data-ppw-raster-canvas="@, "true"@));
    lemma_canvas_has_raster_canvas(ps, tail);
    reveal_strlit("data-ppw-image=\"true\"");
    reveal_strlit("data-ppw-image=");
    assert("data-ppw-image=\"true\""@ =~= marker("data-ppw-image="@, "true"@));
    lemma_contains_occurs(line, marker("data-ppw-image="@, "true"@));
    lemma_canvas_no_placed_image(ps, tail);
    reveal_strlit("data-raster-stroke=\"true\"");
    reveal_strlit("data-raster-stroke=");
    assert("data-raster-stroke=\"true\""@ =~= marker("data-raster-stroke="@, "true"@));
    lemma_contains_occurs(line, marker("data-raster-stroke="@, "true"@));
    lemma_canvas_no_raster_stroke(ps, tail);
    reveal_strlit("data-ppw=\"true\"");
    reveal_strlit("data-ppw=");
    assert("data-ppw=\"true\""@ =~= marker("data-ppw="@, "true"@));
    lemma_contains_occurs(line, marker("data-ppw="@, "true"@));
    lemma_canvas_no_ppw_path(ps, tail);
    reveal_strlit("<g ");
    reveal_strlit("<g>");
    reveal_strlit("</g");
    reveal_strlit("<image id=");
    assert(line == ps[0] + seq!['"'] + quoted_pieces(ps.skip(1), tail));
    assert(line[1] == ps[0][1]);
    assert(!starts_with(line, "<g "@)) by {
        assert(line.subrange(0, 3)[1] == line[1]);
    }
    assert(!starts_with(line, "<g>"@)) by {
        assert(line.subrange(0, 3)[1] == line[1]);
    }
    assert(!starts_with(line, "</g"@)) by {
        assert(line.subrange(0, 3)[1] == line[1]);
    }
}

/// The pieces of a layer's opening tag at even places are the attribute names.
pub open spec fn fixed_layer_pieces(ps: Seq<Seq<char>>) -> bool {
    &&& ps.len() == 10
    &&& ps[0] == "<g id="@
    &&& ps[2] == " data-layer-name="@
    &&& ps[4] == " data-layer-kind="@
    &&& ps[6] == " data-visible="@
    &&& ps[8] == " data-locked="@
}

/// The marker `data-ppw-raster-canvas="true"` lies in a layer's opening tag only where it lies in the tail.
#[verifier::spinoff_prover]
proof fn lemma_layer_no_raster_canvas(ps: Seq<Seq<char>>, tail: Seq<char>)
    requires
        fixed_layer_pieces(ps),
        forall|k: int| 0 <= k < ps.len() ==> quote_free(#[trigger] ps[k]),
        ps[9].len() == 0 || ps[9].last() != '=',
    ensures
        occurs_in(quoted_pieces(ps, tail), marker("data-ppw-raster-canvas="@, "true"@)) ==> occurs_in(tail, marker("data-ppw-raster-canvas="@, "true"@)),
{
    reveal_strlit("data-ppw-raster-canvas=");
    reveal_strlit("true");
    reveal_strlit("<g id=");
    reveal_strlit(" data-layer-name=");
    reveal_strlit(" data-layer-kind=");
    reveal_strlit(" data-visible=");
    reveal_strlit(" data-locked=");
    let ma = "data-ppw-raster-canvas="@;
    assert forall|k: int| 0 <= k < 10 && ends_with(#[trigger] ps[k], ma) implies k + 1 < 10 && ps[k + 1] != "true"@ by {
        if k == 0 {
            lemma_not_ends_with(ps[k], ma, 2);
        } else if k == 1 {
            assert(ps[k + 1].len() != 4);
        } else if k == 2 {
            lemma_not_ends_with(ps[k], ma, 2);
        } else if k == 3 {
            assert(ps[k + 1].len() != 4);
        } else if k == 4 {
            lemma_not_ends_with(ps[k], ma, 2);
        } else if k == 5 {
            assert(ps[k + 1].len() != 4);
        } else if k == 6 {
            lemma_not_ends_with(ps[k], ma, 2);
        } else if k == 7 {
            assert(ps[k + 1].len() != 4);
        } else if k == 8 {
            lemma_not_ends_with(ps[k], ma, 2);
        } else if k == 9 {
            lemma_no_key_end(ps[k], ma);
        }
    }
    lemma_marker_in_pieces(ps, tail, 0, ma, "true"@);
    assert(ps.skip(0) =~= ps);
}

/// The marker `data-ppw-image="true"` lies in a layer's opening tag only where it lies in the tail.
#[verifier::spinoff_prover]
proof fn lemma_layer_no_placed_image(ps: Seq<Seq<char>>, tail: Seq<char>)
    requires
        fixed_layer_pieces(ps),
        forall|k: int| 0 <= k < ps.len() ==> quote_free(#[trigger] ps[k]),
        ps[9].len() == 0 || ps[9].last() != '=',
    ensures
        occurs_in(quoted_pieces(ps, tail), marker("data-ppw-image="@, "true"@)) ==> occurs_in(tail, marker("data-ppw-image="@, "true"@)),
{
    reveal_strlit("data-ppw-image=");
    reveal_strlit("true");
    reveal_strlit("<g id=");
    reveal_strlit(" data-layer-name=");
    reveal_strlit(" data-layer-kind=");
    reveal_strlit(" data-visible=");
    reveal_strlit(" data-locked=");
    let ma = "data-ppw-image="@;
    assert forall|k: int| 0 <= k < 10 && ends_with(#[trigger] ps[k], ma) implies k + 1 < 10 && ps[k + 1] != "true"@ by {
        if k == 0 {
            lemma_not_ends_with(ps[k], ma, 2);
        } else if k == 1 {
            assert(ps[k + 1].len() != 4);
        } else if k == 2 {
            lemma_not_ends_with(ps[k], ma, 3);
        } else if k == 3 {
            assert(ps[k + 1].len() != 4);
        } else if k == 4 {
            lemma_not_ends_with(ps[k], ma, 2);
        } else if k == 5 {
            assert(ps[k + 1].len() != 4);
        } else if k == 6 {
            lemma_not_ends_with(ps[k], ma, 3);
        } else if k == 7 {
            assert(ps[k + 1].len() != 4);
        } else if k == 8 {
            lemma_not_ends_with(ps[k], ma, 2);
        } else if k == 9 {
            lemma_no_key_end(ps[k], ma);
        }
    }
    lemma_marker_in_pieces(ps, tail, 0, ma, "true"@);
    assert(ps.skip(0) =~= ps);
}

/// The marker `data-raster-stroke="true"` lies in a layer's opening tag only where it lies in the tail.
#[verifier::spinoff_prover]
proof fn lemma_layer_no_raster_stroke(ps: Seq<Seq<char>>, tail: Seq<char>)
    requires
        fixed_layer_pieces(ps),
        forall|k: int| 0 <= k < ps.len() ==> quote_free(#[trigger] ps[k]),
        ps[9].len() == 0 || ps[9].last() != '=',
    ensures
        occurs_in(quoted_pieces(ps, tail), marker("data-raster-stroke="@, "true"@)) ==> occurs_in(tail, marker("data-raster-stroke="@, "true"@)),
{
    reveal_strlit("data-raster-stroke=");
    reveal_strlit("true");
    reveal_strlit("<g id=");
    reveal_strlit(" data-layer-name=");
    reveal_strlit(" data-layer-kind=");
    reveal_strlit(" data-visible=");
    reveal_strlit(" data-locked=");
    let ma = "data-raster-stroke="@;
    assert forall|k: int| 0 <= k < 10 && ends_with(#[trigger] ps[k], ma) implies k + 1 < 10 && ps[k + 1] != "true"@ by {
        if k == 0 {
            lemma_not_ends_with(ps[k], ma, 2);
        } else if k == 1 {
            assert(ps[k + 1].len() != 4);
        } else if k == 2 {
            lemma_not_ends_with(ps[k], ma, 3);
        } else if k == 3 {
            assert(ps[k + 1].len() != 4);
        } else if k == 4 {
            lemma_not_ends_with(ps[k], ma, 2);
        } else if k == 5 {
            assert(ps[k + 1].len() != 4);
        } else if k == 6 {
            lemma_not_ends_with(ps[k], ma, 3);
        } else if k == 7 {
            assert(ps[k + 1].len() != 4);
        } else if k == 8 {
            lemma_not_ends_with(ps[k], ma, 2);
        } else if k == 9 {
            lemma_no_key_end(ps[k], ma);
        }
    }
    lemma_marker_in_pieces(ps, tail, 0, ma, "true"@);
    assert(ps.skip(0) =~= ps);
}

/// The marker `data-ppw="true"` lies in a layer's opening tag only where it lies in the tail.
#[verifier::spinoff_prover]
proof fn lemma_layer_no_ppw_path(ps: Seq<Seq<char>>, tail: Seq<char>)
    requires
        fixed_layer_pieces(ps),
        forall|k: int| 0 <= k < ps.len() ==> quote_free(#[trigger] ps[k]),
        ps[9].len() == 0 || ps[9].last() != '=',
    ensures
        occurs_in(quoted_pieces(ps, tail), marker("data-ppw="@, "true"@)) ==> occurs_in(tail, marker("data-ppw="@, "true"@)),
{
    reveal_strlit("data-ppw=");
    reveal_strlit("true");
    reveal_strlit("<g id=");
    reveal_strlit(" data-layer-name=");
    reveal_strlit(" data-layer-kind=");
    reveal_strlit(" data-visible=");
    reveal_strlit(" data-locked=");
    let ma = "data-ppw="@;
    assert forall|k: int| 0 <= k < 10 && ends_with(#[trigger] ps[k], ma) implies k + 1 < 10 && ps[k + 1] != "true"@ by {
        if k == 0 {
            lemma_not_ends_with(ps[k], ma, 2);
        } else if k == 1 {
            assert(ps[k + 1].len() != 4);
        } else if k == 2 {
            lemma_not_ends_with(ps[k], ma, 2);
        } else if k == 3 {
            assert(ps[k + 1].len() != 4);
        } else if k == 4 {
            lemma_not_ends_with(ps[k], ma, 2);
        } else if k == 5 {
            assert(ps[k + 1].len() != 4);
        } else if k == 6 {
            lemma_not_ends_with(ps[k], ma, 2);
        } else if k == 7 {
            assert(ps[k + 1].len() != 4);
        } else if k == 8 {
            lemma_not_ends_with(ps[k], ma, 2);
        } else if k == 9 {
            lemma_no_key_end(ps[k], ma);
        }
    }
    lemma_marker_in_pieces(ps, tail, 0, ma, "true"@);
    assert(ps.skip(0) =~= ps);
}

/// A layer's opening tag is read as opening a layer only.
pub proof fn lemma_layer_line_marks(number: nat, name: Seq<char>, kind: LayerKind, visible: bool, locked: bool)
    ensures
        spec_line_marks(spec_layer_open_tag(number, name, kind, visible, locked)) == (LineMarks {
            opens_layer: true,
            raster_canvas: false,
            placed_image: false,
            raster_stroke: false,
            ppw_path: false,
            closes_layer: false,
        }),
{
    let ps = layer_tag_pieces(number, name, kind, visible, locked);
    let tail = layer_tag_tail(visible);
    let line = spec_layer_open_tag(number, name, kind, visible, locked);
    lemma_layer_tag_pieces(number, name, kind, visible, locked);
    reveal_strlit("true");
    reveal_strlit("false");
    reveal_strlit(">");
    reveal_strlit(" display=");
    reveal_strlit("none");
    reveal_strlit("<g id=");
    reveal_strlit(" data-layer-name=");
    reveal_strlit(" data-layer-kind=");
    reveal_strlit(" data-visible=");
    reveal_strlit(" data-locked=");
    assert(ps[9] == bool_text(locked));
    assert(ps[9].last() != '=');
    let tps = seq![" display="@, "none"@];
    assert(quote_free(">"@));
    assert forall|k: int| 0 <= k < tps.len() implies quote_free(#[trigger] tps[k]) by {}
    lemma_no_marker_in_plain(">"@);
    reveal_strlit("data-ppw-raster-canvas=\"true\"");
    reveal_strlit("data-ppw-raster-canvas=");
    assert("data-ppw-raster-canvas=\"true\""@ =~= marker("data-ppw-raster-canvas="@, "true"@));
    lemma_contains_occurs(line, marker("data-ppw-raster-canvas="@, "true"@));
    assert(!occurs_in(tail, marker("data-ppw-raster-canvas="@, "true"@))) by {
        if !visible {
            assert forall|k: int| 0 <= k < 2 && ends_with(#[trigger] tps[k], "data-ppw-raster-canvas="@) implies k + 1 < 2 && tps[k + 1] != "true"@ by {
                if k == 0 {
                    lemma_not_ends_with(tps[k], "data-ppw-raster-canvas="@, 2);
                } else {
                    lemma_no_key_end(tps[k], "data-ppw-raster-canvas="@);
                }
            }
            lemma_marker_in_pieces(tps, ">"@, 0, "data-ppw-raster-canvas="@, "true"@);
            assert(tps.skip(0) =~= tps);
        }
    }
    lemma_layer_no_raster_canvas(ps, tail);
    reveal_strlit("data-ppw-image=\"true\"");
    reveal_strlit("data-ppw-image=");
    assert("data-ppw-image=\"true\""@ =~= marker("data-ppw-image="@, "true"@));
    lemma_contains_occurs(line, marker("data-ppw-image="@, "true"@));
    assert(!occurs_in(tail, marker("data-ppw-image="@, "true"@))) by {
        if !visible {
            assert forall|k: int| 0 <= k < 2 && ends_with(#[trigger] tps[k], "data-ppw-image="@) implies k + 1 < 2 && tps[k + 1] != "true"@ by {
                if k == 0 {
                    lemma_not_ends_with(tps[k], "data-ppw-image="@, 2);
                } else {
                    lemma_no_key_end(tps[k], "data-ppw-image="@);
                }
            }
            lemma_marker_in_pieces(tps, ">"@, 0, "data-ppw-image="@, "true"@);
            assert(tps.skip(0) =~= tps);
        }
    }
    lemma_layer_no_placed_image(ps, tail);
    reveal_strlit("data-raster-stroke=\"true\"");
    reveal_strlit("data-raster-stroke=");
    assert("data-raster-stroke=\"true\""@ =~= marker("data-raster-stroke="@, "true"@));
    lemma_contains_occurs(line, marker("data-raster-stroke="@, "true"@));
    assert(!occurs_in(tail, marker("data-raster-stroke="@, "true"@))) by {
        if !visible {
            assert forall|k: int| 0 <= k < 2 && ends_with(#[trigger] tps[k], "data-raster-stroke="@) implies k + 1 < 2 && tps[k + 1] != "true"@ by {
                if k == 0 {
                    lemma_not_ends_with(tps[k], "data-raster-stroke="@, 2);
                } else {
                    lemma_no_key_end(tps[k], "data-raster-stroke="@);
                }
            }
            lemma_marker_in_pieces(tps, ">"@, 0, "data-raster-stroke="@, "true"@);
            assert(tps.skip(0) =~= tps);
        }
    }
    lemma_layer_no_raster_stroke(ps, tail);
    reveal_strlit("data-ppw=\"true\"");
    reveal_strlit("data-ppw=");
    assert("data-ppw=\"true\""@ =~= marker("data-ppw="@, "true"@));
    lemma_contains_occurs(line, marker("data-ppw="@, "true"@));
    assert(!occurs_in(tail, marker("data-ppw="@, "true"@))) by {
        if !visible {
            assert forall|k: int| 0 <= k < 2 && ends_with(#[trigger] tps[k], "data-ppw="@) implies k + 1 < 2 && tps[k + 1] != "true"@ by {
                if k == 0 {
                    lemma_not_ends_with(tps[k], "data-ppw="@, 2);
                } else {
                    lemma_no_key_end(tps[k], "data-ppw="@);
                }
            }
            lemma_marker_in_pieces(tps, ">"@, 0, "data-ppw="@, "true"@);
            assert(tps.skip(0) =~= tps);
        }
    }
    lemma_layer_no_ppw_path(ps, tail);
    reveal_strlit("<g ");
    reveal_strlit("<g>");
    reveal_strlit("</g");
    assert(line == ps[0] + seq!['"'] + quoted_pieces(ps.skip(1), tail));
    assert(line.subrange(0, 3) =~= "<g "@) by {
        assert(line[0] == ps[0][0] && line[1] == ps[0][1] && line[2] == ps[0][2]);
    }
    assert(!starts_with(line, "</g"@)) by {
        assert(line.subrange(0, 3)[1] == line[1]);
        assert(line[1] == ps[0][1]);
    }
}

/// The line that closes a layer is read as that only.
pub proof fn lemma_closing_line_marks()
    ensures
        spec_line_marks("</g>"@) == (LineMarks {
            opens_layer: false,
            raster_canvas: false,
            placed_image: false,
            raster_stroke: false,
            ppw_path: false,
            closes_layer: true,
        }),
{
    let line = "</g>"@;
    reveal_strlit("</g>");
    reveal_strlit("true");
    reveal_strlit("<g ");
    reveal_strlit("<g>");
    reveal_strlit("</g");
    assert(quote_free(line));
    lemma_no_marker_in_plain(line);
    reveal_strlit("data-ppw-raster-canvas=\"true\"");
    reveal_strlit("data-ppw-raster-canvas=");
    assert("data-ppw-raster-canvas=\"true\""@ =~= marker("data-ppw-raster-canvas="@, "true"@));
    lemma_contains_occurs(line, marker("data-ppw-raster-canvas="@, "true"@));
    reveal_strlit("data-ppw-image=\"true\"");
    reveal_strlit("data-ppw-image=");
    assert("data-ppw-image=\"true\""@ =~= marker("data-ppw-image="@, "true"@));
    lemma_contains_occurs(line, marker("data-ppw-image="@, "true"@));
    reveal_strlit("data-raster-stroke=\"true\"");
    reveal_strlit("data-raster-stroke=");
    assert("data-raster-stroke=\"true\""@ =~= marker("data-raster-stroke="@, "true"@));
    lemma_contains_occurs(line, marker("data-raster-stroke="@, "true"@));
    reveal_strlit("data-ppw=\"true\"");
    reveal_strlit("data-ppw=");
    assert("data-ppw=\"true\""@ =~= marker("data-ppw="@, "true"@));
    lemma_contains_occurs(line, marker("data-ppw="@, "true"@));
    assert(line.subrange(0, 3) =~= "</g"@);
    assert(!starts_with(line, "<g "@)) by {
        assert(line.subrange(0, 3)[1] == line[1]);
    }
    assert(!starts_with(line, "<g>"@)) by {
        assert(line.subrange(0, 3)[1] == line[1]);
    }
}

} // verus!
