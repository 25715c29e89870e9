//! The SVG tag that opens a layer: how it is written and how it is read back.

use vstd::prelude::*;
use crate::document::{LayerKind, kind_label};
use crate::text::{
    attr, chars_of, find_chars, numbered_name, occurs_at, push_decimal, spec_attr, spec_decimal, spec_escape_xml,
    spec_find, spec_unescape_xml, string_from_chars, unescape_xml, escape_xml, lemma_find_from,
    lemma_escape_has_no_quote, lemma_unescape_escape,
};

verus! {

/// Whether `s` holds no `"`.
pub open spec fn quote_free(s: Seq<char>) -> bool {
    forall|i: int| 0 <= i < s.len() ==> s[i] != '"'
}

/// Whether `s` ends with `t`.
pub open spec fn ends_with(s: Seq<char>, t: Seq<char>) -> bool {
    t.len() <= s.len() && s.subrange(s.len() - t.len(), s.len() as int) == t
}

/// The first `"` of `v + "` + rest`, for a `v` without `"`, closes `v`.
pub proof fn lemma_find_closing_quote(v: Seq<char>, rest: Seq<char>)
    requires
        quote_free(v),
    ensures
        spec_find(v + seq!['"'] + rest, seq!['"']) == Some(v.len() as int),
        (v + seq!['"'] + rest).take(v.len() as int) == v,
{
    let line = v + seq!['"'] + rest;
    assert(line.subrange(v.len() as int, v.len() as int + 1) =~= seq!['"']);
    assert(occurs_at(line, seq!['"'], v.len() as int));
    assert forall|j: int| 0 <= j < v.len() implies !occurs_at(line, seq!['"'], j) by {
        assert(line.subrange(j, j + 1)[0] == v[j]);
    }
    lemma_find_from(line, seq!['"'], 0);
    assert(line.take(v.len() as int) =~= v);
}

/// Reading attribute `key` from a text that starts with a piece `a` (without
/// `"`) and a `"`: when `a` ends with `key=`, the value is what follows up to
/// the next `"`; otherwise the search goes on after the `"`.
pub proof fn lemma_attr_after_piece(a: Seq<char>, r: Seq<char>, key: Seq<char>)
    requires
        quote_free(a),
        quote_free(key),
    ensures
        ends_with(a, key.push('=')) ==> spec_attr(a + seq!['"'] + r, key) == (match spec_find(r, seq!['"']) {
            Some(e) => Some(r.take(e)),
            None => None,
        }),
        !ends_with(a, key.push('=')) ==> spec_attr(a + seq!['"'] + r, key) == spec_attr(r, key),
{
    let needle = key + seq!['=', '"'];
    let line = a + seq!['"'] + r;
    let l = needle.len() as int;
    let al = a.len() as int;
    assert(needle =~= key.push('=').push('"'));
    // No occurrence can start at or before the quote unless it ends exactly there.
    assert forall|j: int| 0 <= j <= al && occurs_at(line, needle, j) implies j + l - 1 == al && ends_with(
        a,
        key.push('='),
    ) by {
        let w = line.subrange(j, j + l);
        assert(w == needle);
        if j + l - 1 < al {
            assert(w[l - 1] == line[j + l - 1]);
            assert(line[j + l - 1] == a[j + l - 1]);
        } else if j + l - 1 > al {
            assert(w[al - j] == line[al]);
            assert(line[al] == '"');
            if al - j < key.len() {
                assert(needle[al - j] == key[al - j]);
            } else {
                assert(needle[al - j] == '=');
            }
        } else {
            assert(a.subrange(al - (l - 1), al) =~= key.push('=')) by {
                assert forall|k: int| 0 <= k < l - 1 implies a.subrange(al - (l - 1), al)[k] == key.push('=')[k] by {
                    assert(w[k] == needle[k]);
                    assert(w[k] == line[j + k]);
                    assert(line[j + k] == a[j + k]);
                }
            }
        }
    }
    // Past the quote, occurrences are those in `r`.
    assert forall|j: int| j > al implies occurs_at(line, needle, j) == occurs_at(r, needle, j - al - 1) by {
        if j + l <= line.len() {
            assert(line.subrange(j, j + l) =~= r.subrange(j - al - 1, j - al - 1 + l));
        }
    }
    lemma_find_from(line, needle, 0);
    lemma_find_from(r, needle, 0);
    if ends_with(a, key.push('=')) {
        let p = al + 1 - l;
        assert(line.subrange(p, p + l) =~= needle) by {
            assert forall|k: int| 0 <= k < l implies line.subrange(p, p + l)[k] == needle[k] by {
                if k < l - 1 {
                    assert(line[p + k] == a[p + k]);
                    assert(a.subrange(al - (l - 1), al)[k] == a[p + k]);
                }
            }
        }
        assert(occurs_at(line, needle, p));
        assert(spec_find(line, needle) == Some(p)) by {
            assert forall|j: int| 0 <= j < p implies !occurs_at(line, needle, j) by {}
        }
        assert(line.skip(p + l) =~= r);
    } else {
        match spec_find(r, needle) {
            Some(i) => {
                assert(occurs_at(line, needle, i + al + 1));
                assert(spec_find(line, needle) == Some(i + al + 1)) by {
                    assert forall|j: int| 0 <= j < i + al + 1 implies !occurs_at(line, needle, j) by {
                        if j > al {
                            assert(!occurs_at(r, needle, j - al - 1));
                        }
                    }
                }
                assert(line.skip(i + al + 1 + l) =~= r.skip(i + l));
            },
            None => {
                assert(spec_find(line, needle) is None) by {
                    if let Some(j) = spec_find(line, needle) {
                        assert(occurs_at(line, needle, j));
                        if j > al {
                            assert(occurs_at(r, needle, j - al - 1));
                        }
                    }
                }
            },
        }
    }
}

/// The pieces `ps`, each followed by a `"`, then `tail`.
pub open spec fn quoted_pieces(ps: Seq<Seq<char>>, tail: Seq<char>) -> Seq<char>
    decreases ps.len(),
{
    if ps.len() == 0 {
        tail
    } else {
        ps[0] + seq!['"'] + quoted_pieces(ps.skip(1), tail)
    }
}

/// The pieces `ps`, each followed by a `"` (built from the left).
pub open spec fn quoted_prefix(ps: Seq<Seq<char>>) -> Seq<char>
    decreases ps.len(),
{
    if ps.len() == 0 {
        Seq::empty()
    } else {
        quoted_prefix(ps.drop_last()) + ps.last() + seq!['"']
    }
}

/// Appending a piece moves it in front of the tail.
proof fn lemma_quoted_pieces_push(ps: Seq<Seq<char>>, x: Seq<char>, tail: Seq<char>)
    ensures
        quoted_pieces(ps.push(x), tail) == quoted_pieces(ps, x + seq!['"'] + tail),
    decreases ps.len(),
{
    if ps.len() > 0 {
        lemma_quoted_pieces_push(ps.skip(1), x, tail);
        assert(ps.push(x).skip(1) =~= ps.skip(1).push(x));
        assert(ps.push(x)[0] == ps[0]);
    } else {
        assert(ps.push(x).skip(1) =~= Seq::<Seq<char>>::empty());
        assert(ps.push(x)[0] == x);
        assert(quoted_pieces(Seq::<Seq<char>>::empty(), tail) == tail);
    }
}

/// Built from the left or from the right, the pieces give the same text.
pub(crate) proof fn lemma_quoted_prefix(ps: Seq<Seq<char>>, tail: Seq<char>)
    ensures
        quoted_prefix(ps) + tail == quoted_pieces(ps, tail),
    decreases ps.len(),
{
    if ps.len() > 0 {
        let init = ps.drop_last();
        lemma_quoted_prefix(init, ps.last() + seq!['"'] + tail);
        lemma_quoted_pieces_push(init, ps.last(), tail);
        assert(init.push(ps.last()) =~= ps);
        assert(quoted_prefix(init) + ps.last() + seq!['"'] + tail =~= quoted_prefix(init) + (ps.last() + seq![
            '"',
        ] + tail));
    } else {
        assert(Seq::<char>::empty() + tail =~= tail);
    }
}

/// What `attr` finds in `quoted_pieces(ps, tail)`, searching from piece `i`:
/// the piece after the first piece that ends with `key=`, or else what it finds in the tail.
pub open spec fn attr_from(ps: Seq<Seq<char>>, tail: Seq<char>, key: Seq<char>, i: int) -> Option<Seq<char>>
    decreases ps.len() - i,
{
    if i < 0 || i >= ps.len() {
        spec_attr(tail, key)
    } else if ends_with(ps[i], key.push('=')) {
        if i + 1 < ps.len() {
            Some(ps[i + 1])
        } else {
            match spec_find(tail, seq!['"']) {
                Some(e) => Some(tail.take(e)),
                None => None,
            }
        }
    } else {
        attr_from(ps, tail, key, i + 1)
    }
}

/// Attribute lookup in a text of quote-free pieces follows `attr_from`.
pub proof fn lemma_attr_of_pieces(ps: Seq<Seq<char>>, tail: Seq<char>, key: Seq<char>, i: int)
    requires
        0 <= i <= ps.len(),
        forall|k: int| 0 <= k < ps.len() ==> quote_free(#[trigger] ps[k]),
        quote_free(key),
    ensures
        spec_attr(quoted_pieces(ps.skip(i), tail), key) == attr_from(ps, tail, key, i),
    decreases ps.len() - i,
{
    if i < ps.len() {
        let rest = ps.skip(i);
        assert(rest[0] == ps[i]);
        assert(rest.skip(1) =~= ps.skip(i + 1));
        assert(quote_free(ps[i]));
        lemma_attr_after_piece(ps[i], quoted_pieces(ps.skip(i + 1), tail), key);
        if ends_with(ps[i], key.push('=')) {
            if i + 1 < ps.len() {
                let r2 = ps.skip(i + 1);
                assert(r2[0] == ps[i + 1]);
                assert(quote_free(ps[i + 1]));
                lemma_find_closing_quote(ps[i + 1], quoted_pieces(r2.skip(1), tail));
            } else {
                assert(ps.skip(i + 1) =~= Seq::<Seq<char>>::empty());
            }
        } else {
            lemma_attr_of_pieces(ps, tail, key, i + 1);
        }
    } else {
        assert(ps.skip(i) =~= Seq::<Seq<char>>::empty());
    }
}

/// `true` or `false`, as Rust writes a `bool`.
pub open spec fn bool_text(b: bool) -> Seq<char> {
    if b { "true"@ } else { "false"@ }
}

/// The quoted pieces of the tag that opens a layer (see `spec_layer_open_tag`).
pub open spec fn layer_tag_pieces(number: nat, name: Seq<char>, kind: LayerKind, visible: bool, locked: bool) -> Seq<Seq<char>> {
    seq![
        "<g id="@,
        "layer-"@ + spec_decimal(number),
        " data-layer-name="@,
        spec_escape_xml(name),
        " data-layer-kind="@,
        kind_label(kind),
        " data-visible="@,
        bool_text(visible),
        " data-locked="@,
        bool_text(locked),
    ]
}

/// What follows the last quoted piece of a layer's opening tag.
pub open spec fn layer_tag_tail(visible: bool) -> Seq<char> {
    if visible { ">"@ } else { quoted_pieces(seq![" display="@, "none"@], ">"@) }
}

/// The tag that opens layer `number` in a saved SVG:
/// `<g id="layer-N" data-layer-name="..." data-layer-kind="..." data-visible="..." data-locked="...">`,
/// with ` display="none"` before the `>` for a hidden layer. The name is escaped.
pub open spec fn spec_layer_open_tag(number: nat, name: Seq<char>, kind: LayerKind, visible: bool, locked: bool) -> Seq<char> {
    quoted_pieces(layer_tag_pieces(number, name, kind, visible, locked), layer_tag_tail(visible))
}

/// Appends the characters of `s`.
pub(crate) fn append(v: &mut Vec<char>, s: &str)
    ensures
        final(v)@ == old(v)@ + s@,
{
    let t = chars_of(s);
    let mut i: usize = 0;
    while i < t.len()
        invariant
            0 <= i <= t@.len(),
            t@ == s@,
            v@ == old(v)@ + t@.take(i as int),
        decreases t@.len() - i,
    {
        v.push(t[i]);
        i = i + 1;
        assert(v@ =~= old(v)@ + t@.take(i as int));
    }
    assert(t@.take(t@.len() as int) =~= t@);
}

/// Appends the characters of `s` and a `"`.
pub(crate) fn append_piece(v: &mut Vec<char>, s: &str, Ghost(ps): Ghost<Seq<Seq<char>>>)
    requires
        old(v)@ == quoted_prefix(ps),
    ensures
        final(v)@ == quoted_prefix(ps.push(s@)),
{
    append(v, s);
    v.push('"');
    assert(ps.push(s@).drop_last() =~= ps);
}

/// `"true"` or `"false"`.
pub(crate) fn bool_word(b: bool) -> (r: &'static str)
    ensures
        r@ == bool_text(b),
{
    if b { "true" } else { "false" }
}

/// Writes the tag that opens layer `number` (see `spec_layer_open_tag`).
pub fn layer_open_tag(number: u64, name: &str, kind: LayerKind, visible: bool, locked: bool) -> (r: String)
    ensures
        r@ == spec_layer_open_tag(number as nat, name@, kind, visible, locked),
{
    let mut v: Vec<char> = Vec::new();
    let ghost ps = Seq::<Seq<char>>::empty();
    assert(v@ =~= quoted_prefix(ps));
    append_piece(&mut v, "<g id=", Ghost(ps));
    let ghost ps = ps.push("<g id="@);
    let mut label: Vec<char> = Vec::new();
    append(&mut label, "layer-");
    push_decimal(&mut label, number);
    let label_text = string_from_chars(label.as_slice());
    append_piece(&mut v, label_text.as_str(), Ghost(ps));
    let ghost ps = ps.push(label_text@);
    append_piece(&mut v, " data-layer-name=", Ghost(ps));
    let ghost ps = ps.push(" data-layer-name="@);
    let escaped = escape_xml(name);
    append_piece(&mut v, escaped.as_str(), Ghost(ps));
    let ghost ps = ps.push(escaped@);
    append_piece(&mut v, " data-layer-kind=", Ghost(ps));
    let ghost ps = ps.push(" data-layer-kind="@);
    append_piece(&mut v, kind.label(), Ghost(ps));
    let ghost ps = ps.push(kind_label(kind));
    append_piece(&mut v, " data-visible=", Ghost(ps));
    let ghost ps = ps.push(" data-visible="@);
    append_piece(&mut v, bool_word(visible), Ghost(ps));
    let ghost ps = ps.push(bool_text(visible));
    append_piece(&mut v, " data-locked=", Ghost(ps));
    let ghost ps = ps.push(" data-locked="@);
    append_piece(&mut v, bool_word(locked), Ghost(ps));
    let ghost ps = ps.push(bool_text(locked));
    let ghost head = v@;
    if visible {
        append(&mut v, ">");
    } else {
        let mut t: Vec<char> = Vec::new();
        let ghost tps = Seq::<Seq<char>>::empty();
        assert(t@ =~= quoted_prefix(tps));
        append_piece(&mut t, " display=", Ghost(tps));
        let ghost tps = tps.push(" display="@);
        append_piece(&mut t, "none", Ghost(tps));
        let ghost tps = tps.push("none"@);
        append(&mut t, ">");
        proof {
            lemma_quoted_prefix(tps, ">"@);
            assert(tps =~= seq![" display="@, "none"@]);
        }
        let mut k: usize = 0;
        let ghost before = v@;
        while k < t.len()
            invariant
                0 <= k <= t@.len(),
                v@ == before + t@.take(k as int),
            decreases t@.len() - k,
        {
            v.push(t[k]);
            k = k + 1;
            assert(v@ =~= before + t@.take(k as int));
        }
        assert(t@.take(t@.len() as int) =~= t@);
    }
    proof {
        lemma_quoted_prefix(ps, layer_tag_tail(visible));
        assert(ps =~= layer_tag_pieces(number as nat, name@, kind, visible, locked));
    }
    string_from_chars(v.as_slice())
}

/// A `bool` as Rust parses it: exactly `true` or `false`.
pub open spec fn spec_parse_bool(s: Seq<char>) -> Option<bool> {
    if s == "true"@ {
        Some(true)
    } else if s == "false"@ {
        Some(false)
    } else {
        None
    }
}

/// `display="none"`, the mark of a hidden layer.
pub open spec fn display_none() -> Seq<char> {
    "display="@ + seq!['"'] + "none"@ + seq!['"']
}

/// The layer name an opening tag gives: its unescaped `data-layer-name`, or
/// "Layer N" after `layers_before` layers.
pub open spec fn header_name(line: Seq<char>, layers_before: nat) -> Seq<char> {
    spec_unescape_xml(
        match spec_attr(line, "data-layer-name"@) {
            Some(v) => v,
            None => "Layer "@ + spec_decimal(layers_before + 1),
        },
    )
}

/// Whether an opening tag marks its layer visible: its `data-visible` flag,
/// or else the absence of `display="none"`.
pub open spec fn header_visible(line: Seq<char>) -> bool {
    match spec_attr(line, "data-visible"@) {
        Some(v) if spec_parse_bool(v) is Some => spec_parse_bool(v).unwrap(),
        _ => spec_find(line, display_none()) is None,
    }
}

/// Whether an opening tag marks its layer locked (no flag: unlocked).
pub open spec fn header_locked(line: Seq<char>) -> bool {
    match spec_attr(line, "data-locked"@) {
        Some(v) if spec_parse_bool(v) is Some => spec_parse_bool(v).unwrap(),
        _ => false,
    }
}

/// The kind an opening tag gives: raster only for `data-layer-kind="Raster"`.
pub open spec fn header_kind(line: Seq<char>) -> LayerKind {
    if spec_attr(line, "data-layer-kind"@) == Some("Raster"@) {
        LayerKind::Raster
    } else {
        LayerKind::Vector
    }
}

/// The layer settings read from a layer's opening tag.
pub struct LayerHeader {
    pub name: String,
    pub visible: bool,
    pub locked: bool,
    pub kind: LayerKind,
}

/// Whether two texts are equal.
pub(crate) fn same_text(a: &str, b: &str) -> (r: bool)
    ensures
        r == (a@ == b@),
{
    let x = chars_of(a);
    let y = chars_of(b);
    if x.len() != y.len() {
        return false;
    }
    let mut i: usize = 0;
    while i < x.len()
        invariant
            0 <= i <= x@.len(),
            x@.len() == y@.len(),
            x@ == a@,
            y@ == b@,
            forall|k: int| 0 <= k < i ==> x@[k] == y@[k],
        decreases x@.len() - i,
    {
        if x[i] != y[i] {
            assert(x@[i as int] != y@[i as int]);
            return false;
        }
        i = i + 1;
    }
    assert(x@ =~= y@);
    true
}

/// Parses a `bool` flag.
pub fn parse_bool(s: &str) -> (r: Option<bool>)
    ensures
        r == spec_parse_bool(s@),
{
    if same_text(s, "true") {
        Some(true)
    } else if same_text(s, "false") {
        Some(false)
    } else {
        None
    }
}

/// Reads the settings of a layer from its opening `<g ...>` tag, the layer
/// after `layers_before` others.
pub fn parse_layer_header(line: &str, layers_before: usize) -> (r: LayerHeader)
    requires
        layers_before < usize::MAX,
    ensures
        r.name@ == header_name(line@, layers_before as nat),
        r.visible == header_visible(line@),
        r.locked == header_locked(line@),
        r.kind == header_kind(line@),
{
    let raw = match attr(line, "data-layer-name") {
        Some(v) => v,
        None => numbered_name("Layer ", layers_before as u64 + 1),
    };
    let name = unescape_xml(raw.as_str());
    let line_chars = chars_of(line);
    let hidden_mark = chars_of("display=\"none\"");
    proof {
        reveal_strlit("display=\"none\"");
        reveal_strlit("display=");
        reveal_strlit("none");
        assert(hidden_mark@ =~= display_none());
    }
    let hidden = find_chars(&line_chars, &hidden_mark).is_some();
    let visible = match attr(line, "data-visible") {
        Some(v) => match parse_bool(v.as_str()) {
            Some(b) => b,
            None => !hidden,
        },
        None => !hidden,
    };
    let locked = match attr(line, "data-locked") {
        Some(v) => match parse_bool(v.as_str()) {
            Some(b) => b,
            None => false,
        },
        None => false,
    };
    let kind = match attr(line, "data-layer-kind") {
        Some(v) => if same_text(v.as_str(), "Raster") {
            LayerKind::Raster
        } else {
            LayerKind::Vector
        },
        None => LayerKind::Vector,
    };
    LayerHeader { name, visible, locked, kind }
}

/// Whether `needle` occurs somewhere in `s`.
pub open spec fn occurs_in(s: Seq<char>, needle: Seq<char>) -> bool {
    exists|j: int| occurs_at(s, needle, j)
}

/// Every digit of a decimal number is a digit character.
pub(crate) proof fn lemma_decimal_digits(n: nat)
    ensures
        spec_decimal(n).len() >= 1,
        forall|i: int| 0 <= i < spec_decimal(n).len() ==> '0' <= #[trigger] spec_decimal(n)[i] <= '9',
    decreases n,
{
    if n >= 10 {
        lemma_decimal_digits(n / 10);
    }
}

/// `display="none"` in a text that starts with a quote-free piece `a` and a
/// `"` lies either across that quote (then `a` ends with `display=` and `none`
/// follows) or wholly after it.
proof fn lemma_display_after_piece(a: Seq<char>, r: Seq<char>)
    requires
        quote_free(a),
    ensures
        occurs_in(a + seq!['"'] + r, display_none()) ==> (ends_with(a, "display="@) && r.len() > 0 && r[0] == 'n')
            || occurs_in(r, display_none()),
{
    reveal_strlit("display=");
    reveal_strlit("none");
    let d = display_none();
    let line = a + seq!['"'] + r;
    let al = a.len() as int;
    assert(d.len() == 14);
    assert(d[8] == '"');
    assert forall|k: int| 0 <= k < 8 implies d[k] != '"' by {}
    if occurs_in(line, d) {
        let j = choose|j: int| occurs_at(line, d, j);
        let w = line.subrange(j, j + 14);
        assert(w == d);
        if j > al {
            assert(r.subrange(j - al - 1, j - al - 1 + 14) =~= w);
            assert(occurs_at(r, d, j - al - 1));
        } else if j + 8 < al {
            assert(w[8] == line[j + 8]);
            assert(line[j + 8] == a[j + 8]);
        } else if j + 8 > al {
            assert(w[al - j] == line[al]);
        } else {
            assert(a.subrange(al - 8, al) =~= "display="@) by {
                assert forall|k: int| 0 <= k < 8 implies a.subrange(al - 8, al)[k] == "display="@[k] by {
                    assert(w[k] == d[k]);
                    assert(line[j + k] == a[j + k]);
                }
            }
            assert(w[9] == line[al + 1]);
            assert(line[al + 1] == r[0]);
        }
    }
}

/// `display="none"` in text made of quote-free pieces, none of which ends with
/// `display=` right before a piece starting with `n`, can only lie in the tail.
proof fn lemma_display_in_pieces(ps: Seq<Seq<char>>, tail: Seq<char>, i: int)
    requires
        0 <= i <= ps.len(),
        forall|k: int| 0 <= k < ps.len() ==> quote_free(#[trigger] ps[k]),
        forall|k: int|
            i <= k < ps.len() && ends_with(#[trigger] ps[k], "display="@) ==> k + 1 < ps.len() && ps[k + 1].len() > 0
                && ps[k + 1][0] != 'n',
    ensures
        occurs_in(quoted_pieces(ps.skip(i), tail), display_none()) ==> occurs_in(tail, display_none()),
    decreases ps.len() - i,
{
    if i < ps.len() {
        let rest = ps.skip(i);
        assert(rest[0] == ps[i]);
        assert(rest.skip(1) =~= ps.skip(i + 1));
        let r = quoted_pieces(ps.skip(i + 1), tail);
        assert(quote_free(ps[i]));
        lemma_display_after_piece(ps[i], r);
        lemma_display_in_pieces(ps, tail, i + 1);
        if ends_with(ps[i], "display="@) {
            let r2 = ps.skip(i + 1);
            assert(r2[0] == ps[i + 1]);
            assert(r[0] == ps[i + 1][0]);
        }
    } else {
        assert(ps.skip(i) =~= Seq::<Seq<char>>::empty());
    }
}

#[verifier::spinoff_prover]
/// The pieces of a layer's opening tag hold no `"`, and only the name can end
/// with one of the attribute keys that are read back (or with `display=`).
pub(crate) proof fn lemma_layer_tag_pieces(number: nat, name: Seq<char>, kind: LayerKind, visible: bool, locked: bool)
    ensures
        ({
            let ps = layer_tag_pieces(number, name, kind, visible, locked);
            &&& ps.len() == 10
            &&& forall|k: int| 0 <= k < ps.len() ==> quote_free(#[trigger] ps[k])
            &&& forall|k: int|
                0 <= k < ps.len() && k != 3 && k != 2 ==> !ends_with(#[trigger] ps[k], "data-layer-name"@.push('='))
            &&& ends_with(ps[2], "data-layer-name"@.push('='))
            &&& forall|k: int|
                0 <= k < 4 && k != 3 ==> !ends_with(#[trigger] ps[k], "data-layer-kind"@.push('='))
            &&& ends_with(ps[4], "data-layer-kind"@.push('='))
            &&& forall|k: int| 0 <= k < 6 && k != 3 ==> !ends_with(#[trigger] ps[k], "data-visible"@.push('='))
            &&& ends_with(ps[6], "data-visible"@.push('='))
            &&& forall|k: int| 0 <= k < 8 && k != 3 ==> !ends_with(#[trigger] ps[k], "data-locked"@.push('='))
            &&& ends_with(ps[8], "data-locked"@.push('='))
            &&& forall|k: int| 0 <= k < ps.len() && k != 3 ==> !ends_with(#[trigger] ps[k], "display="@)
            &&& ps[4].len() > 0 && ps[4][0] == ' '
        }),
{
    reveal_strlit("<g id=");
    reveal_strlit("layer-");
    reveal_strlit(" data-layer-name=");
    reveal_strlit(" data-layer-kind=");
    reveal_strlit(" data-visible=");
    reveal_strlit(" data-locked=");
    reveal_strlit("data-layer-name");
    reveal_strlit("data-layer-kind");
    reveal_strlit("data-visible");
    reveal_strlit("data-locked");
    reveal_strlit("display=");
    reveal_strlit("Vector");
    reveal_strlit("Raster");
    reveal_strlit("true");
    reveal_strlit("false");
    let ps = layer_tag_pieces(number, name, kind, visible, locked);
    lemma_decimal_digits(number);
    lemma_escape_has_no_quote(name);
    let k_name = "data-layer-name"@.push('=');
    let k_kind = "data-layer-kind"@.push('=');
    let k_vis = "data-visible"@.push('=');
    let k_lock = "data-locked"@.push('=');
    let disp = "display="@;
    let p1 = "layer-"@ + spec_decimal(number);
    let p2 = " data-layer-name="@;
    let p4 = " data-layer-kind="@;
    let p6 = " data-visible="@;
    let p8 = " data-locked="@;
    assert forall|k: int| 0 <= k < ps.len() implies quote_free(#[trigger] ps[k]) by {
        if k == 1 {
            assert forall|i: int| 0 <= i < p1.len() implies p1[i] != '"' by {
                if i >= 6 {
                    assert(p1[i] == spec_decimal(number)[i - 6]);
                }
            }
        }
        if k == 5 {
            assert(kind_label(kind) == "Vector"@ || kind_label(kind) == "Raster"@);
        }
    }
    // The last character of the numbered id is a digit, never `=`.
    assert(p1[p1.len() - 1] == spec_decimal(number)[spec_decimal(number).len() - 1]);
    assert forall|t: Seq<char>| t.len() > 0 && t[t.len() - 1] == '=' implies !ends_with(p1, t) by {
        if ends_with(p1, t) {
            assert(p1.subrange(p1.len() - t.len(), p1.len() as int)[t.len() - 1] == p1[p1.len() - 1]);
        }
    }
    assert(ends_with(p2, k_name)) by {
        assert(p2.subrange(1, 17) =~= k_name);
    }
    assert(ends_with(p4, k_kind)) by {
        assert(p4.subrange(1, 17) =~= k_kind);
    }
    assert(ends_with(p6, k_vis)) by {
        assert(p6.subrange(1, 14) =~= k_vis);
    }
    assert(ends_with(p8, k_lock)) by {
        assert(p8.subrange(1, 13) =~= k_lock);
    }
    assert(!ends_with(p2, k_kind)) by {
        assert(p2.subrange(1, 17)[11] != k_kind[11]);
    }
    assert(!ends_with(p2, k_vis)) by {
        assert(p2.subrange(4, 17)[0] != k_vis[0]);
    }
    assert(!ends_with(p4, k_vis)) by {
        assert(p4.subrange(4, 17)[0] != k_vis[0]);
    }
    assert(!ends_with(p2, k_lock)) by {
        assert(p2.subrange(5, 17)[0] != k_lock[0]);
    }
    assert(!ends_with(p4, k_lock)) by {
        assert(p4.subrange(5, 17)[0] != k_lock[0]);
    }
    assert(!ends_with(p6, k_lock)) by {
        assert(p6.subrange(2, 14)[0] != k_lock[0]);
    }
    assert(!ends_with(p2, disp)) by {
        assert(p2.subrange(9, 17)[0] != disp[0]);
    }
    assert(!ends_with(p4, disp)) by {
        assert(p4.subrange(9, 17)[0] != disp[0]);
    }
    assert(!ends_with(p6, disp)) by {
        assert(p6.subrange(6, 14)[0] != disp[0]);
    }
    assert(!ends_with(p8, disp)) by {
        assert(p8.subrange(5, 13)[0] != disp[0]);
    }
    assert(!ends_with(p4, k_name)) by {
        assert(p4.subrange(1, 17)[11] != k_name[11]);
    }
    assert(!ends_with(p6, k_name));
    assert(!ends_with(p8, k_name));
    assert(!ends_with(p6, k_kind));
    assert(!ends_with(p8, k_kind));
    assert(!ends_with(p8, k_vis)) by {
        assert(p8.subrange(0, 13)[0] != k_vis[0]);
    }
    assert(kind_label(kind).len() == 6);
    assert(bool_text(visible).len() <= 5);
    assert(bool_text(locked).len() <= 5);
}

#[verifier::spinoff_prover]
/// A layer's opening tag, written and read back, gives the layer's name,
/// visibility, lock and kind; the exceptions are an escaped name that ends with
/// `data-layer-kind=` on a raster layer, or with `data-locked=` on a locked
/// layer, where the reader takes the end of the name for that attribute.
pub proof fn lemma_layer_tag_roundtrip(
    number: nat,
    name: Seq<char>,
    kind: LayerKind,
    visible: bool,
    locked: bool,
    layers_before: nat,
)
    requires
        !(kind == LayerKind::Raster && ends_with(spec_escape_xml(name), "data-layer-kind="@)),
        !(locked && ends_with(spec_escape_xml(name), "data-locked="@)),
    ensures
        ({
            let line = spec_layer_open_tag(number, name, kind, visible, locked);
            &&& header_name(line, layers_before) == name
            &&& header_visible(line) == visible
            &&& header_locked(line) == locked
            &&& header_kind(line) == kind
        }),
{
    reveal_strlit("data-layer-name");
    reveal_strlit("data-layer-kind");
    reveal_strlit("data-visible");
    reveal_strlit("data-locked");
    reveal_strlit("data-layer-kind=");
    reveal_strlit("data-locked=");
    reveal_strlit(" data-layer-kind=");
    reveal_strlit("Vector");
    reveal_strlit("Raster");
    reveal_strlit("true");
    reveal_strlit("false");
    reveal_strlit(">");
    reveal_strlit(" display=");
    reveal_strlit("none");
    reveal_strlit("display=");
    let ps = layer_tag_pieces(number, name, kind, visible, locked);
    let tail = layer_tag_tail(visible);
    let line = spec_layer_open_tag(number, name, kind, visible, locked);
    lemma_layer_tag_pieces(number, name, kind, visible, locked);
    assert(ps.skip(0) =~= ps);
    assert("data-layer-kind"@.push('=') =~= "data-layer-kind="@);
    assert("data-locked"@.push('=') =~= "data-locked="@);
    let esc = spec_escape_xml(name);
    assert(ps[3] == esc);
    // name
    let k_name = "data-layer-name"@;
    lemma_attr_of_pieces(ps, tail, k_name, 0);
    assert(attr_from(ps, tail, k_name, 0) == attr_from(ps, tail, k_name, 1));
    assert(attr_from(ps, tail, k_name, 1) == attr_from(ps, tail, k_name, 2));
    assert(attr_from(ps, tail, k_name, 2) == Some(esc));
    lemma_unescape_escape(name);
    // kind
    let k_kind = "data-layer-kind"@;
    lemma_attr_of_pieces(ps, tail, k_kind, 0);
    assert(attr_from(ps, tail, k_kind, 0) == attr_from(ps, tail, k_kind, 1));
    assert(attr_from(ps, tail, k_kind, 1) == attr_from(ps, tail, k_kind, 2));
    assert(attr_from(ps, tail, k_kind, 2) == attr_from(ps, tail, k_kind, 3));
    if ends_with(esc, k_kind.push('=')) {
        assert(spec_attr(line, k_kind) == Some(ps[4]));
        assert(ps[4] != "Raster"@);
    } else {
        assert(attr_from(ps, tail, k_kind, 3) == attr_from(ps, tail, k_kind, 4));
        assert(spec_attr(line, k_kind) == Some(kind_label(kind)));
        assert(kind == LayerKind::Vector ==> "Vector"@[0] != "Raster"@[0]);
    }
    // lock
    let k_lock = "data-locked"@;
    lemma_attr_of_pieces(ps, tail, k_lock, 0);
    assert(attr_from(ps, tail, k_lock, 0) == attr_from(ps, tail, k_lock, 1));
    assert(attr_from(ps, tail, k_lock, 1) == attr_from(ps, tail, k_lock, 2));
    assert(attr_from(ps, tail, k_lock, 2) == attr_from(ps, tail, k_lock, 3));
    if ends_with(esc, k_lock.push('=')) {
        assert(spec_attr(line, k_lock) == Some(ps[4]));
        assert(spec_parse_bool(ps[4]) is None);
    } else {
        assert(attr_from(ps, tail, k_lock, 3) == attr_from(ps, tail, k_lock, 4));
        assert(attr_from(ps, tail, k_lock, 4) == attr_from(ps, tail, k_lock, 5));
        assert(attr_from(ps, tail, k_lock, 5) == attr_from(ps, tail, k_lock, 6));
        assert(attr_from(ps, tail, k_lock, 6) == attr_from(ps, tail, k_lock, 7));
        assert(attr_from(ps, tail, k_lock, 7) == attr_from(ps, tail, k_lock, 8));
        assert(spec_attr(line, k_lock) == Some(bool_text(locked)));
    }
    // visibility
    let k_vis = "data-visible"@;
    lemma_attr_of_pieces(ps, tail, k_vis, 0);
    assert(attr_from(ps, tail, k_vis, 0) == attr_from(ps, tail, k_vis, 1));
    assert(attr_from(ps, tail, k_vis, 1) == attr_from(ps, tail, k_vis, 2));
    assert(attr_from(ps, tail, k_vis, 2) == attr_from(ps, tail, k_vis, 3));
    if ends_with(esc, k_vis.push('=')) {
        assert(spec_attr(line, k_vis) == Some(ps[4]));
        assert(spec_parse_bool(ps[4]) is None);
        let d = display_none();
        lemma_find_from(line, d, 0);
        if visible {
            lemma_display_in_pieces(ps, tail, 0);
            assert(!occurs_in(tail, d)) by {
                if occurs_in(tail, d) {
                    let j = choose|j: int| occurs_at(tail, d, j);
                }
            }
            assert(spec_find(line, d) is None) by {
                if let Some(i) = spec_find(line, d) {
                    assert(occurs_in(line, d));
                }
            }
        } else {
            lemma_quoted_prefix(ps, tail);
            let pre = quoted_prefix(ps);
            let at = pre.len() as int + 1;
            assert(tail =~= " display="@ + seq!['"'] + ("none"@ + seq!['"'] + ">"@)) by {
                let tps = seq![" display="@, "none"@];
                assert(tps.skip(1) =~= seq!["none"@]);
                assert(tps.skip(1).skip(1) =~= Seq::<Seq<char>>::empty());
                assert(quoted_pieces(tps.skip(1).skip(1), ">"@) == ">"@);
                assert(tps.skip(1)[0] == "none"@);
                assert(quoted_pieces(tps.skip(1), ">"@) == "none"@ + seq!['"'] + ">"@);
                assert(tps[0] == " display="@);
                assert(tail == tps[0] + seq!['"'] + quoted_pieces(tps.skip(1), ">"@));
            }
            assert(line.subrange(at, at + 14) =~= d);
            assert(occurs_at(line, d, at));
        }
    } else {
        assert(attr_from(ps, tail, k_vis, 3) == attr_from(ps, tail, k_vis, 4));
        assert(attr_from(ps, tail, k_vis, 4) == attr_from(ps, tail, k_vis, 5));
        assert(attr_from(ps, tail, k_vis, 5) == attr_from(ps, tail, k_vis, 6));
        assert(spec_attr(line, k_vis) == Some(bool_text(visible)));
    }
}

} // verus!
