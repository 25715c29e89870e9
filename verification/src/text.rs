//! Text helpers for the SVG format: attribute lookup, XML escaping, colors.

use vstd::prelude::*;

verus! {

/// The characters of `s`, in order.
pub fn chars_of(s: &str) -> (v: Vec<char>)
    ensures
        v@ == s@,
{
    let mut v: Vec<char> = Vec::new();
    for c in it: s.chars()
        invariant
            v@ == it.seq().take(it.index() as int),
    {
        v.push(c);
    }
    v
}

} // verus!

verus! {

/// The string whose characters are `chars`.
///
/// Trusted: collects the characters into a `String` with std's
/// `FromIterator<&char> for String`, which appends each character in order.
#[verifier::external_body]
pub(crate) fn string_from_chars(chars: &[char]) -> (s: String)
    ensures
        s@ == chars@,
{
    chars.iter().collect()
}

/// Whether `needle` occurs in `hay` at position `i`.
pub open spec fn occurs_at(hay: Seq<char>, needle: Seq<char>, i: int) -> bool {
    0 <= i && i + needle.len() <= hay.len() && hay.subrange(i, i + needle.len()) == needle
}

/// The first position at or after `k` where `needle` occurs in `hay`.
pub open spec fn find_from(hay: Seq<char>, needle: Seq<char>, k: int) -> Option<int>
    decreases hay.len() + 1 - k,
{
    if k < 0 || k + needle.len() > hay.len() {
        None
    } else if occurs_at(hay, needle, k) {
        Some(k)
    } else {
        find_from(hay, needle, k + 1)
    }
}

/// The first position where `needle` occurs in `hay` (as `str::find` gives it,
/// counted in characters).
pub open spec fn spec_find(hay: Seq<char>, needle: Seq<char>) -> Option<int> {
    find_from(hay, needle, 0)
}

/// What `find_from` gives: the least position at or after `k` where `needle` occurs.
pub proof fn lemma_find_from(hay: Seq<char>, needle: Seq<char>, k: int)
    requires
        0 <= k,
    ensures
        find_from(hay, needle, k) matches Some(i) ==> k <= i && occurs_at(hay, needle, i)
            && forall|j: int| k <= j < i ==> !occurs_at(hay, needle, j),
        find_from(hay, needle, k) is None ==> forall|j: int| k <= j ==> !occurs_at(hay, needle, j),
    decreases hay.len() + 1 - k,
{
    if k + needle.len() > hay.len() {
    } else if occurs_at(hay, needle, k) {
    } else {
        lemma_find_from(hay, needle, k + 1);
    }
}

/// The first position where `needle` occurs in `hay`.
pub fn find_chars(hay: &Vec<char>, needle: &Vec<char>) -> (r: Option<usize>)
    ensures
        r matches Some(i) ==> spec_find(hay@, needle@) == Some(i as int),
        r is None ==> spec_find(hay@, needle@) is None,
{
    proof {
        lemma_find_from(hay@, needle@, 0);
    }
    if needle.len() > hay.len() {
        return None;
    }
    let last: usize = hay.len() - needle.len();
    let mut i: usize = 0;
    loop
        invariant
            last == hay@.len() - needle@.len(),
            needle@.len() <= hay@.len(),
            hay@.len() <= usize::MAX,
            0 <= i <= last,
            forall|j: int| 0 <= j < i ==> !occurs_at(hay@, needle@, j),
            find_from(hay@, needle@, 0) matches Some(f) ==> f >= i && occurs_at(hay@, needle@, f)
                && forall|j: int| 0 <= j < f ==> !occurs_at(hay@, needle@, j),
            find_from(hay@, needle@, 0) is None ==> forall|j: int| 0 <= j ==> !occurs_at(hay@, needle@, j),
        decreases last - i,
    {
        let mut k: usize = 0;
        let mut same = true;
        while k < needle.len()
            invariant
                i <= last,
                last == hay@.len() - needle@.len(),
                needle@.len() <= hay@.len(),
                hay@.len() <= usize::MAX,
                0 <= k <= needle@.len(),
                same == forall|m: int| 0 <= m < k ==> hay@[i + m] == needle@[m],
            decreases needle@.len() - k,
        {
            if hay[i + k] != needle[k] {
                same = false;
            }
            k = k + 1;
        }
        if same {
            assert(hay@.subrange(i as int, i + needle@.len()) =~= needle@);
            assert(occurs_at(hay@, needle@, i as int));
            return Some(i);
        }
        proof {
            if occurs_at(hay@, needle@, i as int) {
                let m = choose|m: int| 0 <= m < needle@.len() && hay@[i + m] != needle@[m];
                assert(hay@.subrange(i as int, i + needle@.len())[m] == hay@[i + m]);
            }
        }
        if i == last {
            return None;
        }
        i = i + 1;
    }
}

} // verus!

verus! {

/// `v[from..to]` as a new vector.
pub fn copy_range(v: &Vec<char>, from: usize, to: usize) -> (r: Vec<char>)
    requires
        from <= to <= v@.len(),
    ensures
        r@ == v@.subrange(from as int, to as int),
{
    let mut r: Vec<char> = Vec::new();
    let mut i: usize = from;
    while i < to
        invariant
            from <= i <= to <= v@.len(),
            r@ == v@.subrange(from as int, i as int),
        decreases to - i,
    {
        r.push(v[i]);
        i = i + 1;
        assert(r@ =~= v@.subrange(from as int, i as int));
    }
    r
}

/// The value of attribute `name` in an SVG line: the text between `name="` and
/// the next `"`.
pub open spec fn spec_attr(line: Seq<char>, name: Seq<char>) -> Option<Seq<char>> {
    let needle = name + seq!['=', '"'];
    match spec_find(line, needle) {
        None => None,
        Some(i) => {
            let rest = line.skip(i + needle.len());
            match spec_find(rest, seq!['"']) {
                None => None,
                Some(e) => Some(rest.take(e)),
            }
        },
    }
}

/// `spec_attr` on character vectors.
pub fn attr_chars(line: &Vec<char>, name: &Vec<char>) -> (r: Option<Vec<char>>)
    ensures
        r matches Some(v) ==> spec_attr(line@, name@) == Some(v@),
        r is None ==> spec_attr(line@, name@) is None,
{
    let mut needle: Vec<char> = Vec::new();
    let mut k: usize = 0;
    while k < name.len()
        invariant
            0 <= k <= name@.len(),
            needle@ == name@.take(k as int),
        decreases name@.len() - k,
    {
        needle.push(name[k]);
        k = k + 1;
        assert(needle@ =~= name@.take(k as int));
    }
    needle.push('=');
    needle.push('"');
    assert(needle@ =~= name@ + seq!['=', '"']);
    let start = match find_chars(line, &needle) {
        Some(i) => i,
        None => {
            return None;
        },
    };
    proof {
        lemma_find_from(line@, needle@, 0);
    }
    let line_len = line.len();
    assert(start + needle@.len() <= line_len);
    let from = start + needle.len();
    let rest = copy_range(line, from, line.len());
    assert(rest@ =~= line@.skip(from as int));
    let quote: Vec<char> = vec!['"'];
    assert(quote@ =~= seq!['"']);
    match find_chars(&rest, &quote) {
        Some(e) => {
            proof {
                lemma_find_from(rest@, quote@, 0);
            }
            let v = copy_range(&rest, 0, e);
            assert(v@ =~= rest@.take(e as int));
            Some(v)
        },
        None => None,
    }
}

/// The value of attribute `name` in `line`: the text between the first `name="`
/// and the following `"`.
pub fn attr(line: &str, name: &str) -> (r: Option<String>)
    ensures
        r matches Some(v) ==> spec_attr(line@, name@) == Some(v@),
        r is None ==> spec_attr(line@, name@) is None,
{
    let line_chars = chars_of(line);
    let name_chars = chars_of(name);
    match attr_chars(&line_chars, &name_chars) {
        Some(v) => Some(string_from_chars(v.as_slice())),
        None => None,
    }
}

/// The value of attribute `name` on the root `<svg ...>` tag of a document.
pub open spec fn spec_svg_attr(text: Seq<char>, name: Seq<char>) -> Option<Seq<char>> {
    match spec_find(text, seq!['<', 's', 'v', 'g']) {
        None => None,
        Some(s) => match spec_find(text.skip(s), seq!['>']) {
            None => None,
            Some(e) => spec_attr(text.subrange(s, s + e + 1), name),
        },
    }
}

/// The value of attribute `name` on the first `<svg ...>` tag of `text`.
pub fn svg_attr(text: &str, name: &str) -> (r: Option<String>)
    ensures
        r matches Some(v) ==> spec_svg_attr(text@, name@) == Some(v@),
        r is None ==> spec_svg_attr(text@, name@) is None,
{
    let t = chars_of(text);
    let open_tag: Vec<char> = vec!['<', 's', 'v', 'g'];
    assert(open_tag@ =~= seq!['<', 's', 'v', 'g']);
    let s = match find_chars(&t, &open_tag) {
        Some(s) => s,
        None => {
            return None;
        },
    };
    proof {
        lemma_find_from(t@, open_tag@, 0);
    }
    let tail = copy_range(&t, s, t.len());
    assert(tail@ =~= t@.skip(s as int));
    let close: Vec<char> = vec!['>'];
    assert(close@ =~= seq!['>']);
    let e = match find_chars(&tail, &close) {
        Some(e) => e,
        None => {
            return None;
        },
    };
    proof {
        lemma_find_from(tail@, close@, 0);
    }
    let tag = copy_range(&t, s, s + e + 1);
    let name_chars = chars_of(name);
    match attr_chars(&tag, &name_chars) {
        Some(v) => Some(string_from_chars(v.as_slice())),
        None => None,
    }
}

} // verus!

verus! {

/// `&amp;`
pub open spec fn amp_entity() -> Seq<char> {
    seq!['&', 'a', 'm', 'p', ';']
}

/// `&quot;`
pub open spec fn quot_entity() -> Seq<char> {
    seq!['&', 'q', 'u', 'o', 't', ';']
}

/// `&lt;`
pub open spec fn lt_entity() -> Seq<char> {
    seq!['&', 'l', 't', ';']
}

/// `&gt;`
pub open spec fn gt_entity() -> Seq<char> {
    seq!['&', 'g', 't', ';']
}

/// How character `c` of a plain text reads after escaping and then the first
/// `k` unescape passes (`&quot;`, `&lt;`, `&gt;`, `&amp;` in that order).
/// Stage 0 is the escaped form, stage 4 the plain character.
pub open spec fn stage_token(k: int, c: char) -> Seq<char> {
    if c == '&' && k < 4 {
        amp_entity()
    } else if c == '"' && k < 1 {
        quot_entity()
    } else if c == '<' && k < 2 {
        lt_entity()
    } else if c == '>' && k < 3 {
        gt_entity()
    } else {
        seq![c]
    }
}

/// The text `s` at unescape stage `k`: each character replaced by its stage token.
pub open spec fn staged(k: int, s: Seq<char>) -> Seq<char>
    decreases s.len(),
{
    if s.len() == 0 {
        Seq::empty()
    } else {
        stage_token(k, s[0]) + staged(k, s.skip(1))
    }
}

/// `s` with `&`, `"`, `<`, `>` written as XML entities.
pub open spec fn spec_escape_xml(s: Seq<char>) -> Seq<char> {
    staged(0, s)
}

/// `s` with every non-overlapping occurrence of `pat`, scanning left to right,
/// replaced by `rep` (as `str::replace` does).
pub open spec fn replace_all(s: Seq<char>, pat: Seq<char>, rep: Seq<char>) -> Seq<char>
    decreases s.len(),
{
    if s.len() == 0 || pat.len() == 0 {
        s
    } else if s.len() >= pat.len() && s.take(pat.len() as int) == pat {
        rep + replace_all(s.skip(pat.len() as int), pat, rep)
    } else {
        seq![s[0]] + replace_all(s.skip(1), pat, rep)
    }
}

/// The entity that unescape pass `k` replaces.
pub open spec fn stage_pattern(k: int) -> Seq<char> {
    if k == 0 {
        quot_entity()
    } else if k == 1 {
        lt_entity()
    } else if k == 2 {
        gt_entity()
    } else {
        amp_entity()
    }
}

/// The character that unescape pass `k` writes.
pub open spec fn stage_char(k: int) -> char {
    if k == 0 {
        '"'
    } else if k == 1 {
        '<'
    } else if k == 2 {
        '>'
    } else {
        '&'
    }
}

/// `s` with `&quot;`, `&lt;`, `&gt;` and then `&amp;` replaced by the characters they name.
pub open spec fn spec_unescape_xml(s: Seq<char>) -> Seq<char> {
    replace_all(
        replace_all(
            replace_all(replace_all(s, quot_entity(), seq!['"']), lt_entity(), seq!['<']),
            gt_entity(),
            seq!['>'],
        ),
        amp_entity(),
        seq!['&'],
    )
}

/// A prefix without `&` passes through a replacement of an `&`-entity unchanged.
proof fn lemma_replace_skips_plain(u: Seq<char>, x: Seq<char>, pat: Seq<char>, rep: Seq<char>)
    requires
        pat.len() > 0,
        pat[0] == '&',
        forall|i: int| 0 <= i < u.len() ==> u[i] != '&',
    ensures
        replace_all(u + x, pat, rep) == u + replace_all(x, pat, rep),
    decreases u.len(),
{
    if u.len() == 0 {
        assert(u + x =~= x);
        assert(u + replace_all(x, pat, rep) =~= replace_all(x, pat, rep));
    } else {
        let ux = u + x;
        assert(ux[0] == u[0]);
        if ux.len() >= pat.len() {
            assert(ux.take(pat.len() as int)[0] != pat[0]);
        }
        assert(ux.skip(1) =~= u.skip(1) + x);
        lemma_replace_skips_plain(u.skip(1), x, pat, rep);
        assert(seq![u[0]] + (u.skip(1) + replace_all(x, pat, rep)) =~= u + replace_all(x, pat, rep));
    }
}

/// One unescape pass turns the stage-`k` token of `c` into its stage-`k + 1` token.
proof fn lemma_token_step(k: int, c: char, x: Seq<char>)
    requires
        0 <= k < 4,
    ensures
        replace_all(stage_token(k, c) + x, stage_pattern(k), seq![stage_char(k)])
            == stage_token(k + 1, c) + replace_all(x, stage_pattern(k), seq![stage_char(k)]),
{
    let t = stage_token(k, c);
    let pat = stage_pattern(k);
    let rep = seq![stage_char(k)];
    let tx = t + x;
    assert(pat[0] == '&');
    if c == stage_char(k) {
        assert(t =~= pat);
        assert(tx.take(pat.len() as int) =~= pat);
        assert(tx.skip(pat.len() as int) =~= x);
        assert(stage_token(k + 1, c) =~= rep);
    } else if t.len() == 1 {
        assert(t =~= seq![c]);
        assert(c != '&');
        lemma_replace_skips_plain(t, x, pat, rep);
        assert(stage_token(k + 1, c) =~= t);
    } else {
        assert(t[0] == '&');
        assert(t.len() >= 4);
        assert(t[1] != pat[1]);
        if tx.len() >= pat.len() {
            assert(tx.take(pat.len() as int)[1] != pat[1]);
        }
        let u = t.skip(1);
        assert(forall|i: int| 0 <= i < u.len() ==> u[i] != '&');
        assert(tx.skip(1) =~= u + x);
        lemma_replace_skips_plain(u, x, pat, rep);
        assert(seq![tx[0]] + (u + replace_all(x, pat, rep)) =~= t + replace_all(x, pat, rep));
        assert(stage_token(k + 1, c) =~= t);
    }
}

/// Unescape pass `k` takes the whole stage-`k` text to stage `k + 1`.
proof fn lemma_stage_step(k: int, s: Seq<char>)
    requires
        0 <= k < 4,
    ensures
        replace_all(staged(k, s), stage_pattern(k), seq![stage_char(k)]) == staged(k + 1, s),
    decreases s.len(),
{
    if s.len() == 0 {
    } else {
        lemma_stage_step(k, s.skip(1));
        lemma_token_step(k, s[0], staged(k, s.skip(1)));
    }
}

/// At the last stage every character stands for itself.
proof fn lemma_staged_plain(s: Seq<char>)
    ensures
        staged(4, s) == s,
    decreases s.len(),
{
    if s.len() > 0 {
        lemma_staged_plain(s.skip(1));
        assert(seq![s[0]] + s.skip(1) =~= s);
    }
}

/// Unescaping an escaped text gives the text back.
pub proof fn lemma_unescape_escape(s: Seq<char>)
    ensures
        spec_unescape_xml(spec_escape_xml(s)) == s,
{
    lemma_stage_step(0, s);
    lemma_stage_step(1, s);
    lemma_stage_step(2, s);
    lemma_stage_step(3, s);
    lemma_staged_plain(s);
    assert(stage_pattern(0) == quot_entity());
    assert(stage_pattern(1) == lt_entity());
    assert(stage_pattern(2) == gt_entity());
    assert(stage_pattern(3) == amp_entity());
}

} // verus!

verus! {

/// Staging a text one character longer appends that character's token.
proof fn lemma_staged_push(k: int, s: Seq<char>, c: char)
    ensures
        staged(k, s.push(c)) == staged(k, s) + stage_token(k, c),
    decreases s.len(),
{
    if s.len() == 0 {
        assert(s.push(c).skip(1) =~= Seq::<char>::empty());
        assert(staged(k, s.push(c).skip(1)) == Seq::<char>::empty());
        assert(staged(k, s) == Seq::<char>::empty());
        assert(staged(k, s.push(c)) =~= staged(k, s) + stage_token(k, c));
    } else {
        assert(s.push(c).skip(1) =~= s.skip(1).push(c));
        lemma_staged_push(k, s.skip(1), c);
        assert(staged(k, s.push(c)) =~= staged(k, s) + stage_token(k, c));
    }
}

/// Appends the characters of `extra` to `out`.
fn push_all(out: &mut Vec<char>, extra: &Vec<char>)
    ensures
        final(out)@ == old(out)@ + extra@,
{
    let mut i: usize = 0;
    while i < extra.len()
        invariant
            0 <= i <= extra@.len(),
            out@ == old(out)@ + extra@.take(i as int),
        decreases extra@.len() - i,
    {
        out.push(extra[i]);
        i = i + 1;
        assert(out@ =~= old(out)@ + extra@.take(i as int));
    }
    assert(extra@.take(extra@.len() as int) =~= extra@);
}

/// `s` with `&`, `"`, `<` and `>` written as `&amp;`, `&quot;`, `&lt;` and `&gt;`.
pub fn escape_xml(s: &str) -> (r: String)
    ensures
        r@ == spec_escape_xml(s@),
{
    let chars = chars_of(s);
    let amp: Vec<char> = vec!['&', 'a', 'm', 'p', ';'];
    let quot: Vec<char> = vec!['&', 'q', 'u', 'o', 't', ';'];
    let lt: Vec<char> = vec!['&', 'l', 't', ';'];
    let gt: Vec<char> = vec!['&', 'g', 't', ';'];
    assert(amp@ =~= amp_entity());
    assert(quot@ =~= quot_entity());
    assert(lt@ =~= lt_entity());
    assert(gt@ =~= gt_entity());
    let mut out: Vec<char> = Vec::new();
    let mut i: usize = 0;
    while i < chars.len()
        invariant
            0 <= i <= chars@.len(),
            amp@ == amp_entity(),
            quot@ == quot_entity(),
            lt@ == lt_entity(),
            gt@ == gt_entity(),
            out@ == staged(0, chars@.take(i as int)),
        decreases chars@.len() - i,
    {
        let c = chars[i];
        proof {
            lemma_staged_push(0, chars@.take(i as int), c);
            assert(chars@.take(i + 1) =~= chars@.take(i as int).push(c));
        }
        if c == '&' {
            push_all(&mut out, &amp);
        } else if c == '"' {
            push_all(&mut out, &quot);
        } else if c == '<' {
            push_all(&mut out, &lt);
        } else if c == '>' {
            push_all(&mut out, &gt);
        } else {
            out.push(c);
            assert(out@ =~= staged(0, chars@.take(i as int)) + seq![c]);
        }
        i = i + 1;
    }
    assert(chars@.take(chars@.len() as int) =~= chars@);
    string_from_chars(out.as_slice())
}

/// `replace_all` on character vectors.
pub fn replace_all_chars(s: &Vec<char>, pat: &Vec<char>, rep: &Vec<char>) -> (r: Vec<char>)
    requires
        pat@.len() > 0,
    ensures
        r@ == replace_all(s@, pat@, rep@),
{
    let n = s.len();
    let m = pat.len();
    let mut out: Vec<char> = Vec::new();
    let mut i: usize = 0;
    assert(s@.skip(0) =~= s@);
    assert(out@ + replace_all(s@, pat@, rep@) =~= replace_all(s@, pat@, rep@));
    while i < n
        invariant
            n == s@.len(),
            m == pat@.len(),
            m > 0,
            0 <= i <= n,
            replace_all(s@, pat@, rep@) == out@ + replace_all(s@.skip(i as int), pat@, rep@),
        decreases n - i,
    {
        let rest = Ghost(s@.skip(i as int));
        let mut matched = false;
        if m <= n - i {
            let mut k: usize = 0;
            matched = true;
            while k < m
                invariant
                    n == s@.len(),
                    m == pat@.len(),
                    m <= n - i,
                    0 <= k <= m,
                    matched == forall|j: int| 0 <= j < k ==> s@[i + j] == pat@[j],
                decreases m - k,
            {
                if s[i + k] != pat[k] {
                    matched = false;
                }
                k = k + 1;
            }
            proof {
                if matched {
                    assert(rest@.take(m as int) =~= pat@);
                } else {
                    let j = choose|j: int| 0 <= j < m && s@[i + j] != pat@[j];
                    assert(rest@.take(m as int)[j] != pat@[j]);
                }
            }
        }
        if matched {
            proof {
                assert(rest@.skip(m as int) =~= s@.skip(i + m));
            }
            push_all(&mut out, rep);
            i = i + m;
        } else {
            proof {
                assert(rest@.skip(1) =~= s@.skip(i + 1));
                assert(rest@[0] == s@[i as int]);
            }
            out.push(s[i]);
            i = i + 1;
        }
        proof {
            assert(replace_all(s@, pat@, rep@) =~= out@ + replace_all(s@.skip(i as int), pat@, rep@));
        }
    }
    proof {
        assert(s@.skip(i as int).len() == 0);
        assert(out@ + s@.skip(i as int) =~= out@);
    }
    out
}

/// `s` with `&quot;`, `&lt;`, `&gt;` and then `&amp;` replaced by `"`, `<`, `>` and `&`.
pub fn unescape_xml(s: &str) -> (r: String)
    ensures
        r@ == spec_unescape_xml(s@),
{
    let chars = chars_of(s);
    let amp: Vec<char> = vec!['&', 'a', 'm', 'p', ';'];
    let quot: Vec<char> = vec!['&', 'q', 'u', 'o', 't', ';'];
    let lt: Vec<char> = vec!['&', 'l', 't', ';'];
    let gt: Vec<char> = vec!['&', 'g', 't', ';'];
    assert(amp@ =~= amp_entity());
    assert(quot@ =~= quot_entity());
    assert(lt@ =~= lt_entity());
    assert(gt@ =~= gt_entity());
    let quot_char: Vec<char> = vec!['"'];
    let lt_char: Vec<char> = vec!['<'];
    let gt_char: Vec<char> = vec!['>'];
    let amp_char: Vec<char> = vec!['&'];
    assert(quot_char@ =~= seq!['"']);
    assert(lt_char@ =~= seq!['<']);
    assert(gt_char@ =~= seq!['>']);
    assert(amp_char@ =~= seq!['&']);
    let a = replace_all_chars(&chars, &quot, &quot_char);
    let b = replace_all_chars(&a, &lt, &lt_char);
    let c = replace_all_chars(&b, &gt, &gt_char);
    let d = replace_all_chars(&c, &amp, &amp_char);
    string_from_chars(d.as_slice())
}

} // verus!

verus! {

/// The first occurrence is found: when `needle` occurs at `i` and nowhere
/// before, the search gives `i`.
proof fn lemma_find_first(hay: Seq<char>, needle: Seq<char>, i: int)
    requires
        occurs_at(hay, needle, i),
        forall|j: int| 0 <= j < i ==> !occurs_at(hay, needle, j),
    ensures
        spec_find(hay, needle) == Some(i),
{
    lemma_find_from(hay, needle, 0);
}

/// An escaped text holds no `"`.
pub proof fn lemma_escape_has_no_quote(s: Seq<char>)
    ensures
        forall|i: int| 0 <= i < spec_escape_xml(s).len() ==> spec_escape_xml(s)[i] != '"',
    decreases s.len(),
{
    if s.len() > 0 {
        lemma_escape_has_no_quote(s.skip(1));
        let t = stage_token(0, s[0]);
        let r = staged(0, s.skip(1));
        assert(forall|i: int| 0 <= i < t.len() ==> t[i] != '"');
        assert(r == spec_escape_xml(s.skip(1)));
        assert forall|i: int| 0 <= i < (t + r).len() implies (t + r)[i] != '"' by {
            if i >= t.len() {
                assert((t + r)[i] == r[i - t.len()]);
            } else {
                assert((t + r)[i] == t[i]);
            }
        }
        assert(spec_escape_xml(s) == t + r);
    }
}

/// An escaped text holds no `<` and no `>`, so it cannot open or close a tag.
pub proof fn lemma_escape_has_no_angle_brackets(s: Seq<char>)
    ensures
        forall|i: int| 0 <= i < spec_escape_xml(s).len() ==> spec_escape_xml(s)[i] != '<' && spec_escape_xml(s)[i] != '>',
    decreases s.len(),
{
    if s.len() > 0 {
        lemma_escape_has_no_angle_brackets(s.skip(1));
        let t = stage_token(0, s[0]);
        let r = staged(0, s.skip(1));
        assert(forall|i: int| 0 <= i < t.len() ==> t[i] != '<' && t[i] != '>');
        assert(r == spec_escape_xml(s.skip(1)));
        assert forall|i: int| 0 <= i < (t + r).len() implies (t + r)[i] != '<' && (t + r)[i] != '>' by {
            if i >= t.len() {
                assert((t + r)[i] == r[i - t.len()]);
            } else {
                assert((t + r)[i] == t[i]);
            }
        }
        assert(spec_escape_xml(s) == t + r);
    }
}

/// An attribute written as `name="value"` at the start of a line is read back,
/// provided the value holds no `"`.
pub proof fn lemma_attr_reads_written_value(name: Seq<char>, value: Seq<char>, rest: Seq<char>)
    requires
        forall|i: int| 0 <= i < value.len() ==> value[i] != '"',
    ensures
        spec_attr(name + seq!['=', '"'] + value + seq!['"'] + rest, name) == Some(value),
{
    let needle = name + seq!['=', '"'];
    let line = needle + value + seq!['"'] + rest;
    assert(line.subrange(0, needle.len() as int) =~= needle);
    lemma_find_first(line, needle, 0);
    let tail = line.skip(needle.len() as int);
    assert(tail =~= value + seq!['"'] + rest);
    let q = seq!['"'];
    assert(tail.subrange(value.len() as int, value.len() + 1 as int) =~= q);
    assert forall|j: int| 0 <= j < value.len() implies !occurs_at(tail, q, j) by {
        assert(tail.subrange(j, j + 1)[0] == value[j]);
    }
    lemma_find_first(tail, q, value.len() as int);
    assert(tail.take(value.len() as int) =~= value);
}

/// A name written escaped as `key="..."` and read back with `attr` and
/// `unescape_xml` is the name that was written.
pub proof fn lemma_escaped_attr_roundtrip(key: Seq<char>, name: Seq<char>, rest: Seq<char>)
    ensures
        spec_attr(key + seq!['=', '"'] + spec_escape_xml(name) + seq!['"'] + rest, key)
            matches Some(v) && spec_unescape_xml(v) == name,
{
    lemma_escape_has_no_quote(name);
    lemma_attr_reads_written_value(key, spec_escape_xml(name), rest);
    lemma_unescape_escape(name);
}

} // verus!

verus! {

/// The decimal digit character for `d` in `0..10`.
pub open spec fn digit_char(d: int) -> char {
    if d == 0 { '0' } else if d == 1 { '1' } else if d == 2 { '2' } else if d == 3 { '3' }
    else if d == 4 { '4' } else if d == 5 { '5' } else if d == 6 { '6' } else if d == 7 { '7' }
    else if d == 8 { '8' } else { '9' }
}

/// The value of a decimal digit character, if it is one.
pub open spec fn digit_value(c: char) -> Option<int> {
    if '0' <= c <= '9' {
        Some(c as int - '0' as int)
    } else {
        None
    }
}

/// `n` written in decimal, without leading zeros.
pub open spec fn spec_decimal(n: nat) -> Seq<char>
    decreases n,
{
    if n < 10 {
        seq![digit_char(n as int)]
    } else {
        spec_decimal(n / 10) + seq![digit_char((n % 10) as int)]
    }
}

fn digit_char_exec(d: u64) -> (c: char)
    requires
        d < 10,
    ensures
        c == digit_char(d as int),
        digit_value(c) == Some(d as int),
{
    if d == 0 { '0' } else if d == 1 { '1' } else if d == 2 { '2' } else if d == 3 { '3' }
    else if d == 4 { '4' } else if d == 5 { '5' } else if d == 6 { '6' } else if d == 7 { '7' }
    else if d == 8 { '8' } else { '9' }
}

/// Appends `n` in decimal to `out`.
pub fn push_decimal(out: &mut Vec<char>, n: u64)
    ensures
        final(out)@ == old(out)@ + spec_decimal(n as nat),
    decreases n,
{
    if n >= 10 {
        push_decimal(out, n / 10);
    }
    let c = digit_char_exec(n % 10);
    out.push(c);
    proof {
        if n < 10 {
            assert(n % 10 == n);
        }
        assert(final(out)@ =~= old(out)@ + spec_decimal(n as nat)) by {
            if n >= 10 {
                assert(spec_decimal(n as nat) == spec_decimal((n / 10) as nat) + seq![digit_char((n % 10) as int)]);
            }
        }
    }
}

/// `text` followed by `n` in decimal, such as a default layer name.
pub fn numbered_name(text: &str, n: u64) -> (r: String)
    ensures
        r@ == text@ + spec_decimal(n as nat),
{
    let mut v = chars_of(text);
    push_decimal(&mut v, n);
    string_from_chars(v.as_slice())
}

/// `text` followed by `suffix`.
pub fn with_suffix(text: &str, suffix: &str) -> (r: String)
    ensures
        r@ == text@ + suffix@,
{
    let mut v = chars_of(text);
    let tail = chars_of(suffix);
    let ghost start = v@;
    let mut i: usize = 0;
    while i < tail.len()
        invariant
            0 <= i <= tail@.len(),
            start == text@,
            tail@ == suffix@,
            v@ == start + tail@.take(i as int),
        decreases tail@.len() - i,
    {
        v.push(tail[i]);
        i = i + 1;
        assert(v@ =~= start + tail@.take(i as int));
    }
    assert(tail@.take(tail@.len() as int) =~= tail@);
    string_from_chars(v.as_slice())
}

/// A color written as `r,g,b,a` in decimal.
pub open spec fn spec_format_color(color: Seq<u8>) -> Seq<char> {
    spec_decimal(color[0] as nat) + seq![','] + spec_decimal(color[1] as nat) + seq![',']
        + spec_decimal(color[2] as nat) + seq![','] + spec_decimal(color[3] as nat)
}

/// Writes an RGBA color as `r,g,b,a` in decimal.
pub fn format_color(color: [u8; 4]) -> (r: String)
    ensures
        r@ == spec_format_color(color@),
{
    let mut v: Vec<char> = Vec::new();
    push_decimal(&mut v, color[0] as u64);
    v.push(',');
    push_decimal(&mut v, color[1] as u64);
    v.push(',');
    push_decimal(&mut v, color[2] as u64);
    v.push(',');
    push_decimal(&mut v, color[3] as u64);
    assert(v@ =~= spec_format_color(color@));
    string_from_chars(v.as_slice())
}

/// Unicode `White_Space` characters, the ones `str::trim` removes.
pub open spec fn is_whitespace(c: char) -> bool {
    ('\u{9}' <= c <= '\u{d}') || c == ' ' || c == '\u{85}' || c == '\u{a0}' || c == '\u{1680}'
        || ('\u{2000}' <= c <= '\u{200a}') || c == '\u{2028}' || c == '\u{2029}' || c == '\u{202f}'
        || c == '\u{205f}' || c == '\u{3000}'
}

fn is_whitespace_exec(c: char) -> (b: bool)
    ensures
        b == is_whitespace(c),
{
    ('\u{9}' <= c && c <= '\u{d}') || c == ' ' || c == '\u{85}' || c == '\u{a0}' || c == '\u{1680}'
        || ('\u{2000}' <= c && c <= '\u{200a}') || c == '\u{2028}' || c == '\u{2029}' || c == '\u{202f}'
        || c == '\u{205f}' || c == '\u{3000}'
}

/// `s` without leading whitespace.
pub open spec fn trim_start(s: Seq<char>) -> Seq<char>
    decreases s.len(),
{
    if s.len() > 0 && is_whitespace(s[0]) {
        trim_start(s.skip(1))
    } else {
        s
    }
}

/// `s` without trailing whitespace.
pub open spec fn trim_end(s: Seq<char>) -> Seq<char>
    decreases s.len(),
{
    if s.len() > 0 && is_whitespace(s.last()) {
        trim_end(s.drop_last())
    } else {
        s
    }
}

/// `s` without leading and trailing whitespace (`str::trim`).
pub open spec fn spec_trim(s: Seq<char>) -> Seq<char> {
    trim_end(trim_start(s))
}

/// The bounds of `spec_trim(v[from..to])` inside `v`.
fn trim_bounds(v: &Vec<char>, from: usize, to: usize) -> (r: (usize, usize))
    requires
        from <= to <= v@.len(),
    ensures
        from <= r.0 <= r.1 <= to,
        v@.subrange(r.0 as int, r.1 as int) == spec_trim(v@.subrange(from as int, to as int)),
{
    let mut a = from;
    while a < to && is_whitespace_exec(v[a])
        invariant
            from <= a <= to <= v@.len(),
            trim_start(v@.subrange(from as int, to as int)) == trim_start(v@.subrange(a as int, to as int)),
        decreases to - a,
    {
        assert(v@.subrange(a as int, to as int).skip(1) =~= v@.subrange(a + 1, to as int));
        a = a + 1;
    }
    assert(trim_start(v@.subrange(a as int, to as int)) == v@.subrange(a as int, to as int));
    let mut b = to;
    while b > a && is_whitespace_exec(v[b - 1])
        invariant
            from <= a <= b <= to <= v@.len(),
            spec_trim(v@.subrange(from as int, to as int)) == trim_end(v@.subrange(a as int, b as int)),
        decreases b - a,
    {
        assert(v@.subrange(a as int, b as int).drop_last() =~= v@.subrange(a as int, b - 1));
        b = b - 1;
    }
    (a, b)
}

/// The value of decimal digits `d`.
pub open spec fn decimal_value(d: Seq<char>) -> int
    decreases d.len(),
{
    if d.len() == 0 {
        0
    } else {
        decimal_value(d.drop_last()) * 10 + (d.last() as int - '0' as int)
    }
}

/// Whether every character of `d` is a decimal digit.
pub open spec fn all_digits(d: Seq<char>) -> bool {
    forall|i: int| 0 <= i < d.len() ==> '0' <= #[trigger] d[i] <= '9'
}

/// `u8::from_str`: an optional `+`, then at least one decimal digit, with a value
/// of at most 255.
pub open spec fn spec_parse_u8(s: Seq<char>) -> Option<u8> {
    let d = if s.len() > 0 && s[0] == '+' { s.skip(1) } else { s };
    if d.len() > 0 && all_digits(d) && decimal_value(d) <= 255 {
        Some(decimal_value(d) as u8)
    } else {
        None
    }
}

proof fn lemma_decimal_value_nonneg(d: Seq<char>)
    requires
        all_digits(d),
    ensures
        decimal_value(d) >= 0,
    decreases d.len(),
{
    if d.len() > 0 {
        lemma_decimal_value_nonneg(d.drop_last());
    }
}

/// `u8::from_str` on `v[from..to]`.
fn parse_u8_range(v: &Vec<char>, from: usize, to: usize) -> (r: Option<u8>)
    requires
        from <= to <= v@.len(),
    ensures
        r == spec_parse_u8(v@.subrange(from as int, to as int)),
{
    let ghost s = v@.subrange(from as int, to as int);
    let mut start = from;
    if from < to && v[from] == '+' {
        start = from + 1;
        assert(s.skip(1) =~= v@.subrange(start as int, to as int));
    }
    let ghost d = v@.subrange(start as int, to as int);
    assert(d == if s.len() > 0 && s[0] == '+' { s.skip(1) } else { s });
    if start == to {
        return None;
    }
    let mut value: u64 = 0;
    let mut i = start;
    while i < to
        invariant
            from <= start <= i <= to <= v@.len(),
            s == v@.subrange(from as int, to as int),
            d == v@.subrange(start as int, to as int),
            d == (if s.len() > 0 && s[0] == '+' { s.skip(1) } else { s }),
            d.len() > 0,
            all_digits(v@.subrange(start as int, i as int)),
            value == decimal_value(v@.subrange(start as int, i as int)),
            value <= 255,
        decreases to - i,
    {
        let c = v[i];
        if c < '0' || c > '9' {
            proof {
                assert(d[i - start] == c);
                assert(!all_digits(d));
            }
            return None;
        }
        let digit: u64 = (c as u64) - ('0' as u64);
        let next = value * 10 + digit;
        proof {
            let p = v@.subrange(start as int, i + 1);
            assert(p.drop_last() =~= v@.subrange(start as int, i as int));
            assert(p.last() == c);
            assert(all_digits(p));
        }
        if next > 255 {
            proof {
                let p = v@.subrange(start as int, i + 1);
                assert(decimal_value(p) > 255);
                if all_digits(d) {
                    assert(d.take(i + 1 - start) =~= p);
                    lemma_prefix_value_bound(d, i + 1 - start);
                }
            }
            return None;
        }
        value = next;
        i = i + 1;
    }
    assert(v@.subrange(start as int, i as int) =~= d);
    Some(value as u8)
}

/// A longer digit string is worth at least as much as any of its prefixes.
proof fn lemma_prefix_value_bound(d: Seq<char>, k: int)
    requires
        all_digits(d),
        0 <= k <= d.len(),
    ensures
        decimal_value(d) >= decimal_value(d.take(k)),
    decreases d.len() - k,
{
    if k < d.len() {
        lemma_prefix_value_bound(d, k + 1);
        let p = d.take(k + 1);
        assert(p.drop_last() =~= d.take(k));
        assert(all_digits(d.take(k)));
        lemma_decimal_value_nonneg(d.take(k));
        assert('0' <= p.last() <= '9');
    } else {
        assert(d.take(k) =~= d);
    }
}


/// `u64::from_str`: an optional `+`, then at least one decimal digit, with a
/// value of at most `u64::MAX`.
pub open spec fn spec_parse_u64(s: Seq<char>) -> Option<u64> {
    let d = if s.len() > 0 && s[0] == '+' { s.skip(1) } else { s };
    if d.len() > 0 && all_digits(d) && decimal_value(d) <= u64::MAX {
        Some(decimal_value(d) as u64)
    } else {
        None
    }
}

/// Parses a `u64` as `str::parse` does.
pub fn parse_u64(s: &str) -> (r: Option<u64>)
    ensures
        r == spec_parse_u64(s@),
{
    let v = chars_of(s);
    let to = v.len();
    let mut start: usize = 0;
    if to > 0 && v[0] == '+' {
        start = 1;
    }
    let ghost d = v@.subrange(start as int, to as int);
    assert(d == (if s@.len() > 0 && s@[0] == '+' { s@.skip(1) } else { s@ })) by {
        if start == 1 {
            assert(s@.skip(1) =~= d);
        } else {
            assert(s@ =~= d);
        }
    }
    if start == to {
        return None;
    }
    let mut value: u64 = 0;
    let mut i = start;
    while i < to
        invariant
            start <= i <= to,
            to == v@.len(),
            v@ == s@,
            d == v@.subrange(start as int, to as int),
            d == (if s@.len() > 0 && s@[0] == '+' { s@.skip(1) } else { s@ }),
            d.len() > 0,
            all_digits(v@.subrange(start as int, i as int)),
            value == decimal_value(v@.subrange(start as int, i as int)),
        decreases to - i,
    {
        let c = v[i];
        if c < '0' || c > '9' {
            proof {
                assert(d[i - start] == c);
            }
            return None;
        }
        let digit: u64 = (c as u64) - ('0' as u64);
        let ghost p = v@.subrange(start as int, i + 1);
        proof {
            assert(p.drop_last() =~= v@.subrange(start as int, i as int));
            assert(p.last() == c);
            assert(all_digits(p));
            assert(decimal_value(p) == value * 10 + digit);
        }
        if value > (u64::MAX - digit) / 10 {
            proof {
                assert(value * 10 + digit > u64::MAX) by (nonlinear_arith)
                    requires
                        value > (u64::MAX - digit) / 10,
                        digit <= 9,
                ;
                if all_digits(d) {
                    assert(d.take(i + 1 - start) =~= p);
                    lemma_prefix_value_bound(d, i + 1 - start);
                }
            }
            return None;
        }
        assert(value * 10 + digit <= u64::MAX) by (nonlinear_arith)
            requires
                value <= (u64::MAX - digit) / 10,
                digit <= 9,
        ;
        value = value * 10 + digit;
        i = i + 1;
    }
    assert(v@.subrange(start as int, i as int) =~= d);
    Some(value)
}

} // verus!

verus! {

/// `s` split at every `sep` (`str::split` with a character): `n` separators give
/// `n + 1` parts, empty ones included.
pub open spec fn spec_split(s: Seq<char>, sep: char) -> Seq<Seq<char>>
    decreases s.len(),
{
    if s.len() == 0 {
        seq![Seq::<char>::empty()]
    } else {
        let p = spec_split(s.drop_last(), sep);
        if s.last() == sep {
            p.push(Seq::<char>::empty())
        } else {
            p.update(p.len() - 1, p.last().push(s.last()))
        }
    }
}

/// A split always has at least one part.
pub proof fn lemma_split_nonempty(s: Seq<char>, sep: char)
    ensures
        spec_split(s, sep).len() >= 1,
    decreases s.len(),
{
    if s.len() > 0 {
        lemma_split_nonempty(s.drop_last(), sep);
    }
}

/// The values of the parts that `u8::from_str` accepts after trimming, in order
/// (`filter_map` over the parts).
pub open spec fn parsed_parts(parts: Seq<Seq<char>>) -> Seq<u8>
    decreases parts.len(),
{
    if parts.len() == 0 {
        Seq::empty()
    } else {
        parsed_parts(parts.drop_last()) + match spec_parse_u8(spec_trim(parts.last())) {
            Some(v) => seq![v],
            None => Seq::empty(),
        }
    }
}

/// A color written as comma-separated bytes: exactly four of the parts must parse.
pub open spec fn spec_parse_color(text: Seq<char>) -> Option<Seq<u8>> {
    let values = parsed_parts(spec_split(text, ','));
    if values.len() == 4 {
        Some(values)
    } else {
        None
    }
}

/// Reads an RGBA color written as `r,g,b,a`: the comma-separated parts that are
/// bytes in decimal (after trimming) are kept, and there must be exactly four.
pub fn parse_color(text: &str) -> (r: Option<[u8; 4]>)
    ensures
        r matches Some(c) ==> spec_parse_color(text@) == Some(c@),
        r is None ==> spec_parse_color(text@) is None,
{
    let t = chars_of(text);
    let n = t.len();
    let mut values: Vec<u8> = Vec::new();
    let mut part_start: usize = 0;
    let mut i: usize = 0;
    let ghost mut done: Seq<Seq<char>> = Seq::empty();
    assert(t@.take(0) =~= Seq::<char>::empty());
    assert(t@.subrange(0, 0) =~= Seq::<char>::empty());
    assert(spec_split(t@.take(0), ',') =~= done.push(t@.subrange(0, 0)));
    while i < n
        invariant
            n == t@.len(),
            0 <= part_start <= i <= n,
            spec_split(t@.take(i as int), ',') == done.push(t@.subrange(part_start as int, i as int)),
            values@ == parsed_parts(done),
        decreases n - i,
    {
        let c = t[i];
        proof {
            assert(t@.take(i + 1).drop_last() =~= t@.take(i as int));
            assert(t@.take(i + 1).last() == c);
        }
        if c == ',' {
            let (a, b) = trim_bounds(&t, part_start, i);
            let parsed = parse_u8_range(&t, a, b);
            let ghost cur = t@.subrange(part_start as int, i as int);
            match parsed {
                Some(v) => values.push(v),
                None => {},
            }
            proof {
                let nd = done.push(cur);
                assert(nd.drop_last() =~= done);
                assert(values@ =~= parsed_parts(nd));
                done = nd;
                assert(t@.subrange(i + 1, i + 1) =~= Seq::<char>::empty());
                assert(spec_split(t@.take(i + 1), ',') =~= done.push(t@.subrange(i + 1, i + 1)));
            }
            part_start = i + 1;
        } else {
            proof {
                assert(t@.subrange(part_start as int, i + 1) =~= t@.subrange(part_start as int, i as int).push(c));
                assert(spec_split(t@.take(i + 1), ',') =~= done.push(t@.subrange(part_start as int, i + 1)));
            }
        }
        i = i + 1;
    }
    let (a, b) = trim_bounds(&t, part_start, n);
    let parsed = parse_u8_range(&t, a, b);
    let ghost cur = t@.subrange(part_start as int, n as int);
    match parsed {
        Some(v) => values.push(v),
        None => {},
    }
    proof {
        let all = done.push(cur);
        assert(all.drop_last() =~= done);
        assert(values@ =~= parsed_parts(all));
        assert(t@.take(n as int) =~= t@);
    }
    if values.len() == 4 {
        let c: [u8; 4] = [values[0], values[1], values[2], values[3]];
        assert(c@ =~= values@);
        Some(c)
    } else {
        None
    }
}

/// Splitting a text that ends in a separator-free run extends the last part.
proof fn lemma_split_append_plain(x: Seq<char>, y: Seq<char>, sep: char)
    requires
        forall|i: int| 0 <= i < y.len() ==> y[i] != sep,
    ensures
        spec_split(x + y, sep) == spec_split(x, sep).update(
            spec_split(x, sep).len() - 1,
            spec_split(x, sep).last() + y,
        ),
    decreases y.len(),
{
    lemma_split_nonempty(x, sep);
    let p = spec_split(x, sep);
    if y.len() == 0 {
        assert(x + y =~= x);
        assert(p.last() + y =~= p.last());
        assert(p.update(p.len() - 1, p.last()) =~= p);
    } else {
        let y0 = y.drop_last();
        lemma_split_append_plain(x, y0, sep);
        assert((x + y).drop_last() =~= x + y0);
        assert((x + y).last() == y.last());
        assert((p.last() + y0).push(y.last()) =~= p.last() + y);
        assert(spec_split(x + y, sep) =~= p.update(p.len() - 1, p.last() + y));
    }
}

/// Decimal digits of a number are digits, start with a digit and read back as the number.
proof fn lemma_decimal_reads_back(n: nat)
    ensures
        spec_decimal(n).len() > 0,
        all_digits(spec_decimal(n)),
        decimal_value(spec_decimal(n)) == n,
    decreases n,
{
    let d = spec_decimal(n);
    if n >= 10 {
        lemma_decimal_reads_back(n / 10);
        assert(d.drop_last() =~= spec_decimal(n / 10));
        assert(d.last() == digit_char((n % 10) as int));
        lemma_digit_char_value((n % 10) as int);
        assert((n / 10) * 10 + n % 10 == n) by (nonlinear_arith);
        assert(decimal_value(d) == decimal_value(d.drop_last()) * 10 + (d.last() as int - '0' as int));
    } else {
        assert(d.drop_last() =~= Seq::<char>::empty());
        assert(decimal_value(d.drop_last()) == 0);
        lemma_digit_char_value(n as int);
        assert(decimal_value(d) == decimal_value(d.drop_last()) * 10 + (d.last() as int - '0' as int));
    }
}

/// A number in decimal is parsed back by `u64::from_str`.
pub proof fn lemma_parse_u64_decimal(n: u64)
    ensures
        spec_parse_u64(spec_decimal(n as nat)) == Some(n),
{
    lemma_decimal_reads_back(n as nat);
    let d = spec_decimal(n as nat);
    assert('0' <= d[0] <= '9');
}

/// The digit character of `k` stands for `k`.
proof fn lemma_digit_char_value(k: int)
    requires
        0 <= k < 10,
    ensures
        digit_char(k) as int - '0' as int == k,
        '0' <= digit_char(k) <= '9',
{
}

/// A byte in decimal is parsed back by `u8::from_str`, before and after trimming.
proof fn lemma_byte_decimal_parses(b: u8)
    ensures
        spec_parse_u8(spec_trim(spec_decimal(b as nat))) == Some(b),
        forall|i: int| 0 <= i < spec_decimal(b as nat).len() ==> spec_decimal(b as nat)[i] != ',',
{
    let d = spec_decimal(b as nat);
    lemma_decimal_reads_back(b as nat);
    assert(!is_whitespace(d[0]));
    assert(trim_start(d) == d);
    assert(!is_whitespace(d.last()));
    assert(trim_end(d) == d);
    assert(forall|i: int| 0 <= i < d.len() ==> '0' <= #[trigger] d[i] <= '9');
}

/// Splitting after a separator-free part `y` that follows an empty last part.
proof fn lemma_split_step(x: Seq<char>, ps: Seq<Seq<char>>, y: Seq<char>)
    requires
        spec_split(x, ',') == ps,
        ps.len() >= 1,
        ps.last() == Seq::<char>::empty(),
        forall|i: int| 0 <= i < y.len() ==> y[i] != ',',
    ensures
        spec_split(x + y, ',') == ps.drop_last().push(y),
        spec_split(x + y + seq![','], ',') == ps.drop_last().push(y).push(Seq::<char>::empty()),
{
    lemma_split_append_plain(x, y, ',');
    assert(ps.last() + y =~= y);
    assert(ps.update(ps.len() - 1, y) =~= ps.drop_last().push(y));
    assert((x + y + seq![',']).drop_last() =~= x + y);
}

/// Four separator-free parts joined by commas split back into those parts.
proof fn lemma_split_four(d0: Seq<char>, d1: Seq<char>, d2: Seq<char>, d3: Seq<char>)
    requires
        forall|i: int| 0 <= i < d0.len() ==> d0[i] != ',',
        forall|i: int| 0 <= i < d1.len() ==> d1[i] != ',',
        forall|i: int| 0 <= i < d2.len() ==> d2[i] != ',',
        forall|i: int| 0 <= i < d3.len() ==> d3[i] != ',',
    ensures
        spec_split(d0 + seq![','] + d1 + seq![','] + d2 + seq![','] + d3, ',') == seq![d0, d1, d2, d3],
{
    let e = Seq::<char>::empty();
    let c = seq![','];
    assert(spec_split(e, ',') == seq![e]);
    lemma_split_step(e, seq![e], d0);
    assert(e + d0 =~= d0);
    assert(seq![e].drop_last().push(d0).push(e) =~= seq![d0, e]);
    let t1 = d0 + c;
    lemma_split_step(t1, seq![d0, e], d1);
    assert(seq![d0, e].drop_last().push(d1).push(e) =~= seq![d0, d1, e]);
    let t2 = t1 + d1 + c;
    lemma_split_step(t2, seq![d0, d1, e], d2);
    assert(seq![d0, d1, e].drop_last().push(d2).push(e) =~= seq![d0, d1, d2, e]);
    let t3 = t2 + d2 + c;
    lemma_split_step(t3, seq![d0, d1, d2, e], d3);
    assert(seq![d0, d1, d2, e].drop_last().push(d3) =~= seq![d0, d1, d2, d3]);
    assert(d0 + c + d1 + c + d2 + c + d3 =~= t3 + d3);
}

/// Four parts that each parse keep their values, in order.
proof fn lemma_parsed_four(d0: Seq<char>, d1: Seq<char>, d2: Seq<char>, d3: Seq<char>, color: Seq<u8>)
    requires
        color.len() == 4,
        spec_parse_u8(spec_trim(d0)) == Some(color[0]),
        spec_parse_u8(spec_trim(d1)) == Some(color[1]),
        spec_parse_u8(spec_trim(d2)) == Some(color[2]),
        spec_parse_u8(spec_trim(d3)) == Some(color[3]),
    ensures
        parsed_parts(seq![d0, d1, d2, d3]) == color,
{
    let p4 = seq![d0, d1, d2, d3];
    let p3 = seq![d0, d1, d2];
    let p2 = seq![d0, d1];
    let p1 = seq![d0];
    assert(p4.drop_last() =~= p3);
    assert(p3.drop_last() =~= p2);
    assert(p2.drop_last() =~= p1);
    assert(p1.drop_last() =~= Seq::<Seq<char>>::empty());
    assert(p1.last() == d0);
    assert(parsed_parts(p1.drop_last()) == Seq::<u8>::empty());
    assert(parsed_parts(p1) =~= seq![color[0]]);
    assert(p2.last() == d1);
    assert(p3.last() == d2);
    assert(p4.last() == d3);
    assert(parsed_parts(p2) =~= seq![color[0], color[1]]);
    assert(parsed_parts(p3) =~= seq![color[0], color[1], color[2]]);
    assert(parsed_parts(p4) =~= color);
}

/// Reading back a written color gives the color.
pub proof fn lemma_parse_format_color(color: Seq<u8>)
    requires
        color.len() == 4,
    ensures
        spec_parse_color(spec_format_color(color)) == Some(color),
{
    let d0 = spec_decimal(color[0] as nat);
    let d1 = spec_decimal(color[1] as nat);
    let d2 = spec_decimal(color[2] as nat);
    let d3 = spec_decimal(color[3] as nat);
    lemma_byte_decimal_parses(color[0]);
    lemma_byte_decimal_parses(color[1]);
    lemma_byte_decimal_parses(color[2]);
    lemma_byte_decimal_parses(color[3]);
    lemma_split_four(d0, d1, d2, d3);
    lemma_parsed_four(d0, d1, d2, d3, color);
}

} // verus!

verus! {

/// The value of a hexadecimal digit character, if it is one.
pub open spec fn hex_digit_value(c: char) -> Option<int> {
    if '0' <= c <= '9' {
        Some(c as int - '0' as int)
    } else if 'a' <= c <= 'f' {
        Some(c as int - 'a' as int + 10)
    } else if 'A' <= c <= 'F' {
        Some(c as int - 'A' as int + 10)
    } else {
        None
    }
}

fn hex_digit_value_exec(c: char) -> (r: Option<u8>)
    ensures
        r matches Some(v) ==> hex_digit_value(c) == Some(v as int),
        r is None ==> hex_digit_value(c) is None,
{
    if '0' <= c && c <= '9' {
        Some(((c as u32) - ('0' as u32)) as u8)
    } else if 'a' <= c && c <= 'f' {
        Some(((c as u32) - ('a' as u32) + 10) as u8)
    } else if 'A' <= c && c <= 'F' {
        Some(((c as u32) - ('A' as u32) + 10) as u8)
    } else {
        None
    }
}

/// `u8::from_str_radix(s, 16)` on a two-character text `a b`: an optional `+`
/// then hexadecimal digits.
pub open spec fn spec_hex_pair(a: char, b: char) -> Option<u8> {
    if a == '+' {
        match hex_digit_value(b) {
            Some(v) => Some(v as u8),
            None => None,
        }
    } else {
        match (hex_digit_value(a), hex_digit_value(b)) {
            (Some(x), Some(y)) => Some((16 * x + y) as u8),
            _ => None,
        }
    }
}

fn hex_pair(a: char, b: char) -> (r: Option<u8>)
    ensures
        r == spec_hex_pair(a, b),
{
    if a == '+' {
        hex_digit_value_exec(b)
    } else {
        match (hex_digit_value_exec(a), hex_digit_value_exec(b)) {
            (Some(x), Some(y)) => Some(16 * x + y),
            _ => None,
        }
    }
}

/// Bytes that character `c` takes in UTF-8.
pub open spec fn utf8_width(c: char) -> nat {
    if (c as u32) < 0x80 {
        1
    } else if (c as u32) < 0x800 {
        2
    } else if (c as u32) < 0x10000 {
        3
    } else {
        4
    }
}

/// Bytes that `s` takes in UTF-8.
pub open spec fn utf8_length(s: Seq<char>) -> nat
    decreases s.len(),
{
    if s.len() == 0 {
        0
    } else {
        utf8_length(s.drop_last()) + utf8_width(s.last())
    }
}

/// Whether byte offset `b` of `s` falls between two characters.
pub open spec fn is_char_boundary(s: Seq<char>, b: nat) -> bool {
    exists|k: int| 0 <= k <= s.len() && utf8_length(s.take(k)) == b
}

/// Whether `parse_hex_color` can cut the six bytes after `#` into three two-byte
/// slices: it panics on a text whose trimmed form is `#` and six bytes that do
/// not break at bytes 2 and 4 between characters.
pub open spec fn hex_color_slices_ok(text: Seq<char>) -> bool {
    let s = spec_trim(text);
    !(s.len() >= 1 && s[0] == '#' && utf8_length(s.skip(1)) == 6) || (is_char_boundary(s.skip(1), 2)
        && is_char_boundary(s.skip(1), 4))
}

/// Whether every character of `s` is ASCII.
pub open spec fn all_ascii(s: Seq<char>) -> bool {
    forall|i: int| 0 <= i < s.len() ==> (#[trigger] s[i] as u32) < 0x80
}

/// A color written as `#rrggbb`: the trimmed text must be `#` and six ASCII
/// characters, read in pairs as hexadecimal bytes; alpha is 255.
pub open spec fn spec_parse_hex_color(text: Seq<char>) -> Option<Seq<u8>> {
    let s = spec_trim(text);
    if s.len() == 7 && s[0] == '#' && all_ascii(s.skip(1)) {
        match (spec_hex_pair(s[1], s[2]), spec_hex_pair(s[3], s[4]), spec_hex_pair(s[5], s[6])) {
            (Some(r), Some(g), Some(b)) => Some(seq![r, g, b, 255u8]),
            _ => None,
        }
    } else {
        None
    }
}

/// Reads a color written as `#rrggbb` (alpha 255).
pub fn parse_hex_color(text: &str) -> (r: Option<[u8; 4]>)
    requires
        hex_color_slices_ok(text@),
    ensures
        r matches Some(c) ==> spec_parse_hex_color(text@) == Some(c@),
        r is None ==> spec_parse_hex_color(text@) is None,
{
    let t = chars_of(text);
    let (a, b) = trim_bounds(&t, 0, t.len());
    assert(t@.subrange(0, t@.len() as int) =~= t@);
    let ghost s = t@.subrange(a as int, b as int);
    if b - a != 7 || t[a] != '#' {
        return None;
    }
    let mut k: usize = a + 1;
    while k < b
        invariant
            a + 1 <= k <= b,
            b - a == 7,
            b <= t@.len(),
            s == t@.subrange(a as int, b as int),
            s == spec_trim(text@),
            s.len() == 7,
            s[0] == '#',
            all_ascii(s.skip(1).take(k - a - 1)),
        decreases b - k,
    {
        if (t[k] as u32) >= 0x80 {
            proof {
                assert(s.skip(1)[k - a - 1] == t@[k as int]);
                assert(!all_ascii(s.skip(1)));
            }
            return None;
        }
        proof {
            assert forall|i: int| 0 <= i < k + 1 - a - 1 implies (#[trigger] s.skip(1).take(k + 1 - a - 1)[i] as u32) < 0x80 by {
                if i < k - a - 1 {
                    assert(s.skip(1).take(k - a - 1)[i] == s.skip(1).take(k + 1 - a - 1)[i]);
                } else {
                    assert(s.skip(1)[i] == t@[k as int]);
                }
            }
        }
        k = k + 1;
    }
    assert(s.skip(1).take(6) =~= s.skip(1));
    let red = hex_pair(t[a + 1], t[a + 2]);
    let green = hex_pair(t[a + 3], t[a + 4]);
    let blue = hex_pair(t[a + 5], t[a + 6]);
    match (red, green, blue) {
        (Some(r), Some(g), Some(bl)) => {
            let c: [u8; 4] = [r, g, bl, 255];
            assert(c@ =~= seq![r, g, bl, 255u8]);
            Some(c)
        },
        _ => None,
    }
}

/// The lowercase hexadecimal digit for `d` in `0..16`.
pub open spec fn lower_hex_char(d: int) -> char {
    if d < 10 {
        digit_char(d)
    } else if d == 10 { 'a' } else if d == 11 { 'b' } else if d == 12 { 'c' }
    else if d == 13 { 'd' } else if d == 14 { 'e' } else { 'f' }
}

fn lower_hex_char_exec(d: u8) -> (c: char)
    requires
        d < 16,
    ensures
        c == lower_hex_char(d as int),
{
    if d < 10 {
        digit_char_exec(d as u64)
    } else if d == 10 { 'a' } else if d == 11 { 'b' } else if d == 12 { 'c' }
    else if d == 13 { 'd' } else if d == 14 { 'e' } else { 'f' }
}

/// A byte as two lowercase hexadecimal digits (`{:02x}`).
pub open spec fn hex_byte(b: u8) -> Seq<char> {
    seq![lower_hex_char(b as int / 16), lower_hex_char(b as int % 16)]
}

/// The RGB channels of a color written as `#rrggbb` in lowercase hexadecimal.
pub open spec fn spec_hex_color(color: Seq<u8>) -> Seq<char> {
    seq!['#'] + hex_byte(color[0]) + hex_byte(color[1]) + hex_byte(color[2])
}

/// Writes the RGB channels of a color as `#rrggbb`, as the SVG `fill` and
/// `stroke` attributes hold them.
pub fn hex_color(color: [u8; 4]) -> (r: String)
    ensures
        r@ == spec_hex_color(color@),
{
    let mut v: Vec<char> = Vec::new();
    v.push('#');
    let mut i: usize = 0;
    while i < 3
        invariant
            0 <= i <= 3,
            v@.len() == 1 + 2 * i,
            v@[0] == '#',
            forall|j: int| 0 <= j < i ==> v@.subrange(1 + 2 * j, 3 + 2 * j) == hex_byte(color@[j]),
        decreases 3 - i,
    {
        let byte = color[i];
        let hi = lower_hex_char_exec(byte / 16);
        let lo = lower_hex_char_exec(byte % 16);
        let ghost before = v@;
        v.push(hi);
        v.push(lo);
        proof {
            assert forall|j: int| 0 <= j < i + 1 implies v@.subrange(1 + 2 * j, 3 + 2 * j) == hex_byte(color@[j]) by {
                if j < i {
                    assert(v@.subrange(1 + 2 * j, 3 + 2 * j) =~= before.subrange(1 + 2 * j, 3 + 2 * j));
                } else {
                    assert(v@.subrange(1 + 2 * j, 3 + 2 * j) =~= hex_byte(color@[j]));
                }
            }
        }
        i = i + 1;
    }
    assert(v@ =~= spec_hex_color(color@)) by {
        assert(v@.subrange(1, 3) == hex_byte(color@[0]));
        assert(v@.subrange(3, 5) == hex_byte(color@[1]));
        assert(v@.subrange(5, 7) == hex_byte(color@[2]));
    }
    string_from_chars(v.as_slice())
}

/// A lowercase hexadecimal digit reads back as its value.
proof fn lemma_lower_hex_reads_back(d: int)
    requires
        0 <= d < 16,
    ensures
        hex_digit_value(lower_hex_char(d)) == Some(d),
        (lower_hex_char(d) as u32) < 0x80,
        lower_hex_char(d) != '+',
{
}

/// A color written as `#rrggbb` is read back with alpha 255, and reading it
/// cannot panic.
pub proof fn lemma_parse_hex_color_roundtrip(color: Seq<u8>)
    requires
        color.len() == 4,
    ensures
        hex_color_slices_ok(spec_hex_color(color)),
        spec_parse_hex_color(spec_hex_color(color)) == Some(seq![color[0], color[1], color[2], 255u8]),
{
    let s = spec_hex_color(color);
    assert(s.len() == 7);
    assert(!is_whitespace(s[0]));
    assert(trim_start(s) == s);
    lemma_lower_hex_reads_back(color[2] as int % 16);
    assert(!is_whitespace(s.last()));
    assert(trim_end(s) == s);
    assert(spec_trim(s) == s);
    let h = s.skip(1);
    assert forall|i: int| 0 <= i < h.len() implies (#[trigger] h[i] as u32) < 0x80 by {
        let j = i / 2;
        assert(0 <= j < 3);
        if i % 2 == 0 {
            lemma_lower_hex_reads_back(color[j] as int / 16);
        } else {
            lemma_lower_hex_reads_back(color[j] as int % 16);
        }
        assert(h[i] == s[i + 1]);
    }
    lemma_ascii_length(h);
    lemma_ascii_length(h.take(2));
    lemma_ascii_length(h.take(4));
    assert(is_char_boundary(h, 2)) by {
        assert(h.take(2).len() == 2);
    }
    assert(is_char_boundary(h, 4)) by {
        assert(h.take(4).len() == 4);
    }
    lemma_hex_pair_of_byte(color[0]);
    lemma_hex_pair_of_byte(color[1]);
    lemma_hex_pair_of_byte(color[2]);
    assert(s[1] == hex_byte(color[0])[0] && s[2] == hex_byte(color[0])[1]);
    assert(s[3] == hex_byte(color[1])[0] && s[4] == hex_byte(color[1])[1]);
    assert(s[5] == hex_byte(color[2])[0] && s[6] == hex_byte(color[2])[1]);
    assert(spec_hex_pair(s[1], s[2]) == Some(color[0]));
    assert(spec_hex_pair(s[3], s[4]) == Some(color[1]));
    assert(spec_hex_pair(s[5], s[6]) == Some(color[2]));
}

/// Two lowercase hexadecimal digits of a byte read back as the byte.
proof fn lemma_hex_pair_of_byte(b: u8)
    ensures
        spec_hex_pair(hex_byte(b)[0], hex_byte(b)[1]) == Some(b),
{
    lemma_lower_hex_reads_back(b as int / 16);
    lemma_lower_hex_reads_back(b as int % 16);
    assert(16 * (b as int / 16) + b as int % 16 == b as int);
}

/// An ASCII text takes one byte per character.
proof fn lemma_ascii_length(s: Seq<char>)
    requires
        all_ascii(s),
    ensures
        utf8_length(s) == s.len(),
    decreases s.len(),
{
    if s.len() > 0 {
        assert(all_ascii(s.drop_last()));
        lemma_ascii_length(s.drop_last());
        assert((s.last() as u32) < 0x80);
    }
}

} // verus!

verus! {

fn utf8_width_exec(c: char) -> (w: u64)
    ensures
        w == utf8_width(c),
{
    let code = c as u32;
    if code < 0x80 {
        1
    } else if code < 0x800 {
        2
    } else if code < 0x10000 {
        3
    } else {
        4
    }
}

/// A prefix takes no more bytes than the whole text.
proof fn lemma_utf8_length_prefix(s: Seq<char>, m: int)
    requires
        0 <= m <= s.len(),
    ensures
        utf8_length(s.take(m)) <= utf8_length(s),
    decreases s.len() - m,
{
    if m < s.len() {
        lemma_utf8_length_prefix(s, m + 1);
        assert(s.take(m + 1).drop_last() =~= s.take(m));
    } else {
        assert(s.take(m) =~= s);
    }
}

/// Whether `parse_hex_color` may be called on `text` (see `hex_color_slices_ok`).
pub fn hex_color_can_slice(text: &str) -> (ok: bool)
    ensures
        ok == hex_color_slices_ok(text@),
{
    let t = chars_of(text);
    let (a, b) = trim_bounds(&t, 0, t.len());
    assert(t@.subrange(0, t@.len() as int) =~= t@);
    let ghost s = t@.subrange(a as int, b as int);
    if a == b || t[a] != '#' {
        return true;
    }
    let ghost h = s.skip(1);
    let mut bytes: u64 = 0;
    let mut hit2 = false;
    let mut hit4 = false;
    let mut k: usize = a + 1;
    assert(h.take(0) =~= Seq::<char>::empty());
    while k < b
        invariant
            a + 1 <= k <= b <= t@.len(),
            s == t@.subrange(a as int, b as int),
            s == spec_trim(text@),
            s.len() >= 1,
            s[0] == '#',
            h == s.skip(1),
            bytes == utf8_length(h.take(k - a - 1)),
            bytes <= 6,
            hit2 == exists|m: int| 0 <= m <= k - a - 1 && utf8_length(h.take(m)) == 2,
            hit4 == exists|m: int| 0 <= m <= k - a - 1 && utf8_length(h.take(m)) == 4,
        decreases b - k,
    {
        let w = utf8_width_exec(t[k]);
        proof {
            let i = k - a - 1;
            assert(h.take(i + 1).drop_last() =~= h.take(i));
            assert(h.take(i + 1).last() == t@[k as int]);
        }
        bytes = bytes + w;
        k = k + 1;
        if bytes > 6 {
            proof {
                lemma_utf8_length_prefix(h, k - a - 1);
            }
            return true;
        }
        if bytes == 2 {
            hit2 = true;
        }
        if bytes == 4 {
            hit4 = true;
        }
        proof {
            let i = k - a - 1;
            if exists|m: int| 0 <= m <= i && utf8_length(h.take(m)) == 2 {
                let m = choose|m: int| 0 <= m <= i && utf8_length(h.take(m)) == 2;
                if m < i {
                    assert(hit2);
                }
            }
            if exists|m: int| 0 <= m <= i && utf8_length(h.take(m)) == 4 {
                let m = choose|m: int| 0 <= m <= i && utf8_length(h.take(m)) == 4;
                if m < i {
                    assert(hit4);
                }
            }
        }
    }
    assert(h.take(h.len() as int) =~= h);
    !(bytes == 6) || (hit2 && hit4)
}

/// `c` with an ASCII capital letter made small (`char::to_ascii_lowercase`).
pub open spec fn ascii_lower(c: char) -> char {
    if 'A' <= c <= 'Z' {
        ((c as u32) + 32) as char
    } else {
        c
    }
}

/// Whether `s` ends with `.png` in any mix of letter cases.
pub open spec fn ends_with_png(s: Seq<char>) -> bool {
    let n = s.len() as int;
    &&& n >= 4
    &&& s[n - 4] == '.'
    &&& ascii_lower(s[n - 3]) == 'p'
    &&& ascii_lower(s[n - 2]) == 'n'
    &&& ascii_lower(s[n - 1]) == 'g'
}

/// The PNG file name for an export: the trimmed name (`canvas_export` when it
/// is empty), with `.png` appended unless it already ends with it in any case.
pub open spec fn spec_png_file_name(name: Seq<char>) -> Seq<char> {
    let t = spec_trim(name);
    let base = if t.len() == 0 { "canvas_export"@ } else { t };
    if ends_with_png(base) { base } else { base + ".png"@ }
}

fn ascii_lower_exec(c: char) -> (r: char)
    ensures
        r == ascii_lower(c),
{
    if 'A' <= c && c <= 'Z' {
        let code: u8 = c as u8 + 32;
        code as char
    } else {
        c
    }
}

/// The PNG file name for an export (see `spec_png_file_name`).
pub fn png_file_name(name: &str) -> (r: String)
    ensures
        r@ == spec_png_file_name(name@),
{
    let chars = chars_of(name);
    let (a, b) = trim_bounds(&chars, 0, chars.len());
    assert(chars@.subrange(0, chars@.len() as int) =~= chars@);
    let mut base = copy_range(&chars, a, b);
    if base.len() == 0 {
        base = chars_of("canvas_export");
    }
    let n = base.len();
    let has_suffix = n >= 4 && base[n - 4] == '.' && ascii_lower_exec(base[n - 3]) == 'p'
        && ascii_lower_exec(base[n - 2]) == 'n' && ascii_lower_exec(base[n - 1]) == 'g';
    if has_suffix {
        string_from_chars(base.as_slice())
    } else {
        let tail = chars_of(".png");
        let ghost start = base@;
        let mut i: usize = 0;
        while i < tail.len()
            invariant
                0 <= i <= tail@.len(),
                tail@ == ".png"@,
                base@ == start + tail@.take(i as int),
            decreases tail@.len() - i,
        {
            base.push(tail[i]);
            i = i + 1;
            assert(base@ =~= start + tail@.take(i as int));
        }
        assert(tail@.take(tail@.len() as int) =~= tail@);
        string_from_chars(base.as_slice())
    }
}

/// What `trim_start` leaves is empty or starts with a non-blank character,
/// and `trim_end` leaves a prefix that is empty or ends with one.
proof fn lemma_trim_shape(s: Seq<char>)
    ensures
        trim_start(s).len() == 0 || !is_whitespace(trim_start(s)[0]),
        trim_end(s).len() <= s.len(),
        trim_end(s) == s.take(trim_end(s).len() as int),
        trim_end(s).len() == 0 || !is_whitespace(trim_end(s).last()),
    decreases s.len(),
{
    if s.len() > 0 {
        lemma_trim_shape(s.skip(1));
        lemma_trim_shape(s.drop_last());
        if is_whitespace(s.last()) {
            let t = trim_end(s.drop_last());
            assert(s.drop_last().take(t.len() as int) =~= s.take(t.len() as int));
        } else {
            assert(s.take(s.len() as int) =~= s);
        }
    } else {
        assert(s.take(0) =~= s);
    }
}

/// A text that starts and ends with non-blank characters is its own trim.
proof fn lemma_trim_fixed(s: Seq<char>)
    requires
        s.len() > 0,
        !is_whitespace(s[0]),
        !is_whitespace(s.last()),
    ensures
        spec_trim(s) == s,
{
}

/// The export file name always ends with `.png`, and naming it again keeps it.
pub proof fn lemma_png_file_name(name: Seq<char>)
    ensures
        ends_with_png(spec_png_file_name(name)),
        spec_png_file_name(spec_png_file_name(name)) == spec_png_file_name(name),
{
    reveal_strlit("canvas_export");
    reveal_strlit(".png");
    let t = spec_trim(name);
    let base = if t.len() == 0 { "canvas_export"@ } else { t };
    let r = spec_png_file_name(name);
    lemma_trim_shape(name);
    lemma_trim_shape(trim_start(name));
    if t.len() > 0 {
        assert(t[0] == trim_start(name)[0]);
        assert(!is_whitespace(base[0]));
        assert(!is_whitespace(base.last()));
    } else {
        assert(base[0] == 'c');
        assert(base.last() == 't');
    }
    if ends_with_png(base) {
        assert(r == base);
        assert(r.last() == 'g' || r.last() == 'G');
    } else {
        assert(r == base + ".png"@);
        assert(r.len() == base.len() + 4);
        assert(r[r.len() - 4] == '.');
        assert(r[r.len() - 3] == 'p');
        assert(r[r.len() - 2] == 'n');
        assert(r[r.len() - 1] == 'g');
        assert(r[0] == base[0]);
    }
    lemma_trim_fixed(r);
}

} // verus!
