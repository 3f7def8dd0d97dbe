//! Text sanitizer: turns raw message text into LaTeX-safe markup.
//!
//! The pipeline applies, in order: smart-character normalization, hyperlink
//! annotation, markup-character escaping, emoji variation-selector stripping,
//! and emoji font wrapping.  Each step is specified as a function on
//! `Seq<char>` and the executable code is proved to compute exactly that.

use vstd::prelude::*;
use crate::text::push_str_chars;

verus! {

// ---------------------------------------------------------------------------
// Per-character expansion: each input character becomes a fixed replacement
// sequence.  Shared by the normalization, escaping and stripping steps.
// ---------------------------------------------------------------------------

/// Replace every character of `s` by `f` of it, concatenating the results.
pub open spec fn char_expand(s: Seq<char>, f: spec_fn(char) -> Seq<char>) -> Seq<char>
    decreases s.len(),
{
    if s.len() == 0 {
        Seq::empty()
    } else {
        f(s[0]) + char_expand(s.drop_first(), f)
    }
}

pub proof fn lemma_char_expand_add(a: Seq<char>, b: Seq<char>, f: spec_fn(char) -> Seq<char>)
    ensures
        char_expand(a + b, f) == char_expand(a, f) + char_expand(b, f),
    decreases a.len(),
{
    if a.len() == 0 {
        assert(a + b =~= b);
        assert(char_expand(a, f) + char_expand(b, f) =~= char_expand(b, f));
    } else {
        lemma_char_expand_add(a.drop_first(), b, f);
        assert((a + b).drop_first() =~= a.drop_first() + b);
        assert((a + b)[0] == a[0]);
        assert(char_expand(a + b, f) =~= char_expand(a, f) + char_expand(b, f));
    }
}

pub proof fn lemma_char_expand_take_succ(s: Seq<char>, f: spec_fn(char) -> Seq<char>, i: int)
    requires
        0 <= i < s.len(),
    ensures
        char_expand(s.take(i + 1), f) == char_expand(s.take(i), f) + f(s[i]),
{
    let single = seq![s[i]];
    assert(s.take(i + 1) =~= s.take(i) + single);
    lemma_char_expand_add(s.take(i), single, f);
    assert(single.drop_first() =~= Seq::<char>::empty());
    assert(char_expand(Seq::<char>::empty(), f) =~= Seq::<char>::empty());
    assert(char_expand(single, f) =~= f(s[i]) + Seq::<char>::empty());
    assert(f(s[i]) + Seq::<char>::empty() =~= f(s[i]));
}

/// If `f` maps every character of `s` to itself, the expansion is `s`.
pub proof fn lemma_char_expand_identity(s: Seq<char>, f: spec_fn(char) -> Seq<char>)
    requires
        forall|i: int| 0 <= i < s.len() ==> f(s[i]) == seq![s[i]],
    ensures
        char_expand(s, f) == s,
    decreases s.len(),
{
    if s.len() == 0 {
        assert(char_expand(s, f) =~= s);
    } else {
        lemma_char_expand_identity(s.drop_first(), f);
        assert(char_expand(s, f) =~= seq![s[0]] + s.drop_first());
        assert(seq![s[0]] + s.drop_first() =~= s);
    }
}

// ---------------------------------------------------------------------------
// Step: smart-character normalization.
// ---------------------------------------------------------------------------

/// ASCII replacement for one typographic character; other characters keep
/// themselves.
pub open spec fn normalize_char(c: char) -> Seq<char> {
    if c == '\u{2019}' {
        seq!['\'']
    } else if c == '\u{201C}' || c == '\u{201D}' {
        seq!['"']
    } else if c == '\u{2026}' {
        seq!['.', '.', '.']
    } else {
        seq![c]
    }
}

pub open spec fn norm_f() -> spec_fn(char) -> Seq<char> {
    |c: char| normalize_char(c)
}

/// Smart quotes and the ellipsis glyph replaced by their ASCII equivalents.
pub open spec fn normalize_spec(s: Seq<char>) -> Seq<char> {
    char_expand(s, norm_f())
}

pub fn normalize_text(v: &Vec<char>) -> (r: Vec<char>)
    ensures
        r@ == normalize_spec(v@),
{
    let mut out: Vec<char> = Vec::new();
    let mut i: usize = 0;
    while i < v.len()
        invariant
            i <= v.len(),
            out@ == char_expand(v@.take(i as int), norm_f()),
        decreases v.len() - i,
    {
        let c = v[i];
        if c == '\u{2019}' {
            out.push('\'');
        } else if c == '\u{201C}' || c == '\u{201D}' {
            out.push('"');
        } else if c == '\u{2026}' {
            out.push('.');
            out.push('.');
            out.push('.');
        } else {
            out.push(c);
        }
        proof {
            lemma_char_expand_take_succ(v@, norm_f(), i as int);
            assert(out@ =~= char_expand(v@.take(i as int), norm_f()) + normalize_char(v@[i as int]));
        }
        i = i + 1;
    }
    proof {
        assert(v@.take(v@.len() as int) =~= v@);
    }
    out
}

// ---------------------------------------------------------------------------
// Step: LaTeX escaping.
// ---------------------------------------------------------------------------

/// The characters that carry meaning in the target markup language and must
/// not appear bare, the newline included.
pub open spec fn is_markup_control(c: char) -> bool {
    c == '\\' || c == '$' || c == '%' || c == '&' || c == '_' || c == '^' || c == '~'
        || c == '#' || c == '{' || c == '}' || c == '\n'
}

/// The literal-safe spelling of one character in the target markup language.
pub open spec fn escape_char(c: char) -> Seq<char> {
    if c == '\\' {
        "\\textbackslash\\ "@
    } else if c == '$' {
        "\\$"@
    } else if c == '%' {
        "\\%"@
    } else if c == '&' {
        "\\&"@
    } else if c == '_' {
        "\\_"@
    } else if c == '^' {
        "\\textasciicircum\\ "@
    } else if c == '~' {
        "\\textasciitilde\\ "@
    } else if c == '#' {
        "\\#"@
    } else if c == '{' {
        "\\{"@
    } else if c == '}' {
        "\\}"@
    } else if c == '\n' {
        "\\newline\n"@
    } else {
        seq![c]
    }
}

pub open spec fn escape_f() -> spec_fn(char) -> Seq<char> {
    |c: char| escape_char(c)
}

/// Every markup-control character replaced by its literal-safe spelling.
pub open spec fn escape_spec(s: Seq<char>) -> Seq<char> {
    char_expand(s, escape_f())
}

pub fn escape_text(v: &Vec<char>) -> (r: Vec<char>)
    ensures
        r@ == escape_spec(v@),
{
    let mut out: Vec<char> = Vec::new();
    let mut i: usize = 0;
    while i < v.len()
        invariant
            i <= v.len(),
            out@ == char_expand(v@.take(i as int), escape_f()),
        decreases v.len() - i,
    {
        let c = v[i];
        if c == '\\' {
            push_str_chars(&mut out, "\\textbackslash\\ ");
        } else if c == '$' {
            push_str_chars(&mut out, "\\$");
        } else if c == '%' {
            push_str_chars(&mut out, "\\%");
        } else if c == '&' {
            push_str_chars(&mut out, "\\&");
        } else if c == '_' {
            push_str_chars(&mut out, "\\_");
        } else if c == '^' {
            push_str_chars(&mut out, "\\textasciicircum\\ ");
        } else if c == '~' {
            push_str_chars(&mut out, "\\textasciitilde\\ ");
        } else if c == '#' {
            push_str_chars(&mut out, "\\#");
        } else if c == '{' {
            push_str_chars(&mut out, "\\{");
        } else if c == '}' {
            push_str_chars(&mut out, "\\}");
        } else if c == '\n' {
            push_str_chars(&mut out, "\\newline\n");
        } else {
            out.push(c);
        }
        proof {
            lemma_char_expand_take_succ(v@, escape_f(), i as int);
            assert(out@ =~= char_expand(v@.take(i as int), escape_f()) + escape_char(v@[i as int]));
        }
        i = i + 1;
    }
    proof {
        assert(v@.take(v@.len() as int) =~= v@);
    }
    out
}

/// Escaping leaves a string without markup-control characters unchanged.
pub proof fn lemma_escape_plain_identity(s: Seq<char>)
    requires
        forall|i: int| 0 <= i < s.len() ==> !is_markup_control(#[trigger] s[i]),
    ensures
        escape_spec(s) == s,
{
    assert forall|i: int| 0 <= i < s.len() implies escape_f()(s[i]) == seq![s[i]] by {
        assert(!is_markup_control(s[i]));
    }
    lemma_char_expand_identity(s, escape_f());
}

// ---------------------------------------------------------------------------
// Step: emoji variation-selector stripping.
// ---------------------------------------------------------------------------

/// The emoji-style variation selector is dropped; everything else stays.
pub open spec fn strip_char(c: char) -> Seq<char> {
    if c == '\u{FE0F}' {
        Seq::empty()
    } else {
        seq![c]
    }
}

pub open spec fn strip_f() -> spec_fn(char) -> Seq<char> {
    |c: char| strip_char(c)
}

/// The text with every emoji variation-selector code point removed.
pub open spec fn strip_spec(s: Seq<char>) -> Seq<char> {
    char_expand(s, strip_f())
}

pub fn strip_variation_selectors(v: &Vec<char>) -> (r: Vec<char>)
    ensures
        r@ == strip_spec(v@),
{
    let mut out: Vec<char> = Vec::new();
    let mut i: usize = 0;
    while i < v.len()
        invariant
            i <= v.len(),
            out@ == char_expand(v@.take(i as int), strip_f()),
        decreases v.len() - i,
    {
        let c = v[i];
        if c != '\u{FE0F}' {
            out.push(c);
        }
        proof {
            lemma_char_expand_take_succ(v@, strip_f(), i as int);
            assert(out@ =~= char_expand(v@.take(i as int), strip_f()) + strip_char(v@[i as int]));
        }
        i = i + 1;
    }
    proof {
        assert(v@.take(v@.len() as int) =~= v@);
    }
    out
}

// ---------------------------------------------------------------------------
// Step: hyperlink annotation.
//
// A hyperlink is a maximal whitespace-free run that begins with an `http://`
// or `https://` scheme and has at least one character after it.  Each run is
// replaced by an inline annotation holding the link's host and, when one was
// resolved, its title.
// ---------------------------------------------------------------------------

/// Whitespace for the purpose of delimiting hyperlink runs: the Unicode
/// White_Space code points.
pub open spec fn is_url_ws(c: char) -> bool {
    ||| c == '\t' || c == '\n' || c == '\u{000B}' || c == '\u{000C}' || c == '\r'
    ||| c == ' ' || c == '\u{0085}' || c == '\u{00A0}' || c == '\u{1680}'
    ||| (0x2000 <= c as u32 && c as u32 <= 0x200A)
    ||| c == '\u{2028}' || c == '\u{2029}' || c == '\u{202F}' || c == '\u{205F}'
    ||| c == '\u{3000}'
}

/// An `https://` scheme occurs in `s` starting at position `i`.
pub open spec fn https_at(s: Seq<char>, i: int) -> bool {
    &&& 0 <= i
    &&& i + 8 <= s.len()
    &&& s[i] == 'h'
    &&& s[i + 1] == 't'
    &&& s[i + 2] == 't'
    &&& s[i + 3] == 'p'
    &&& s[i + 4] == 's'
    &&& s[i + 5] == ':'
    &&& s[i + 6] == '/'
    &&& s[i + 7] == '/'
}

/// An `http://` scheme occurs in `s` starting at position `i`.
pub open spec fn http_at(s: Seq<char>, i: int) -> bool {
    &&& 0 <= i
    &&& i + 7 <= s.len()
    &&& s[i] == 'h'
    &&& s[i + 1] == 't'
    &&& s[i + 2] == 't'
    &&& s[i + 3] == 'p'
    &&& s[i + 4] == ':'
    &&& s[i + 5] == '/'
    &&& s[i + 6] == '/'
}

/// Length of the hyperlink scheme found at position `i`, or zero.
pub open spec fn url_scheme_len(s: Seq<char>, i: int) -> int {
    if https_at(s, i) {
        8
    } else if http_at(s, i) {
        7
    } else {
        0
    }
}

/// A hyperlink begins at position `i`: a scheme with a whitespace-free
/// character right after it.
pub open spec fn url_at(s: Seq<char>, i: int) -> bool {
    let k = url_scheme_len(s, i);
    k > 0 && i + k < s.len() && !is_url_ws(s[i + k])
}

/// Number of consecutive non-whitespace characters starting at `i`.
pub open spec fn nonws_run_len(s: Seq<char>, i: int) -> int
    decreases s.len() - i when 0 <= i <= s.len()
{
    if i >= s.len() || is_url_ws(s[i]) {
        0
    } else {
        1 + nonws_run_len(s, i + 1)
    }
}

pub proof fn lemma_nonws_run_len_bounds(s: Seq<char>, i: int)
    requires
        0 <= i <= s.len(),
    ensures
        0 <= nonws_run_len(s, i) <= s.len() - i,
    decreases s.len() - i,
{
    if i < s.len() && !is_url_ws(s[i]) {
        lemma_nonws_run_len_bounds(s, i + 1);
    }
}

/// Number of consecutive characters other than `/` starting at `i`.
pub open spec fn nonslash_run_len(s: Seq<char>, i: int) -> int
    decreases s.len() - i when 0 <= i <= s.len()
{
    if i >= s.len() || s[i] == '/' {
        0
    } else {
        1 + nonslash_run_len(s, i + 1)
    }
}

pub proof fn lemma_nonslash_run_len_bounds(s: Seq<char>, i: int)
    requires
        0 <= i <= s.len(),
    ensures
        0 <= nonslash_run_len(s, i) <= s.len() - i,
    decreases s.len() - i,
{
    if i < s.len() && s[i] != '/' {
        lemma_nonslash_run_len_bounds(s, i + 1);
    }
}

/// The host of a hyperlink: the characters between the scheme's `//` and the
/// next `/`, or everything when the link does not start with a scheme.
pub open spec fn host_of(u: Seq<char>) -> Seq<char> {
    let k = url_scheme_len(u, 0);
    if k > 0 {
        u.subrange(k, k + nonslash_run_len(u, k))
    } else {
        u
    }
}

/// The resolved title of `u`: the value of the first table entry whose key
/// is `u`, or absent when no entry matches.
pub open spec fn lookup_title(
    t: Seq<(Seq<char>, Option<Seq<char>>)>,
    u: Seq<char>,
) -> Option<Seq<char>>
    decreases t.len(),
{
    if t.len() == 0 {
        None
    } else if t[0].0 == u {
        t[0].1
    } else {
        lookup_title(t.drop_first(), u)
    }
}

/// The inline annotation that replaces the hyperlink `u`.
pub open spec fn link_annotation(
    u: Seq<char>,
    t: Seq<(Seq<char>, Option<Seq<char>>)>,
) -> Seq<char> {
    match lookup_title(t, u) {
        Some(title) => "(link: "@ + host_of(u) + ", "@ + title + ")"@,
        None => "(link: "@ + host_of(u) + ")"@,
    }
}

/// The text from position `i` on, with every hyperlink run replaced by its
/// annotation and every other character kept.
pub open spec fn rewrite_urls_from(
    s: Seq<char>,
    i: int,
    t: Seq<(Seq<char>, Option<Seq<char>>)>,
) -> Seq<char>
    decreases s.len() - i when 0 <= i <= s.len() via rewrite_urls_from_decreases
{
    if i >= s.len() {
        Seq::empty()
    } else if url_at(s, i) {
        let k = url_scheme_len(s, i);
        let e = i + k + nonws_run_len(s, i + k);
        link_annotation(s.subrange(i, e), t) + rewrite_urls_from(s, e, t)
    } else {
        seq![s[i]] + rewrite_urls_from(s, i + 1, t)
    }
}

#[via_fn]
proof fn rewrite_urls_from_decreases(
    s: Seq<char>,
    i: int,
    t: Seq<(Seq<char>, Option<Seq<char>>)>,
) {
    if 0 <= i < s.len() && url_at(s, i) {
        let k = url_scheme_len(s, i);
        lemma_nonws_run_len_bounds(s, i + k);
    }
}

/// The whole text with hyperlinks annotated.
pub open spec fn rewrite_urls_spec(
    s: Seq<char>,
    t: Seq<(Seq<char>, Option<Seq<char>>)>,
) -> Seq<char> {
    rewrite_urls_from(s, 0, t)
}

/// The hyperlink runs of `s` from position `i` on, in text order.
pub open spec fn urls_from(s: Seq<char>, i: int) -> Seq<Seq<char>>
    decreases s.len() - i when 0 <= i <= s.len() via urls_from_decreases
{
    if i >= s.len() {
        Seq::empty()
    } else if url_at(s, i) {
        let k = url_scheme_len(s, i);
        let e = i + k + nonws_run_len(s, i + k);
        seq![s.subrange(i, e)] + urls_from(s, e)
    } else {
        urls_from(s, i + 1)
    }
}

#[via_fn]
proof fn urls_from_decreases(s: Seq<char>, i: int) {
    if 0 <= i < s.len() && url_at(s, i) {
        let k = url_scheme_len(s, i);
        lemma_nonws_run_len_bounds(s, i + k);
    }
}

/// Whitespace test matching [`is_url_ws`].
fn ws_char(c: char) -> (r: bool)
    ensures
        r == is_url_ws(c),
{
    c == '\t' || c == '\n' || c == '\u{000B}' || c == '\u{000C}' || c == '\r'
        || c == ' ' || c == '\u{0085}' || c == '\u{00A0}' || c == '\u{1680}'
        || (0x2000 <= c as u32 && c as u32 <= 0x200A)
        || c == '\u{2028}' || c == '\u{2029}' || c == '\u{202F}' || c == '\u{205F}'
        || c == '\u{3000}'
}

/// Length of the hyperlink scheme found at position `i` of `v`, or zero.
fn scheme_len_at(v: &Vec<char>, i: usize) -> (r: usize)
    requires
        i < v@.len(),
    ensures
        r as int == url_scheme_len(v@, i as int),
        r <= v@.len() - i,
{
    if v.len() - i >= 8 && v[i] == 'h' && v[i + 1] == 't' && v[i + 2] == 't' && v[i + 3] == 'p'
        && v[i + 4] == 's' && v[i + 5] == ':' && v[i + 6] == '/' && v[i + 7] == '/' {
        8
    } else if v.len() - i >= 7 && v[i] == 'h' && v[i + 1] == 't' && v[i + 2] == 't'
        && v[i + 3] == 'p' && v[i + 4] == ':' && v[i + 5] == '/' && v[i + 6] == '/' {
        7
    } else {
        0
    }
}

/// View of an optional character vector.
pub open spec fn opt_chars_view(o: Option<Vec<char>>) -> Option<Seq<char>> {
    match o {
        Some(v) => Some(v@),
        None => None,
    }
}

/// View of a title table held as character vectors.
pub open spec fn table_view(
    t: Seq<(Vec<char>, Option<Vec<char>>)>,
) -> Seq<(Seq<char>, Option<Seq<char>>)> {
    t.map(|i: int, p: (Vec<char>, Option<Vec<char>>)| (p.0@, opt_chars_view(p.1)))
}

/// First table entry whose key equals `u`.
fn lookup_title_exec<'a>(
    table: &'a Vec<(Vec<char>, Option<Vec<char>>)>,
    u: &Vec<char>,
) -> (r: Option<&'a Vec<char>>)
    ensures
        match lookup_title(table_view(table@), u@) {
            Some(t) => r is Some && r->0@ == t,
            None => r is None,
        },
{
    let ghost tv = table_view(table@);
    proof {
        assert(tv.skip(0) =~= tv);
    }
    let mut i: usize = 0;
    while i < table.len()
        invariant
            i <= table@.len(),
            tv == table_view(table@),
            tv.len() == table@.len(),
            lookup_title(tv, u@) == lookup_title(tv.skip(i as int), u@),
            forall|j: int| 0 <= j < tv.len() ==> #[trigger] tv[j]
                == (table@[j].0@, opt_chars_view(table@[j].1)),
        decreases table.len() - i,
    {
        let key = &table[i].0;
        if crate::text::chars_eq(key, u) {
            proof {
                assert(tv.skip(i as int)[0] == tv[i as int]);
                assert(lookup_title(tv.skip(i as int), u@) == tv[i as int].1);
            }
            return match &table[i].1 {
                Some(t) => Some(t),
                None => None,
            };
        }
        proof {
            assert(tv.skip(i as int)[0] == tv[i as int]);
            assert(tv.skip(i as int).drop_first() =~= tv.skip(i + 1 as int));
        }
        i = i + 1;
    }
    proof {
        assert(tv.skip(table@.len() as int) =~= Seq::<(Seq<char>, Option<Seq<char>>)>::empty());
    }
    None
}

/// The host portion of the hyperlink `u`, as [`host_of`] describes it.
fn host_of_exec(u: &Vec<char>) -> (r: Vec<char>)
    ensures
        r@ == host_of(u@),
{
    if u.len() == 0 {
        let r = crate::text::subvec(u, 0, u.len());
        proof {
            assert(r@ =~= u@);
        }
        return r;
    }
    let k = scheme_len_at(u, 0);
    if k == 0 {
        let r = crate::text::subvec(u, 0, u.len());
        proof {
            assert(r@ =~= u@);
        }
        return r;
    }
    let mut h: usize = k;
    while h < u.len() && u[h] != '/'
        invariant
            k <= h <= u@.len(),
            nonslash_run_len(u@, k as int) == (h - k) + nonslash_run_len(u@, h as int),
            forall|m: int| k <= m < h ==> u@[m] != '/',
        decreases u.len() - h,
    {
        h = h + 1;
    }
    proof {
        assert(nonslash_run_len(u@, h as int) == 0);
        assert(nonslash_run_len(u@, k as int) == h - k);
    }
    crate::text::subvec(u, k, h)
}

/// Every hyperlink run of `v`, in text order; what the title resolver is
/// asked to fetch.
pub fn extract_urls(v: &Vec<char>) -> (r: Vec<Vec<char>>)
    ensures
        r@.map_values(|u: Vec<char>| u@) == urls_from(v@, 0),
{
    let mut out: Vec<Vec<char>> = Vec::new();
    proof {
        assert(out@.map_values(|x: Vec<char>| x@) =~= Seq::<Seq<char>>::empty());
        assert(Seq::<Seq<char>>::empty() + urls_from(v@, 0) =~= urls_from(v@, 0));
    }
    let mut i: usize = 0;
    while i < v.len()
        invariant
            i <= v@.len(),
            urls_from(v@, 0) == out@.map_values(|u: Vec<char>| u@) + urls_from(v@, i as int),
        decreases v.len() - i,
    {
        let k = scheme_len_at(v, i);
        if k > 0 && i + k < v.len() && !ws_char(v[i + k]) {
            proof {
                assert(url_at(v@, i as int));
            }
            let mut e: usize = i + k;
            while e < v.len() && !ws_char(v[e])
                invariant
                    i + k <= e <= v@.len(),
                    nonws_run_len(v@, i + k as int) == (e - i - k) + nonws_run_len(v@, e as int),
                decreases v.len() - e,
            {
                e = e + 1;
            }
            proof {
                assert(nonws_run_len(v@, e as int) == 0);
                assert(nonws_run_len(v@, i + k as int) == e - i - k);
            }
            let u = crate::text::subvec(v, i, e);
            out.push(u);
            proof {
                assert(out@.map_values(|x: Vec<char>| x@)
                    =~= out@.drop_last().map_values(|x: Vec<char>| x@).push(u@));
                assert(urls_from(v@, i as int)
                    == seq![v@.subrange(i as int, e as int)] + urls_from(v@, e as int));
                assert(out@.map_values(|x: Vec<char>| x@) + urls_from(v@, e as int)
                    =~= out@.drop_last().map_values(|x: Vec<char>| x@) + urls_from(v@, i as int));
            }
            i = e;
        } else {
            proof {
                assert(!url_at(v@, i as int));
                assert(urls_from(v@, i as int) == urls_from(v@, i + 1 as int));
            }
            i = i + 1;
        }
    }
    proof {
        assert(urls_from(v@, v@.len() as int) =~= Seq::<Seq<char>>::empty());
        assert(out@.map_values(|x: Vec<char>| x@) + Seq::<Seq<char>>::empty()
            =~= out@.map_values(|x: Vec<char>| x@));
    }
    out
}

/// The text with every hyperlink run replaced by its annotation.
pub fn rewrite_urls(v: &Vec<char>, table: &Vec<(Vec<char>, Option<Vec<char>>)>) -> (r: Vec<char>)
    ensures
        r@ == rewrite_urls_spec(v@, table_view(table@)),
{
    let ghost t = table_view(table@);
    let mut out: Vec<char> = Vec::new();
    proof {
        assert(Seq::<char>::empty() + rewrite_urls_from(v@, 0, t) =~= rewrite_urls_from(v@, 0, t));
    }
    let mut i: usize = 0;
    while i < v.len()
        invariant
            i <= v@.len(),
            t == table_view(table@),
            rewrite_urls_from(v@, 0, t) == out@ + rewrite_urls_from(v@, i as int, t),
        decreases v.len() - i,
    {
        let k = scheme_len_at(v, i);
        if k > 0 && i + k < v.len() && !ws_char(v[i + k]) {
            proof {
                assert(url_at(v@, i as int));
            }
            let mut e: usize = i + k;
            while e < v.len() && !ws_char(v[e])
                invariant
                    i + k <= e <= v@.len(),
                    nonws_run_len(v@, i + k as int) == (e - i - k) + nonws_run_len(v@, e as int),
                decreases v.len() - e,
            {
                e = e + 1;
            }
            proof {
                assert(nonws_run_len(v@, e as int) == 0);
                assert(nonws_run_len(v@, i + k as int) == e - i - k);
            }
            let u = crate::text::subvec(v, i, e);
            let host = host_of_exec(&u);
            let title = lookup_title_exec(table, &u);
            let ghost before = out@;
            push_str_chars(&mut out, "(link: ");
            crate::text::push_all(&mut out, &host);
            match title {
                Some(tt) => {
                    push_str_chars(&mut out, ", ");
                    crate::text::push_all(&mut out, tt);
                    push_str_chars(&mut out, ")");
                    proof {
                        assert(out@ =~= before + link_annotation(u@, t));
                    }
                }
                None => {
                    push_str_chars(&mut out, ")");
                    proof {
                        assert(out@ =~= before + link_annotation(u@, t));
                    }
                }
            }
            proof {
                assert(rewrite_urls_from(v@, i as int, t)
                    == link_annotation(v@.subrange(i as int, e as int), t)
                        + rewrite_urls_from(v@, e as int, t));
                assert(out@ + rewrite_urls_from(v@, e as int, t)
                    =~= before + rewrite_urls_from(v@, i as int, t));
            }
            i = e;
        } else {
            proof {
                assert(!url_at(v@, i as int));
                assert(rewrite_urls_from(v@, i as int, t)
                    == seq![v@[i as int]] + rewrite_urls_from(v@, i + 1 as int, t));
            }
            let ghost before = out@;
            out.push(v[i]);
            proof {
                assert(out@ + rewrite_urls_from(v@, i + 1 as int, t)
                    =~= before + rewrite_urls_from(v@, i as int, t));
            }
            i = i + 1;
        }
    }
    proof {
        assert(rewrite_urls_from(v@, v@.len() as int, t) =~= Seq::<char>::empty());
        assert(out@ + Seq::<char>::empty() =~= out@);
    }
    out
}

// ---------------------------------------------------------------------------
// Step: emoji font wrapping.
//
// Maximal runs of Unicode extended-pictographic characters are wrapped in an
// inline font switch so emoji render with the emoji-capable typeface.
// ---------------------------------------------------------------------------

/// Membership of a character at or above U+00A9 in the Unicode
/// `Extended_Pictographic` table.
pub uninterp spec fn ext_pictographic_table(c: char) -> bool;

/// The character has the Unicode `Extended_Pictographic` property.  The
/// property's table holds no code point below U+00A9, so every character
/// under that bound — all of ASCII among them — lacks the property.
pub open spec fn is_ext_pictographic(c: char) -> bool {
    c as u32 >= 0xA9 && ext_pictographic_table(c)
}

/// Relies on `regex`: the class `\p{Extended_Pictographic}` matches exactly
/// the characters with that Unicode property; whether one character has the
/// property depends on that character alone, and the property's table
/// starts at U+00A9.
#[verifier::external_body]
fn emoji_char(c: char) -> (r: bool)
    ensures
        r == (c as u32 >= 0xA9 && ext_pictographic_table(c)),
        r == is_ext_pictographic(c),
{
    let mut buf = [0u8; 4];
    regex::Regex::new(r"\A\p{Extended_Pictographic}\z")
        .expect("the pictographic class is a valid pattern")
        .is_match(c.encode_utf8(&mut buf))
}

/// Number of consecutive extended-pictographic characters starting at `i`.
pub open spec fn pict_run_len(s: Seq<char>, i: int) -> int
    decreases s.len() - i when 0 <= i <= s.len()
{
    if i >= s.len() || !is_ext_pictographic(s[i]) {
        0
    } else {
        1 + pict_run_len(s, i + 1)
    }
}

pub proof fn lemma_pict_run_len_bounds(s: Seq<char>, i: int)
    requires
        0 <= i <= s.len(),
    ensures
        0 <= pict_run_len(s, i) <= s.len() - i,
    decreases s.len() - i,
{
    if i < s.len() && is_ext_pictographic(s[i]) {
        lemma_pict_run_len_bounds(s, i + 1);
    }
}

/// The text from position `i` on, with every maximal emoji run wrapped in
/// the emoji font switch.
pub open spec fn wrap_emoji_from(s: Seq<char>, i: int) -> Seq<char>
    decreases s.len() - i when 0 <= i <= s.len() via wrap_emoji_from_decreases
{
    if i >= s.len() {
        Seq::empty()
    } else if is_ext_pictographic(s[i]) {
        let e = i + pict_run_len(s, i);
        "{\\emojifont "@ + s.subrange(i, e) + "}"@ + wrap_emoji_from(s, e)
    } else {
        seq![s[i]] + wrap_emoji_from(s, i + 1)
    }
}

#[via_fn]
proof fn wrap_emoji_from_decreases(s: Seq<char>, i: int) {
    if 0 <= i < s.len() && is_ext_pictographic(s[i]) {
        lemma_pict_run_len_bounds(s, i + 1);
        assert(pict_run_len(s, i) == 1 + pict_run_len(s, i + 1));
    }
}

/// The whole text with emoji runs font-wrapped.
pub open spec fn wrap_emoji_spec(s: Seq<char>) -> Seq<char> {
    wrap_emoji_from(s, 0)
}

pub fn wrap_emoji(v: &Vec<char>) -> (r: Vec<char>)
    ensures
        r@ == wrap_emoji_spec(v@),
{
    let mut out: Vec<char> = Vec::new();
    proof {
        assert(Seq::<char>::empty() + wrap_emoji_from(v@, 0) =~= wrap_emoji_from(v@, 0));
    }
    let mut i: usize = 0;
    while i < v.len()
        invariant
            i <= v@.len(),
            wrap_emoji_from(v@, 0) == out@ + wrap_emoji_from(v@, i as int),
        decreases v.len() - i,
    {
        let ghost before = out@;
        if emoji_char(v[i]) {
            let mut e: usize = i + 1;
            proof {
                assert(pict_run_len(v@, i as int) == 1 + pict_run_len(v@, i + 1 as int));
            }
            while e < v.len() && emoji_char(v[e])
                invariant
                    i < e <= v@.len(),
                    pict_run_len(v@, i as int) == (e - i) + pict_run_len(v@, e as int),
                decreases v.len() - e,
            {
                e = e + 1;
            }
            proof {
                assert(pict_run_len(v@, e as int) == 0);
                assert(pict_run_len(v@, i as int) == e - i);
            }
            let run = crate::text::subvec(v, i, e);
            push_str_chars(&mut out, "{\\emojifont ");
            crate::text::push_all(&mut out, &run);
            push_str_chars(&mut out, "}");
            proof {
                assert(wrap_emoji_from(v@, i as int)
                    == "{\\emojifont "@ + v@.subrange(i as int, e as int) + "}"@
                        + wrap_emoji_from(v@, e as int));
                assert(out@ + wrap_emoji_from(v@, e as int)
                    =~= before + wrap_emoji_from(v@, i as int));
            }
            i = e;
        } else {
            out.push(v[i]);
            proof {
                assert(wrap_emoji_from(v@, i as int)
                    == seq![v@[i as int]] + wrap_emoji_from(v@, i + 1 as int));
                assert(out@ + wrap_emoji_from(v@, i + 1 as int)
                    =~= before + wrap_emoji_from(v@, i as int));
            }
            i = i + 1;
        }
    }
    proof {
        assert(wrap_emoji_from(v@, v@.len() as int) =~= Seq::<char>::empty());
        assert(out@ + Seq::<char>::empty() =~= out@);
    }
    out
}

// ---------------------------------------------------------------------------
// Title vetting: fetched page titles that indicate a failed or blocked fetch
// are discarded, and surviving titles are flattened to one line.
// ---------------------------------------------------------------------------

/// `p` occurs in `s` starting at position `j`.
pub open spec fn occurs_at(s: Seq<char>, j: int, p: Seq<char>) -> bool {
    &&& 0 <= j
    &&& j + p.len() <= s.len()
    &&& forall|m: int| 0 <= m < p.len() ==> s[j + m] == p[m]
}

/// `p` occurs somewhere in `s`.
pub open spec fn contains_sub(s: Seq<char>, p: Seq<char>) -> bool {
    exists|j: int| occurs_at(s, j, p)
}

/// The title fragments that mark a failed or blocked fetch rather than real
/// page content.
pub open spec fn undesired_titles() -> Seq<Seq<char>> {
    seq![
        "Page Not Found"@,
        "Access Denied"@,
        "Access to this page has been denied"@,
        "404"@,
        "404 not found"@,
        "Update Your Browser | Facebook"@,
        "403 Forbidden"@,
        "400 Bad Request"@,
        "Blocked"@,
    ]
}

/// The title contains one of the undesired fragments.
pub open spec fn excluded_title(t: Seq<char>) -> bool {
    exists|i: int| 0 <= i < undesired_titles().len()
        && contains_sub(t, #[trigger] undesired_titles()[i])
}

pub fn occurs_at_exec(h: &Vec<char>, j: usize, n: &Vec<char>) -> (r: bool)
    requires
        j + n@.len() <= h@.len(),
    ensures
        r == occurs_at(h@, j as int, n@),
{
    let hlen = h.len();
    let mut m: usize = 0;
    while m < n.len()
        invariant
            m <= n@.len(),
            j + n@.len() <= h@.len(),
            hlen == h@.len(),
            forall|x: int| 0 <= x < m ==> h@[j + x] == n@[x],
        decreases n.len() - m,
    {
        proof {
            assert(j + m < h@.len());
        }
        if h[j + m] != n[m] {
            return false;
        }
        m = m + 1;
    }
    true
}

/// `needle` occurs somewhere in `hay`.
fn contains_chars(hay: &Vec<char>, needle: &Vec<char>) -> (r: bool)
    ensures
        r == contains_sub(hay@, needle@),
{
    if needle.len() > hay.len() {
        proof {
            assert(forall|j: int| !occurs_at(hay@, j, needle@));
        }
        return false;
    }
    let mut j: usize = 0;
    while j <= hay.len() - needle.len()
        invariant
            needle@.len() <= hay@.len(),
            j <= hay@.len() - needle@.len() + 1,
            forall|x: int| 0 <= x < j ==> !occurs_at(hay@, x, needle@),
        decreases hay@.len() + 1 - j,
    {
        if occurs_at_exec(hay, j, needle) {
            return true;
        }
        j = j + 1;
    }
    proof {
        assert(forall|x: int| occurs_at(hay@, x, needle@)
            ==> 0 <= x <= hay@.len() - needle@.len());
    }
    false
}

/// The title contains one of the undesired fragments.
pub fn excluded_title_exec(t: &Vec<char>) -> (r: bool)
    ensures
        r == excluded_title(t@),
{
    let fragments: [&str; 9] = [
        "Page Not Found",
        "Access Denied",
        "Access to this page has been denied",
        "404",
        "404 not found",
        "Update Your Browser | Facebook",
        "403 Forbidden",
        "400 Bad Request",
        "Blocked",
    ];
    let mut i: usize = 0;
    while i < 9
        invariant
            i <= 9,
            fragments@.len() == 9,
            forall|x: int| 0 <= x < 9 ==> #[trigger] fragments@[x]@ == undesired_titles()[x],
            forall|x: int| 0 <= x < i ==> !contains_sub(t@, undesired_titles()[x]),
        decreases 9 - i,
    {
        let frag = crate::text::chars_of(fragments[i]);
        if contains_chars(t, &frag) {
            proof {
                assert(contains_sub(t@, undesired_titles()[i as int]));
            }
            return true;
        }
        i = i + 1;
    }
    false
}

/// Newlines and tabs replaced by spaces, so a title stays on one line.
pub open spec fn simplify_char(c: char) -> Seq<char> {
    if c == '\n' || c == '\t' {
        seq![' ']
    } else {
        seq![c]
    }
}

pub open spec fn simplify_f() -> spec_fn(char) -> Seq<char> {
    |c: char| simplify_char(c)
}

/// The title with newlines and tabs replaced by spaces.
pub open spec fn simplify_title_spec(s: Seq<char>) -> Seq<char> {
    char_expand(s, simplify_f())
}

pub fn simplify_title(v: &Vec<char>) -> (r: Vec<char>)
    ensures
        r@ == simplify_title_spec(v@),
{
    let mut out: Vec<char> = Vec::new();
    let mut i: usize = 0;
    while i < v.len()
        invariant
            i <= v.len(),
            out@ == char_expand(v@.take(i as int), simplify_f()),
        decreases v.len() - i,
    {
        let c = v[i];
        if c == '\n' || c == '\t' {
            out.push(' ');
        } else {
            out.push(c);
        }
        proof {
            lemma_char_expand_take_succ(v@, simplify_f(), i as int);
            assert(out@ =~= char_expand(v@.take(i as int), simplify_f())
                + simplify_char(v@[i as int]));
        }
        i = i + 1;
    }
    proof {
        assert(v@.take(v@.len() as int) =~= v@);
    }
    out
}

/// What a fetch outcome contributes to the title table: a failed fetch
/// contributes nothing, and so does a title on the exclusion list; any other
/// title is kept, flattened to one line.
pub open spec fn processed_title(o: Option<Seq<char>>) -> Option<Seq<char>> {
    match o {
        None => None,
        Some(t) => if excluded_title(t) {
            None
        } else {
            Some(simplify_title_spec(t))
        },
    }
}

/// Vet one fetch outcome, as [`processed_title`] describes.
pub fn process_title(o: Option<String>) -> (r: Option<String>)
    ensures
        opt_string_view(r) == processed_title(opt_string_view(o)),
{
    match o {
        None => None,
        Some(t) => {
            let cs = crate::text::chars_of(t.as_str());
            if excluded_title_exec(&cs) {
                None
            } else {
                let simplified = simplify_title(&cs);
                Some(crate::text::string_from_chars(&simplified))
            }
        }
    }
}

/// View of an optional string.
pub open spec fn opt_string_view(o: Option<String>) -> Option<Seq<char>> {
    match o {
        Some(s) => Some(s@),
        None => None,
    }
}

/// A fetched title on the exclusion list contributes exactly what a failed
/// fetch contributes: nothing.  A link with such a title therefore renders
/// identically to a link whose fetch failed outright.
pub proof fn lemma_excluded_title_like_failed_fetch(t: Seq<char>)
    requires
        excluded_title(t),
    ensures
        processed_title(Some(t)) == processed_title(None),
{
}

// ---------------------------------------------------------------------------
// The sanitizer pipeline.
// ---------------------------------------------------------------------------

/// View of a title table held as strings.
pub open spec fn title_table_view(
    t: Seq<(String, Option<String>)>,
) -> Seq<(Seq<char>, Option<Seq<char>>)> {
    t.map(|i: int, p: (String, Option<String>)| (p.0@, opt_string_view(p.1)))
}

/// The sanitized form of raw message text `s` under title table `t`:
/// smart characters normalized, hyperlinks annotated, markup characters
/// escaped, emoji variation selectors stripped, and emoji runs font-wrapped,
/// in that order.
pub open spec fn sanitize_spec(
    s: Seq<char>,
    t: Seq<(Seq<char>, Option<Seq<char>>)>,
) -> Seq<char> {
    wrap_emoji_spec(strip_spec(escape_spec(rewrite_urls_spec(normalize_spec(s), t))))
}

/// Sanitize raw message text for the typesetting target.  `titles` maps each
/// hyperlink to its vetted title, when one was resolved.
pub fn sanitize(text: &str, titles: &Vec<(String, Option<String>)>) -> (r: String)
    ensures
        r@ == sanitize_spec(text@, title_table_view(titles@)),
{
    let mut table: Vec<(Vec<char>, Option<Vec<char>>)> = Vec::new();
    let mut i: usize = 0;
    while i < titles.len()
        invariant
            i <= titles@.len(),
            table@.len() == i,
            forall|j: int| 0 <= j < i ==> #[trigger] table@[j].0@ == titles@[j].0@
                && opt_chars_view(table@[j].1) == opt_string_view(titles@[j].1),
        decreases titles.len() - i,
    {
        let key = crate::text::chars_of(titles[i].0.as_str());
        let value: Option<Vec<char>> = match &titles[i].1 {
            Some(t) => Some(crate::text::chars_of(t.as_str())),
            None => None,
        };
        table.push((key, value));
        i = i + 1;
    }
    proof {
        assert(table_view(table@) =~= title_table_view(titles@));
    }
    let raw = crate::text::chars_of(text);
    let normalized = normalize_text(&raw);
    let linked = rewrite_urls(&normalized, &table);
    let escaped = escape_text(&linked);
    let stripped = strip_variation_selectors(&escaped);
    let wrapped = wrap_emoji(&stripped);
    crate::text::string_from_chars(&wrapped)
}

/// The hyperlink runs of raw message text, in text order: what the caller's
/// title resolver is asked to fetch, before [`sanitize`] is called.
pub fn message_urls(text: &str) -> (r: Vec<String>)
    ensures
        r@.map_values(|s: String| s@) == urls_from(normalize_spec(text@), 0),
{
    let raw = crate::text::chars_of(text);
    let normalized = normalize_text(&raw);
    let urls = extract_urls(&normalized);
    let mut out: Vec<String> = Vec::new();
    let mut i: usize = 0;
    while i < urls.len()
        invariant
            i <= urls@.len(),
            out@.len() == i,
            forall|j: int| 0 <= j < i ==> #[trigger] out@[j]@ == urls@[j]@,
        decreases urls.len() - i,
    {
        out.push(crate::text::string_from_chars(&urls[i]));
        i = i + 1;
    }
    proof {
        assert(out@.map_values(|s: String| s@)
            =~= urls@.map_values(|u: Vec<char>| u@));
    }
    out
}

// ---------------------------------------------------------------------------
// Round-trip laws: on text with no markup to handle, the sanitizer is the
// identity beyond smart-character normalization.
// ---------------------------------------------------------------------------

pub proof fn lemma_rewrite_no_urls_identity(
    s: Seq<char>,
    i: int,
    t: Seq<(Seq<char>, Option<Seq<char>>)>,
)
    requires
        0 <= i <= s.len(),
        forall|j: int| 0 <= j < s.len() ==> !url_at(s, j),
    ensures
        rewrite_urls_from(s, i, t) == s.skip(i),
    decreases s.len() - i,
{
    if i >= s.len() {
        assert(rewrite_urls_from(s, i, t) =~= s.skip(i));
    } else {
        lemma_rewrite_no_urls_identity(s, i + 1, t);
        assert(!url_at(s, i));
        assert(rewrite_urls_from(s, i, t) == seq![s[i]] + s.skip(i + 1));
        assert(seq![s[i]] + s.skip(i + 1) =~= s.skip(i));
    }
}

pub proof fn lemma_wrap_no_emoji_identity(s: Seq<char>, i: int)
    requires
        0 <= i <= s.len(),
        forall|j: int| 0 <= j < s.len() ==> !is_ext_pictographic(#[trigger] s[j]),
    ensures
        wrap_emoji_from(s, i) == s.skip(i),
    decreases s.len() - i,
{
    if i >= s.len() {
        assert(wrap_emoji_from(s, i) =~= s.skip(i));
    } else {
        lemma_wrap_no_emoji_identity(s, i + 1);
        assert(!is_ext_pictographic(s[i]));
        assert(wrap_emoji_from(s, i) == seq![s[i]] + s.skip(i + 1));
        assert(seq![s[i]] + s.skip(i + 1) =~= s.skip(i));
    }
}

pub proof fn lemma_strip_plain_identity(s: Seq<char>)
    requires
        forall|i: int| 0 <= i < s.len() ==> s[i] != '\u{FE0F}',
    ensures
        strip_spec(s) == s,
{
    assert forall|i: int| 0 <= i < s.len() implies strip_f()(s[i]) == seq![s[i]] by {
        assert(s[i] != '\u{FE0F}');
    }
    lemma_char_expand_identity(s, strip_f());
}

/// Normalization leaves a string without smart typographic characters
/// unchanged.
pub proof fn lemma_normalize_plain_identity(s: Seq<char>)
    requires
        forall|i: int| 0 <= i < s.len() ==> s[i] != '\u{2019}' && s[i] != '\u{201C}'
            && s[i] != '\u{201D}' && s[i] != '\u{2026}',
    ensures
        normalize_spec(s) == s,
{
    assert forall|i: int| 0 <= i < s.len() implies norm_f()(s[i]) == seq![s[i]] by {
        assert(s[i] != '\u{2019}');
    }
    lemma_char_expand_identity(s, norm_f());
}

/// Normalization's replacement characters are the apostrophe, the plain
/// double quote and the full stop: ASCII that is neither markup control,
/// the variation selector, nor pictographic.  Those three absences
/// therefore survive normalization.
pub proof fn lemma_normalize_preserves_char_facts(s: Seq<char>)
    requires
        forall|i: int| 0 <= i < s.len() ==> !is_markup_control(#[trigger] s[i]),
        forall|i: int| 0 <= i < s.len() ==> #[trigger] s[i] != '\u{FE0F}',
        forall|i: int| 0 <= i < s.len() ==> !is_ext_pictographic(#[trigger] s[i]),
    ensures
        forall|j: int| 0 <= j < normalize_spec(s).len() ==> !is_markup_control(
            #[trigger] normalize_spec(s)[j],
        ),
        forall|j: int| 0 <= j < normalize_spec(s).len() ==> #[trigger] normalize_spec(s)[j]
            != '\u{FE0F}',
        forall|j: int| 0 <= j < normalize_spec(s).len() ==> !is_ext_pictographic(
            #[trigger] normalize_spec(s)[j],
        ),
    decreases s.len(),
{
    if s.len() > 0 {
        let tail = s.drop_first();
        lemma_normalize_preserves_char_facts(tail);
        let img = normalize_char(s[0]);
        let n = normalize_spec(s);
        assert(n == img + normalize_spec(tail));
        assert(!is_markup_control(s[0]) && s[0] != '\u{FE0F}' && !is_ext_pictographic(s[0]));
        assert forall|x: int| 0 <= x < img.len() implies !is_markup_control(#[trigger] img[x])
            && img[x] != '\u{FE0F}' && !is_ext_pictographic(img[x]) by {
            if s[0] == '\u{2019}' || s[0] == '\u{201C}' || s[0] == '\u{201D}'
                || s[0] == '\u{2026}' {
                assert(img[x] == '\'' || img[x] == '"' || img[x] == '.');
            } else {
                assert(img[x] == s[0]);
            }
        }
        assert forall|j: int| 0 <= j < n.len() implies !is_markup_control(#[trigger] n[j])
            && n[j] != '\u{FE0F}' && !is_ext_pictographic(n[j]) by {
            if j < img.len() {
                assert(n[j] == img[j]);
            } else {
                assert(n[j] == normalize_spec(tail)[j - img.len()]);
            }
        }
    }
}

/// Characters other than normalization's replacements reach the normalized
/// text only from themselves, in place: a prefix free of the replacement
/// characters is a prefix of the raw text too, and normalization resumes
/// beyond it.
proof fn lemma_normalize_prefix_transfer(s: Seq<char>, p: Seq<char>)
    requires
        forall|x: int| 0 <= x < p.len() ==> #[trigger] p[x] != '\'' && p[x] != '"'
            && p[x] != '.',
        p.len() <= normalize_spec(s).len(),
        forall|x: int| 0 <= x < p.len() ==> normalize_spec(s)[x] == #[trigger] p[x],
    ensures
        p.len() <= s.len(),
        forall|x: int| 0 <= x < p.len() ==> s[x] == #[trigger] p[x],
        normalize_spec(s.skip(p.len() as int)) == normalize_spec(s).skip(p.len() as int),
    decreases p.len(),
{
    let n = normalize_spec(s);
    if p.len() == 0 {
        assert(s.skip(0) =~= s);
        assert(n.skip(0) =~= n);
    } else {
        if s.len() == 0 {
            assert(n =~= Seq::<char>::empty());
            assert(false);
        }
        let img = normalize_char(s[0]);
        let tail = s.drop_first();
        assert(n == img + normalize_spec(tail));
        if s[0] == '\u{2019}' || s[0] == '\u{201C}' || s[0] == '\u{201D}'
            || s[0] == '\u{2026}' {
            assert(n[0] == img[0]);
            assert(img[0] == '\'' || img[0] == '"' || img[0] == '.');
            assert(p[0] == n[0]);
            assert(false);
        }
        assert(img =~= seq![s[0]]);
        assert(s[0] == n[0]);
        assert(s[0] == p[0]);
        let p2 = p.drop_first();
        let nt = normalize_spec(tail);
        assert(nt =~= n.drop_first());
        assert forall|x: int| 0 <= x < p2.len() implies nt[x] == #[trigger] p2[x] by {
            assert(p2[x] == p[x + 1]);
            assert(nt[x] == n[x + 1]);
        }
        assert forall|x: int| 0 <= x < p2.len() implies #[trigger] p2[x] != '\''
            && p2[x] != '"' && p2[x] != '.' by {
            assert(p2[x] == p[x + 1]);
        }
        lemma_normalize_prefix_transfer(tail, p2);
        assert forall|x: int| 0 <= x < p.len() implies s[x] == #[trigger] p[x] by {
            if x > 0 {
                assert(s[x] == tail[x - 1]);
                assert(tail[x - 1] == p2[x - 1]);
            }
        }
        assert(s.skip(p.len() as int) =~= tail.skip(p2.len() as int));
        assert(normalize_spec(tail.skip(p2.len() as int)) == nt.skip(p2.len() as int));
        assert(nt.skip(p2.len() as int) =~= n.skip(p.len() as int));
    }
}

/// A hyperlink in the normalized text marks a hyperlink in the raw text.
proof fn lemma_normalize_url_reflects(s: Seq<char>, j: int)
    requires
        url_at(normalize_spec(s), j),
    ensures
        exists|i: int| url_at(s, i),
    decreases s.len(),
{
    let n = normalize_spec(s);
    if s.len() == 0 {
        assert(n =~= Seq::<char>::empty());
        assert(false);
    }
    let img = normalize_char(s[0]);
    let tail = s.drop_first();
    let nt = normalize_spec(tail);
    assert(n == img + nt);
    if j >= img.len() {
        let j2 = j - img.len() as int;
        assert forall|x: int| 0 <= x < nt.len() implies n[x + img.len()] == #[trigger] nt[x] by {}
        if https_at(n, j) {
            assert(https_at(nt, j2));
        } else {
            assert(http_at(n, j));
            assert(http_at(nt, j2));
            if https_at(nt, j2) {
                assert(https_at(n, j));
                assert(false);
            }
        }
        assert(url_scheme_len(nt, j2) == url_scheme_len(n, j));
        assert(url_at(nt, j2));
        lemma_normalize_url_reflects(tail, j2);
        let i2 = choose|i: int| url_at(tail, i);
        if https_at(tail, i2) {
            assert(https_at(s, i2 + 1));
        } else {
            assert(http_at(tail, i2));
            assert(http_at(s, i2 + 1));
            if https_at(s, i2 + 1) {
                assert(https_at(tail, i2));
                assert(false);
            }
        }
        assert(url_scheme_len(s, i2 + 1) == url_scheme_len(tail, i2));
        assert(url_at(s, i2 + 1));
    } else {
        if s[0] == '\u{2019}' || s[0] == '\u{201C}' || s[0] == '\u{201D}'
            || s[0] == '\u{2026}' {
            assert(n[j] == img[j]);
            assert(img[j] == '\'' || img[j] == '"' || img[j] == '.');
            assert(n[j] == 'h');
            assert(false);
        }
        assert(img =~= seq![s[0]]);
        assert(j == 0);
        let k = url_scheme_len(n, 0);
        let p = n.subrange(0, k);
        assert forall|x: int| 0 <= x < p.len() implies #[trigger] p[x] != '\''
            && p[x] != '"' && p[x] != '.' by {
            assert(p[x] == n[x]);
            if https_at(n, 0) {
                assert(n[0] == 'h' && n[1] == 't' && n[2] == 't' && n[3] == 'p'
                    && n[4] == 's' && n[5] == ':' && n[6] == '/' && n[7] == '/');
            } else {
                assert(http_at(n, 0));
                assert(n[0] == 'h' && n[1] == 't' && n[2] == 't' && n[3] == 'p'
                    && n[4] == ':' && n[5] == '/' && n[6] == '/');
            }
        }
        assert(p.len() == k <= n.len());
        assert(forall|x: int| 0 <= x < p.len() ==> n[x] == #[trigger] p[x]);
        lemma_normalize_prefix_transfer(s, p);
        assert(normalize_spec(s.skip(k)) == n.skip(k));
        assert(n.skip(k).len() > 0);
        if s.skip(k).len() == 0 {
            assert(normalize_spec(s.skip(k)) =~= Seq::<char>::empty());
            assert(false);
        }
        let c = s.skip(k)[0];
        assert(normalize_spec(s.skip(k)) == normalize_char(c) + normalize_spec(
            s.skip(k).drop_first(),
        ));
        assert(n[k] == n.skip(k)[0]);
        assert(n.skip(k)[0] == normalize_char(c)[0]);
        assert(!is_url_ws(n[k]));
        if c == '\u{2019}' || c == '\u{201C}' || c == '\u{201D}' || c == '\u{2026}' {
            assert(!is_url_ws(c));
        } else {
            assert(normalize_char(c)[0] == c);
            assert(!is_url_ws(c));
        }
        assert(s[k] == c);
        if https_at(n, 0) {
            assert(p.len() == 8);
            assert(s[0] == p[0] && p[0] == n[0]);
            assert(s[1] == p[1] && p[1] == n[1]);
            assert(s[2] == p[2] && p[2] == n[2]);
            assert(s[3] == p[3] && p[3] == n[3]);
            assert(s[4] == p[4] && p[4] == n[4]);
            assert(s[5] == p[5] && p[5] == n[5]);
            assert(s[6] == p[6] && p[6] == n[6]);
            assert(s[7] == p[7] && p[7] == n[7]);
            assert(https_at(s, 0));
        } else {
            assert(http_at(n, 0));
            assert(p.len() == 7);
            assert(s[0] == p[0] && p[0] == n[0]);
            assert(s[1] == p[1] && p[1] == n[1]);
            assert(s[2] == p[2] && p[2] == n[2]);
            assert(s[3] == p[3] && p[3] == n[3]);
            assert(s[4] == p[4] && p[4] == n[4]);
            assert(s[5] == p[5] && p[5] == n[5]);
            assert(s[6] == p[6] && p[6] == n[6]);
            assert(http_at(s, 0));
            if https_at(s, 0) {
                assert(s[4] == 's');
                assert(false);
            }
        }
        assert(url_scheme_len(s, 0) == k);
        assert(url_at(s, 0));
    }
}

/// No hyperlink appears in the normalized text when none is in the raw
/// text.
pub proof fn lemma_normalize_preserves_no_urls(s: Seq<char>)
    requires
        forall|i: int| !url_at(s, i),
    ensures
        forall|j: int| !url_at(normalize_spec(s), j),
{
    assert forall|j: int| !url_at(normalize_spec(s), j) by {
        if url_at(normalize_spec(s), j) {
            lemma_normalize_url_reflects(s, j);
            let i = choose|i: int| url_at(s, i);
            assert(!url_at(s, i));
        }
    }
}

/// Sanitizer round trip: on text with no markup-control characters, no
/// hyperlink, no emoji variation selector and no extended-pictographic
/// character, sanitizing returns the text unchanged except for
/// smart-character normalization — whatever the title table says.
pub proof fn lemma_sanitize_round_trip(s: Seq<char>, t: Seq<(Seq<char>, Option<Seq<char>>)>)
    requires
        forall|i: int| 0 <= i < s.len() ==> !is_markup_control(#[trigger] s[i]),
        forall|i: int| 0 <= i < s.len() ==> !url_at(s, i),
        forall|i: int| 0 <= i < s.len() ==> #[trigger] s[i] != '\u{FE0F}',
        forall|i: int| 0 <= i < s.len() ==> !is_ext_pictographic(#[trigger] s[i]),
    ensures
        sanitize_spec(s, t) == normalize_spec(s),
{
    assert forall|i: int| !url_at(s, i) by {
        if url_at(s, i) {
            assert(0 <= i < s.len());
        }
    }
    lemma_normalize_preserves_char_facts(s);
    lemma_normalize_preserves_no_urls(s);
    let n = normalize_spec(s);
    assert(forall|j: int| 0 <= j < n.len() ==> !url_at(n, j));
    lemma_rewrite_no_urls_identity(n, 0, t);
    assert(n.skip(0) =~= n);
    assert(rewrite_urls_spec(n, t) == n);
    lemma_escape_plain_identity(n);
    lemma_strip_plain_identity(n);
    lemma_wrap_no_emoji_identity(n, 0);
    assert(wrap_emoji_spec(n) == n);
}

/// Full round trip: text with no smart typographic characters either is
/// returned by the sanitizer exactly as it came.
pub proof fn lemma_sanitize_identity(s: Seq<char>, t: Seq<(Seq<char>, Option<Seq<char>>)>)
    requires
        forall|i: int| 0 <= i < s.len() ==> s[i] != '\u{2019}' && s[i] != '\u{201C}'
            && s[i] != '\u{201D}' && s[i] != '\u{2026}',
        forall|i: int| 0 <= i < s.len() ==> !is_markup_control(#[trigger] s[i]),
        forall|i: int| 0 <= i < s.len() ==> !url_at(s, i),
        forall|i: int| 0 <= i < s.len() ==> #[trigger] s[i] != '\u{FE0F}',
        forall|i: int| 0 <= i < s.len() ==> !is_ext_pictographic(#[trigger] s[i]),
    ensures
        sanitize_spec(s, t) == s,
{
    lemma_normalize_plain_identity(s);
    lemma_sanitize_round_trip(s, t);
}

} // verus!
