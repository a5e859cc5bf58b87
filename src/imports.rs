//! The import resolver: which files the import statements of a text name.
use vstd::prelude::*;
use crate::filter::split_lines;
use crate::paths::{
    extension_dot, extension_of, join_chars, join_of, with_extension_chars, with_extension_of,
};
use crate::rules::{LanguageRule, rule_for, rule_of};
use crate::text::{chars_of, slice_chars, has_at, is_whitespace, is_ws, lines_of, skip_ws, starts_with, string_of, ws_end};

verus! {

pub open spec fn is_quote(c: char) -> bool {
    c == '"' || c == '\''
}

pub open spec fn is_name_start(c: char) -> bool {
    ('a' <= c && c <= 'z') || ('A' <= c && c <= 'Z') || c == '_'
}

/// A character of a dotted module name.
pub open spec fn is_name_char(c: char) -> bool {
    is_name_start(c) || ('0' <= c && c <= '9') || c == '.'
}

pub open spec fn import_kw() -> Seq<char> {
    seq!['i', 'm', 'p', 'o', 'r', 't']
}

pub open spec fn from_kw() -> Seq<char> {
    seq!['f', 'r', 'o', 'm']
}

pub open spec fn require_kw() -> Seq<char> {
    seq!['r', 'e', 'q', 'u', 'i', 'r', 'e', '(']
}

/// `kw` stands in `l` at index `i`.
pub open spec fn has(l: Seq<char>, i: int, kw: Seq<char>) -> bool {
    0 <= i <= l.len() && starts_with(l.skip(i), kw)
}

/// The first index at or after `j` that holds a quote (with `paren`, a quote
/// followed by `)`), or the length of `l`.
pub open spec fn closing_quote(l: Seq<char>, j: int, paren: bool) -> int
    decreases l.len() - j,
{
    if j < 0 || j >= l.len() {
        l.len() as int
    } else if is_quote(l[j]) && (!paren || (j + 1 < l.len() && l[j + 1] == ')')) {
        j
    } else {
        closing_quote(l, j + 1, paren)
    }
}

/// The text of a quoted string whose first character stands at `i`: at least
/// one character, up to the nearest closing quote of either kind.
pub open spec fn quoted_at(l: Seq<char>, i: int, paren: bool) -> Option<Seq<char>> {
    let k = closing_quote(l, i + 1, paren);
    if 0 <= i && k < l.len() {
        Some(l.subrange(i, k))
    } else {
        None
    }
}

/// A `from` clause at index `e` of a script import whose keyword ends at
/// `s`: whitespace before and after `from`, then a quoted path.
pub open spec fn from_at(l: Seq<char>, s: int, e: int) -> Option<Seq<char>> {
    if s < e && has(l, e, from_kw()) && e + 4 < l.len() && is_ws(l[e - 1]) && is_ws(l[e + 4]) {
        let q = ws_end(l, e + 4);
        if q < l.len() && is_quote(l[q]) {
            quoted_at(l, q + 1, false)
        } else {
            None
        }
    } else {
        None
    }
}

/// The first `from` clause at index `e` or later.
pub open spec fn first_from(l: Seq<char>, s: int, e: int) -> Option<Seq<char>>
    decreases l.len() - e,
{
    if 0 <= e < l.len() {
        match from_at(l, s, e) {
            Some(m) => Some(m),
            None => first_from(l, s, e + 1),
        }
    } else {
        None
    }
}

/// `require(` and a quoted path closed by `)` at index `p`.
pub open spec fn require_at(l: Seq<char>, p: int) -> Option<Seq<char>> {
    if has(l, p, require_kw()) && p + 8 < l.len() && is_quote(l[p + 8]) {
        quoted_at(l, p + 9, true)
    } else {
        None
    }
}

pub open spec fn first_require(l: Seq<char>, p: int) -> Option<Seq<char>>
    decreases l.len() - p,
{
    if 0 <= p < l.len() {
        match require_at(l, p) {
            Some(m) => Some(m),
            None => first_require(l, p + 1),
        }
    } else {
        None
    }
}

/// The path a script line imports: a line that opens with `import` takes
/// the path of its first `from` clause, else a quoted path right after the
/// keyword; failing that, the first `require("...")` of the line.
pub open spec fn script_import(l: Seq<char>) -> Option<Seq<char>> {
    let t = ws_end(l, 0);
    let by_import = if has(l, t, import_kw()) {
        let s = t + 6;
        match first_from(l, s, s) {
            Some(m) => Some(m),
            None => {
                let u = ws_end(l, s);
                if u < l.len() && is_quote(l[u]) {
                    quoted_at(l, u + 1, false)
                } else {
                    None
                }
            },
        }
    } else {
        None
    };
    match by_import {
        Some(m) => Some(m),
        None => first_require(l, 0),
    }
}

/// Where the dotted name that starts at `i` ends.
pub open spec fn name_end(l: Seq<char>, i: int) -> int
    decreases l.len() - i,
{
    if 0 <= i < l.len() && is_name_char(l[i]) {
        name_end(l, i + 1)
    } else {
        i
    }
}

/// `kw` at index `i`, whitespace, then a name: where that name starts.
pub open spec fn keyword_name(l: Seq<char>, i: int, kw: Seq<char>) -> Option<int> {
    if has(l, i, kw) && i + kw.len() < l.len() && is_ws(l[i + kw.len()]) {
        let a = ws_end(l, i + kw.len());
        if a < l.len() && is_name_start(l[a]) {
            Some(a)
        } else {
            None
        }
    } else {
        None
    }
}

/// `from <module> import <name>` after the indentation: the module.
pub open spec fn python_from(l: Seq<char>) -> Option<Seq<char>> {
    match keyword_name(l, ws_end(l, 0), from_kw()) {
        Some(a) => {
            let b = name_end(l, a);
            if b < l.len() && is_ws(l[b]) && keyword_name(l, ws_end(l, b), import_kw()) is Some {
                Some(l.subrange(a, b))
            } else {
                None
            }
        },
        None => None,
    }
}

pub open spec fn first_import(l: Seq<char>, p: int) -> Option<Seq<char>>
    decreases l.len() - p,
{
    if 0 <= p < l.len() {
        match keyword_name(l, p, import_kw()) {
            Some(a) => Some(l.subrange(a, name_end(l, a))),
            None => first_import(l, p + 1),
        }
    } else {
        None
    }
}

/// The module a Python line imports: that of a `from ... import ...` line,
/// else the name after the first `import` of the line.
pub open spec fn python_import(l: Seq<char>) -> Option<Seq<char>> {
    match python_from(l) {
        Some(m) => Some(m),
        None => first_import(l, 0),
    }
}

/// What a line of a file under `rule` imports.
pub open spec fn import_of(rule: LanguageRule, l: Seq<char>) -> Option<Seq<char>> {
    match rule {
        LanguageRule::Script => script_import(l),
        LanguageRule::Python => python_import(l),
        LanguageRule::PassThrough => None,
    }
}

pub open spec fn imports_under(rule: LanguageRule) -> spec_fn(Seq<char>) -> Option<Seq<char>> {
    |l: Seq<char>| import_of(rule, l)
}

/// The imported paths and modules of a text, one at most per line, in
/// document order.
pub open spec fn referenced(rule: LanguageRule, s: Seq<char>) -> Seq<Seq<char>> {
    lines_of(s).filter_map(imports_under(rule))
}

/// An import read from the directory `base`; without an extension it takes
/// the importing file's.
pub open spec fn resolved(base: Seq<char>, m: Seq<char>, ext: Seq<char>) -> Seq<char> {
    let p = join_of(base, m);
    if extension_of(p) is None {
        with_extension_of(p, ext)
    } else {
        p
    }
}

pub open spec fn resolver(base: Seq<char>, ext: Seq<char>) -> spec_fn(Seq<char>) -> Seq<char> {
    |m: Seq<char>| resolved(base, m, ext)
}

/// The files that the imports of `s` name, resolved from `base`, in order.
pub open spec fn candidates(rule: LanguageRule, base: Seq<char>, ext: Seq<char>, s: Seq<char>) -> Seq<
    Seq<char>,
> {
    referenced(rule, s).map_values(resolver(base, ext))
}

pub open spec fn views(v: Seq<String>) -> Seq<Seq<char>> {
    v.map_values(|x: String| x@)
}

/// The paths of `probed` whose existence answer is `want`, in order.
pub open spec fn answered(probed: Seq<(String, bool)>, want: bool) -> Seq<Seq<char>>
    decreases probed.len(),
{
    if probed.len() == 0 {
        seq![]
    } else {
        let rest = answered(probed.drop_last(), want);
        if probed.last().1 == want {
            rest.push(probed.last().0@)
        } else {
            rest
        }
    }
}

pub open spec fn opt_chars(o: Option<Vec<char>>) -> Option<Seq<char>> {
    match o {
        Some(v) => Some(v@),
        None => None,
    }
}

fn is_quote_char(c: char) -> (r: bool)
    ensures
        r == is_quote(c),
{
    c == '"' || c == '\''
}

fn closing_quote_in(l: &Vec<char>, j: usize, paren: bool) -> (r: usize)
    requires
        j <= l.len(),
    ensures
        r == closing_quote(l@, j as int, paren),
        j <= r <= l.len(),
{
    let mut k = j;
    while k < l.len() && !(is_quote_char(l[k]) && (!paren || (k + 1 < l.len() && l[k + 1]
        == ')')))
        invariant
            j <= k <= l.len(),
            closing_quote(l@, j as int, paren) == closing_quote(l@, k as int, paren),
        decreases l.len() - k,
    {
        k += 1;
    }
    k
}

fn quoted_in(l: &Vec<char>, i: usize, paren: bool) -> (r: Option<Vec<char>>)
    requires
        i <= l.len(),
    ensures
        opt_chars(r) == quoted_at(l@, i as int, paren),
{
    if i >= l.len() {
        return None;
    }
    let k = closing_quote_in(l, i + 1, paren);
    if k < l.len() {
        Some(slice_chars(l, i, k))
    } else {
        None
    }
}

fn from_in(l: &Vec<char>, s: usize, e: usize, from: &Vec<char>) -> (r: Option<Vec<char>>)
    requires
        e < l.len(),
        from@ == from_kw(),
    ensures
        opt_chars(r) == from_at(l@, s as int, e as int),
{
    if s < e && has_at(l, e, from) && e + 4 < l.len() && is_whitespace(l[e - 1]) && is_whitespace(
        l[e + 4],
    ) {
        let q = skip_ws(l, e + 4);
        if q < l.len() && is_quote_char(l[q]) {
            quoted_in(l, q + 1, false)
        } else {
            None
        }
    } else {
        None
    }
}

fn script_import_in(l: &Vec<char>) -> (r: Option<Vec<char>>)
    ensures
        opt_chars(r) == script_import(l@),
{
    let import = vec!['i', 'm', 'p', 'o', 'r', 't'];
    let from = vec!['f', 'r', 'o', 'm'];
    let require = vec!['r', 'e', 'q', 'u', 'i', 'r', 'e', '('];
    assert(import@ == import_kw() && from@ == from_kw() && require@ == require_kw());
    let t = skip_ws(l, 0);
    if has_at(l, t, &import) {
        let s = t + 6;
        let mut e = s;
        while e < l.len()
            invariant
                s <= e,
                s == t + 6 <= l.len(),
                t == ws_end(l@, 0),
                has(l@, t as int, import_kw()),
                from@ == from_kw(),
                first_from(l@, s as int, s as int) == first_from(l@, s as int, e as int),
            decreases l.len() - e,
        {
            let m = from_in(l, s, e, &from);
            if m.is_some() {
                return m;
            }
            e += 1;
        }
        let u = skip_ws(l, s);
        if u < l.len() && is_quote_char(l[u]) {
            let m = quoted_in(l, u + 1, false);
            if m.is_some() {
                return m;
            }
        }
    }
    let mut p: usize = 0;
    while p < l.len()
        invariant
            require@ == require_kw(),
            script_import(l@) == first_require(l@, p as int),
        decreases l.len() - p,
    {
        if has_at(l, p, &require) && p + 8 < l.len() && is_quote_char(l[p + 8]) {
            let m = quoted_in(l, p + 9, true);
            if m.is_some() {
                return m;
            }
        }
        p += 1;
    }
    None
}

fn name_end_in(l: &Vec<char>, i: usize) -> (r: usize)
    requires
        i <= l.len(),
    ensures
        r == name_end(l@, i as int),
        i <= r <= l.len(),
{
    let mut k = i;
    while k < l.len() && (('a' <= l[k] && l[k] <= 'z') || ('A' <= l[k] && l[k] <= 'Z') || l[k]
        == '_' || ('0' <= l[k] && l[k] <= '9') || l[k] == '.')
        invariant
            i <= k <= l.len(),
            name_end(l@, i as int) == name_end(l@, k as int),
        decreases l.len() - k,
    {
        k += 1;
    }
    k
}

fn keyword_name_in(l: &Vec<char>, i: usize, kw: &Vec<char>) -> (r: Option<usize>)
    requires
        i <= l.len(),
    ensures
        match r {
            Some(a) => keyword_name(l@, i as int, kw@) == Some(a as int) && a < l.len(),
            None => keyword_name(l@, i as int, kw@) is None,
        },
{
    if has_at(l, i, kw) && kw.len() < l.len() - i && is_whitespace(l[i + kw.len()]) {
        let a = skip_ws(l, i + kw.len());
        if a < l.len() && (('a' <= l[a] && l[a] <= 'z') || ('A' <= l[a] && l[a] <= 'Z') || l[a]
            == '_') {
            Some(a)
        } else {
            None
        }
    } else {
        None
    }
}

fn python_import_in(l: &Vec<char>) -> (r: Option<Vec<char>>)
    ensures
        opt_chars(r) == python_import(l@),
{
    let import = vec!['i', 'm', 'p', 'o', 'r', 't'];
    let from = vec!['f', 'r', 'o', 'm'];
    assert(import@ == import_kw() && from@ == from_kw());
    let t = skip_ws(l, 0);
    if let Some(a) = keyword_name_in(l, t, &from) {
        let b = name_end_in(l, a);
        if b < l.len() && is_whitespace(l[b]) {
            let c = skip_ws(l, b);
            if keyword_name_in(l, c, &import).is_some() {
                return Some(slice_chars(l, a, b));
            }
        }
    }
    let mut p: usize = 0;
    while p < l.len()
        invariant
            import@ == import_kw(),
            python_import(l@) == first_import(l@, p as int),
        decreases l.len() - p,
    {
        if let Some(a) = keyword_name_in(l, p, &import) {
            let b = name_end_in(l, a);
            return Some(slice_chars(l, a, b));
        }
        p += 1;
    }
    None
}

/// What `line` imports under `rule`.
pub fn import_in_line(rule: LanguageRule, line: &Vec<char>) -> (r: Option<Vec<char>>)
    ensures
        opt_chars(r) == import_of(rule, line@),
{
    match rule {
        LanguageRule::Script => script_import_in(line),
        LanguageRule::Python => python_import_in(line),
        LanguageRule::PassThrough => None,
    }
}

fn resolve_in(base: &Vec<char>, m: &Vec<char>, ext: &Vec<char>) -> (r: Vec<char>)
    ensures
        r@ == resolved(base@, m@, ext@),
{
    let p = join_chars(base, m);
    if extension_dot(&p).is_none() {
        with_extension_chars(&p, ext)
    } else {
        p
    }
}

/// The files that the imports of `content` name, read from `base_path` and
/// given the extension of the importing file where they have none, in
/// document order; `None` where the extension has no import rule. Whether
/// they exist is for the caller to find out (see `keep_existing`).
pub fn import_candidates(content: &str, base_path: &str, extension: &str) -> (r: Option<
    Vec<String>,
>)
    ensures
        r is None <==> rule_of(extension@) == LanguageRule::PassThrough,
        r matches Some(v) ==> views(v@) == candidates(
            rule_of(extension@),
            base_path@,
            extension@,
            content@,
        ),
{
    let rule = rule_for(extension);
    if rule == LanguageRule::PassThrough {
        return None;
    }
    let base = chars_of(base_path);
    let ext = chars_of(extension);
    let text = chars_of(content);
    let lines = split_lines(&text);
    let ghost ls = lines_of(content@);
    let ghost f = imports_under(rule);
    let ghost g = resolver(base_path@, extension@);
    let mut out: Vec<String> = Vec::new();
    let mut i: usize = 0;
    while i < lines.len()
        invariant
            i <= lines.len() == ls.len(),
            ls == lines_of(content@),
            text@ == content@,
            base@ == base_path@,
            ext@ == extension@,
            f == imports_under(rule),
            g == resolver(base_path@, extension@),
            forall|j: int| 0 <= j < lines.len() ==> (#[trigger] lines[j])@ == ls[j],
            views(out@) == ls.take(i as int).filter_map(f).map_values(g),
        decreases lines.len() - i,
    {
        assert(ls.take(i + 1).drop_last() =~= ls.take(i as int));
        reveal_with_fuel(Seq::filter_map, 1);
        let found = import_in_line(rule, &lines[i]);
        match found {
            Some(m) => {
                let p = resolve_in(&base, &m, &ext);
                let ghost before = ls.take(i as int).filter_map(f);
                assert(ls.take(i + 1).filter_map(f) == before + seq![m@]);
                let ps = string_of(&p, 0, p.len());
                assert(p@.subrange(0, p@.len() as int) =~= p@);
                assert(ps@ == g(m@));
                let ghost old_out = out@;
                out.push(ps);
                assert(views(out@) =~= views(old_out).push(ps@));
                assert(views(out@) =~= (before + seq![m@]).map_values(g));
            },
            None => {
                assert(ls.take(i + 1).filter_map(f) == ls.take(i as int).filter_map(f));
            },
        }
        i += 1;
    }
    assert(ls.take(i as int) =~= ls);
    Some(out)
}

/// The outcome of probing the import candidates of a file.
pub struct ImportScan {
    /// The candidates that exist, in order.
    pub found: Vec<String>,
    /// The candidates that do not: one warning each.
    pub missing: Vec<String>,
}

/// Each path among the found ones was probed and found to exist, and each
/// one among the missing ones was probed and found absent: no path that does
/// not exist is ever returned, and each one that does not gets a warning.
pub proof fn lemma_answer_probed(probed: Seq<(String, bool)>, want: bool, i: int)
    requires
        0 <= i < answered(probed, want).len(),
    ensures
        exists|j: int|
            0 <= j < probed.len() && (#[trigger] probed[j]).1 == want && probed[j].0@ == answered(
                probed,
                want,
            )[i],
    decreases probed.len(),
{
    let rest = probed.drop_last();
    if i < answered(rest, want).len() {
        lemma_answer_probed(rest, want, i);
        let j = choose|j: int|
            0 <= j < rest.len() && (#[trigger] rest[j]).1 == want && rest[j].0@ == answered(
                rest,
                want,
            )[i];
        assert(probed[j] == rest[j]);
    } else {
        let j = probed.len() - 1;
        assert(probed[j].1 == want && probed[j].0@ == answered(probed, want)[i]);
    }
}

/// Splits probed candidates by their existence answer, keeping their order:
/// a path that does not exist is never among the found ones.
pub fn keep_existing(probed: &Vec<(String, bool)>) -> (r: ImportScan)
    ensures
        views(r.found@) == answered(probed@, true),
        views(r.missing@) == answered(probed@, false),
{
    let mut found: Vec<String> = Vec::new();
    let mut missing: Vec<String> = Vec::new();
    let mut i: usize = 0;
    while i < probed.len()
        invariant
            i <= probed.len(),
            views(found@) == answered(probed@.take(i as int), true),
            views(missing@) == answered(probed@.take(i as int), false),
        decreases probed.len() - i,
    {
        assert(probed@.take(i + 1).drop_last() =~= probed@.take(i as int));
        let path = probed[i].0.clone();
        if probed[i].1 {
            found.push(path);
            assert(views(found@) =~= answered(probed@.take(i + 1), true));
            assert(views(missing@) =~= answered(probed@.take(i + 1), false));
        } else {
            missing.push(path);
            assert(views(found@) =~= answered(probed@.take(i + 1), true));
            assert(views(missing@) =~= answered(probed@.take(i + 1), false));
        }
        i += 1;
    }
    assert(probed@.take(i as int) =~= probed@);
    ImportScan { found, missing }
}

} // verus!
