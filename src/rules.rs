//! The pattern registry: which lines of a language are debug statements.
use vstd::prelude::*;
use crate::text::{
    chars_of, has_at, is_ws, lemma_ws_prefix, lemma_ws_prefix_bound, skip_ws, starts_with, trim_start,
    ws_prefix,
};

verus! {

/// How the lines of a file are read, chosen by its extension.
#[derive(PartialEq, Eq, Structural, Clone, Copy, Debug)]
pub enum LanguageRule {
    /// `js` and `ts`: `console.log(...)` statements, `import` and `require`.
    Script,
    /// `py`: `print(...)` statements, `from ... import` and `import`.
    Python,
    /// Any other extension: nothing is removed and imports are not followed.
    PassThrough,
}

pub open spec fn rule_of(ext: Seq<char>) -> LanguageRule {
    if ext == seq!['j', 's'] || ext == seq!['t', 's'] {
        LanguageRule::Script
    } else if ext == seq!['p', 'y'] {
        LanguageRule::Python
    } else {
        LanguageRule::PassThrough
    }
}

pub open spec fn console_log() -> Seq<char> {
    seq!['c', 'o', 'n', 's', 'o', 'l', 'e', '.', 'l', 'o', 'g', '(']
}

pub open spec fn print_call() -> Seq<char> {
    seq!['p', 'r', 'i', 'n', 't', '(']
}

/// What may follow the closing parenthesis of a `console.log` call: one
/// optional `;`, whitespace, and an optional `//` comment.
pub open spec fn script_tail(u: Seq<char>) -> bool {
    let v = if u.len() > 0 && u[0] == ';' {
        u.drop_first()
    } else {
        u
    };
    let w = trim_start(v);
    w.len() == 0 || starts_with(w, seq!['/', '/'])
}

/// What may follow the closing parenthesis of a `print` call: whitespace and
/// an optional `#` comment.
pub open spec fn python_tail(u: Seq<char>) -> bool {
    let w = trim_start(u);
    w.len() == 0 || w[0] == '#'
}

/// The opening of the language's debug call.
pub open spec fn opener(rule: LanguageRule) -> Seq<char> {
    match rule {
        LanguageRule::Script => console_log(),
        LanguageRule::Python => print_call(),
        LanguageRule::PassThrough => seq![],
    }
}

/// What may follow the closing parenthesis of the language's debug call.
pub open spec fn tail_ok(rule: LanguageRule, u: Seq<char>) -> bool {
    match rule {
        LanguageRule::Script => script_tail(u),
        _ => python_tail(u),
    }
}

pub open spec fn paren_step(c: char) -> int {
    if c == '(' {
        1
    } else if c == ')' {
        -1
    } else {
        0
    }
}

/// A quote that opens a string literal of the language.
pub open spec fn opens_string(rule: LanguageRule, c: char) -> bool {
    c == '"' || c == '\'' || (rule == LanguageRule::Script && c == '`')
}

/// Reads one more character inside a call's parentheses: the state is how
/// many parentheses are open, the quote of the string literal being read
/// (if any), and whether a backslash in it escapes the next character.
/// Inside a string, parentheses do not count.
pub open spec fn scan_step(rule: LanguageRule, st: (int, Option<char>, bool), c: char) -> (
    int,
    Option<char>,
    bool,
) {
    let (d, q, esc) = st;
    match q {
        Some(open) => if esc {
            (d, q, false)
        } else if c == '\\' {
            (d, q, true)
        } else if c == open {
            (d, None, false)
        } else {
            (d, q, false)
        },
        None => if opens_string(rule, c) {
            (d, Some(c), false)
        } else {
            (d + paren_step(c), None, false)
        },
    }
}

/// The state after reading `s` inside a call's parentheses.
pub open spec fn scan(rule: LanguageRule, s: Seq<char>) -> (int, Option<char>, bool)
    decreases s.len(),
{
    if s.len() == 0 {
        (0, None, false)
    } else {
        scan_step(rule, scan(rule, s.drop_last()), s.last())
    }
}

/// The `)` at `k` closes the parenthesis opened just before `a`: it stands
/// outside any string literal, and between them the parentheses outside
/// strings balance and never close more than they opened.
pub open spec fn closes_at(rule: LanguageRule, line: Seq<char>, a: int, k: int) -> bool {
    &&& a <= k < line.len()
    &&& line[k] == ')'
    &&& scan(rule, line.subrange(a, k)).0 == 0
    &&& scan(rule, line.subrange(a, k)).1 is None
    &&& forall|j: int| a <= j <= k ==> (#[trigger] scan(rule, line.subrange(a, j))).0 >= 0
}

/// A line is a debug statement when, after its indentation, it is one call to
/// the language's output primitive: the opening `console.log(` or `print(`,
/// the `)` that closes it (parentheses inside string literals aside), and
/// after that only the allowed tail.
pub open spec fn is_debug_line(rule: LanguageRule, line: Seq<char>) -> bool {
    let p = ws_prefix(line) as int;
    let a = p + opener(rule).len();
    &&& rule != LanguageRule::PassThrough
    &&& starts_with(line.skip(p), opener(rule))
    &&& exists|k: int| closes_at(rule, line, a, k) && tail_ok(rule, line.skip(k + 1))
}

/// Whitespace appended to a text leaves its leading whitespace as it is,
/// unless the text is all whitespace.
proof fn lemma_trim_push_ws(v: Seq<char>, c: char)
    requires
        is_ws(c),
    ensures
        trim_start(v).len() == 0 ==> trim_start(v.push(c)).len() == 0,
        trim_start(v).len() > 0 ==> trim_start(v.push(c)) == trim_start(v).push(c),
{
    lemma_ws_prefix_bound(v);
    let p = ws_prefix(v) as int;
    let w = v.push(c);
    if p == v.len() {
        assert forall|j: int| 0 <= j < w.len() implies is_ws(w[j]) by {
            if j < v.len() {
                assert(w[j] == v[j]);
            }
        }
        lemma_ws_prefix(w, w.len() as int);
    } else {
        assert forall|j: int| 0 <= j < p implies is_ws(w[j]) by {
            assert(w[j] == v[j]);
        }
        assert(w[p] == v[p]);
        lemma_ws_prefix(w, p);
        assert(w.skip(p) =~= v.skip(p).push(c));
    }
}

proof fn lemma_tail_push_ws(rule: LanguageRule, u: Seq<char>, c: char)
    requires
        is_ws(c),
        tail_ok(rule, u),
    ensures
        tail_ok(rule, u.push(c)),
{
    let w = u.push(c);
    if rule == LanguageRule::Script {
        let v = if u.len() > 0 && u[0] == ';' {
            u.drop_first()
        } else {
            u
        };
        let v2 = if w.len() > 0 && w[0] == ';' {
            w.drop_first()
        } else {
            w
        };
        if u.len() > 0 {
            assert(w[0] == u[0]);
        }
        assert(v2 =~= v.push(c));
        lemma_trim_push_ws(v, c);
        if trim_start(v).len() > 0 {
            assert(trim_start(v2).take(2) =~= trim_start(v).take(2));
        }
    } else {
        lemma_trim_push_ws(u, c);
        if trim_start(u).len() > 0 {
            assert(trim_start(w)[0] == trim_start(u)[0]);
        }
    }
}

/// A debug line stays one when whitespace is appended to it.
pub proof fn lemma_debug_push_ws(rule: LanguageRule, m: Seq<char>, c: char)
    requires
        is_ws(c),
        is_debug_line(rule, m),
    ensures
        is_debug_line(rule, m.push(c)),
{
    let l = m.push(c);
    let p = ws_prefix(m) as int;
    let n = opener(rule).len() as int;
    let a = p + n;
    let k = choose|k: int| closes_at(rule, m, a, k) && tail_ok(rule, m.skip(k + 1));
    lemma_ws_prefix_bound(m);
    assert(m.skip(p).take(n) == opener(rule));
    assert(m[p] == m.skip(p)[0]);
    assert(!is_ws(m[p]));
    assert forall|j: int| 0 <= j < p implies is_ws(l[j]) by {
        assert(l[j] == m[j]);
    }
    assert(l[p] == m[p]);
    lemma_ws_prefix(l, p);
    assert(l.skip(p).take(n) =~= m.skip(p).take(n));
    assert forall|j: int| a <= j <= k implies (#[trigger] scan(rule, l.subrange(a, j))).0 >= 0 by {
        assert(l.subrange(a, j) =~= m.subrange(a, j));
    }
    assert(l.subrange(a, k) =~= m.subrange(a, k));
    assert(l[k] == m[k]);
    assert(l.skip(k + 1) =~= m.skip(k + 1).push(c));
    lemma_tail_push_ws(rule, m.skip(k + 1), c);
    assert(closes_at(rule, l, a, k));
}

/// The rule for a file extension (`js`, `ts`, `py`; any other passes through).
pub fn rule_for(ext: &str) -> (r: LanguageRule)
    ensures
        r == rule_of(ext@),
{
    let e = chars_of(ext);
    if e.len() == 2 && ((e[0] == 'j' && e[1] == 's') || (e[0] == 't' && e[1] == 's')) {
        assert(e@ == seq!['j', 's'] || e@ == seq!['t', 's']);
        LanguageRule::Script
    } else if e.len() == 2 && e[0] == 'p' && e[1] == 'y' {
        assert(e@ == seq!['p', 'y']);
        LanguageRule::Python
    } else {
        assert(e@ != seq!['j', 's'] && e@ != seq!['t', 's'] && e@ != seq!['p', 'y']) by {
            if e@.len() == 2 {
                assert(e@[0] == e@[0]);
            }
        }
        LanguageRule::PassThrough
    }
}

fn script_tail_at(line: &Vec<char>, from: usize) -> (r: bool)
    requires
        from <= line.len(),
    ensures
        r == script_tail(line@.skip(from as int)),
{
    let ghost u = line@.skip(from as int);
    let mut i = from;
    if i < line.len() && line[i] == ';' {
        i += 1;
    }
    assert(line@.skip(i as int) =~= (if u.len() > 0 && u[0] == ';' {
        u.drop_first()
    } else {
        u
    }));
    let j = skip_ws(line, i);
    assert(line@.skip(i as int).skip(ws_prefix(line@.skip(i as int)) as int) =~= line@.skip(
        j as int,
    ));
    let slashes = vec!['/', '/'];
    assert(slashes@ == seq!['/', '/']);
    j == line.len() || has_at(line, j, &slashes)
}

fn python_tail_at(line: &Vec<char>, from: usize) -> (r: bool)
    requires
        from <= line.len(),
    ensures
        r == python_tail(line@.skip(from as int)),
{
    let j = skip_ws(line, from);
    assert(line@.skip(from as int).skip(ws_prefix(line@.skip(from as int)) as int) =~= line@.skip(
        j as int,
    ));
    j == line.len() || line[j] == '#'
}

/// Whether `line` is a debug statement under `rule`.
pub fn is_debug(rule: LanguageRule, line: &Vec<char>) -> (r: bool)
    ensures
        r == is_debug_line(rule, line@),
{
    let open = match rule {
        LanguageRule::Script => vec!['c', 'o', 'n', 's', 'o', 'l', 'e', '.', 'l', 'o', 'g', '('],
        LanguageRule::Python => vec!['p', 'r', 'i', 'n', 't', '('],
        LanguageRule::PassThrough => {
            return false;
        },
    };
    assert(open@ == opener(rule));
    let p = skip_ws(line, 0);
    assert(line@.skip(0) =~= line@);
    if !has_at(line, p, &open) {
        return false;
    }
    let a = p + open.len();
    let mut k = a;
    let mut depth: usize = 0;
    let mut quote: Option<char> = None;
    let mut escaped = false;
    assert(line@.subrange(a as int, a as int) =~= Seq::<char>::empty());
    while k < line.len()
        invariant
            a <= k <= line.len(),
            a == ws_prefix(line@) + opener(rule).len(),
            starts_with(line@.skip(ws_prefix(line@) as int), opener(rule)),
            rule != LanguageRule::PassThrough,
            depth <= k - a,
            scan(rule, line@.subrange(a as int, k as int)) == (depth as int, quote, escaped),
            forall|j: int|
                a <= j <= k ==> (#[trigger] scan(rule, line@.subrange(a as int, j))).0 >= 0,
            forall|k2: int| a <= k2 < k ==> !closes_at(rule, line@, a as int, k2),
        decreases line.len() - k,
    {
        assert(line@.subrange(a as int, k + 1).drop_last() =~= line@.subrange(a as int, k as int));
        let c = line[k];
        if quote.is_none() && c == ')' && depth == 0 {
            assert(closes_at(rule, line@, a as int, k as int));
            assert forall|k2: int| #[trigger] closes_at(rule, line@, a as int, k2) implies k2
                == k by {
                if k2 > k {
                    assert(scan(rule, line@.subrange(a as int, k + 1)).0 >= 0);
                }
            }
            let ok = match rule {
                LanguageRule::Script => script_tail_at(line, k + 1),
                _ => python_tail_at(line, k + 1),
            };
            return ok;
        }
        match quote {
            Some(q) => {
                if escaped {
                    escaped = false;
                } else if c == '\\' {
                    escaped = true;
                } else if c == q {
                    quote = None;
                }
            },
            None => {
                if c == '"' || c == '\'' || (rule == LanguageRule::Script && c == '`') {
                    quote = Some(c);
                } else if c == ')' {
                    depth -= 1;
                } else if c == '(' {
                    depth += 1;
                }
            },
        }
        k += 1;
    }
    false
}

} // verus!
