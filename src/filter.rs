//! The line filter: drops the debug statements of a text, line by line.
use vstd::prelude::*;
use crate::rules::{LanguageRule, is_debug, is_debug_line, lemma_debug_push_ws, rule_for, rule_of};
use crate::text::{
    chars_of, find_nl, slice_chars, joined, lines_of, lemma_nl_pos, lemma_nl_pos_bound, nl_pos, push_char,
    single_line, strip_cr,
};

verus! {

pub open spec fn keeps(rule: LanguageRule) -> spec_fn(Seq<char>) -> bool {
    |l: Seq<char>| !is_debug_line(rule, l)
}

pub open spec fn drops(rule: LanguageRule) -> spec_fn(Seq<char>) -> bool {
    |l: Seq<char>| is_debug_line(rule, l)
}

/// The lines of `s` that are not debug statements under `rule`.
pub open spec fn kept_lines(rule: LanguageRule, s: Seq<char>) -> Seq<Seq<char>> {
    lines_of(s).filter(keeps(rule))
}

/// The lines of `s` that are debug statements under `rule`.
pub open spec fn debug_lines(rule: LanguageRule, s: Seq<char>) -> Seq<Seq<char>> {
    lines_of(s).filter(drops(rule))
}

/// What filtering leaves of `s`: each kept line followed by a line feed;
/// the text itself where the rule removes nothing.
pub open spec fn filtered(rule: LanguageRule, s: Seq<char>) -> Seq<char> {
    if rule == LanguageRule::PassThrough {
        s
    } else {
        joined(kept_lines(rule, s))
    }
}

pub proof fn lemma_lines_single(s: Seq<char>)
    ensures
        forall|i: int| 0 <= i < lines_of(s).len() ==> single_line(#[trigger] lines_of(s)[i]),
    decreases s.len(),
{
    lemma_nl_pos_bound(s);
    if s.len() > 0 && nl_pos(s) < s.len() {
        let n = nl_pos(s) as int;
        lemma_lines_single(s.skip(n + 1));
        let first = strip_cr(s.take(n));
        assert(single_line(first));
        assert forall|i: int| 0 <= i < lines_of(s).len() implies single_line(
            #[trigger] lines_of(s)[i],
        ) by {
            if i > 0 {
                assert(lines_of(s)[i] == lines_of(s.skip(n + 1))[i - 1]);
            }
        }
    }
}

pub proof fn lemma_joined_push(ls: Seq<Seq<char>>, x: Seq<char>)
    ensures
        joined(ls.push(x)) == joined(ls) + x + seq!['\n'],
    decreases ls.len(),
{
    if ls.len() == 0 {
        assert(ls.push(x).drop_first() =~= ls);
        assert(joined(ls.push(x)) =~= joined(ls) + x + seq!['\n']);
    } else {
        assert(ls.push(x).drop_first() =~= ls.drop_first().push(x));
        lemma_joined_push(ls.drop_first(), x);
        assert(joined(ls.push(x)) =~= joined(ls) + x + seq!['\n']);
    }
}

/// Re-splitting joined lines gives the lines back, each without one trailing
/// carriage return.
pub proof fn lemma_lines_of_joined(ls: Seq<Seq<char>>)
    requires
        forall|i: int| 0 <= i < ls.len() ==> single_line(#[trigger] ls[i]),
    ensures
        lines_of(joined(ls)) == ls.map_values(|l: Seq<char>| strip_cr(l)),
    decreases ls.len(),
{
    if ls.len() == 0 {
        assert(lines_of(joined(ls)) =~= ls.map_values(|l: Seq<char>| strip_cr(l)));
    } else {
        let s = joined(ls);
        let rest = ls.drop_first();
        assert forall|i: int| 0 <= i < rest.len() implies single_line(#[trigger] rest[i]) by {
            assert(rest[i] == ls[i + 1]);
        }
        lemma_lines_of_joined(rest);
        let n = ls[0].len() as int;
        assert(s == ls[0] + seq!['\n'] + joined(rest));
        assert(s[n] == '\n');
        assert forall|j: int| 0 <= j < n implies s[j] != '\n' by {
            assert(s[j] == ls[0][j]);
        }
        lemma_nl_pos(s, n);
        assert(s.take(n) =~= ls[0]);
        assert(s.skip(n + 1) =~= joined(rest));
        assert(lines_of(joined(ls)) =~= ls.map_values(|l: Seq<char>| strip_cr(l)));
    }
}

/// Lines that satisfy a predicate and lines that do not make up all lines.
pub proof fn lemma_filter_split(
    ls: Seq<Seq<char>>,
    p: spec_fn(Seq<char>) -> bool,
    q: spec_fn(Seq<char>) -> bool,
)
    requires
        forall|l: Seq<char>| #[trigger] q(l) == !p(l),
    ensures
        ls.filter(p).len() + ls.filter(q).len() == ls.len(),
    decreases ls.len(),
{
    reveal_with_fuel(Seq::filter, 1);
    if ls.len() > 0 {
        lemma_filter_split(ls.drop_last(), p, q);
    }
}

/// A filter keeps everything that already satisfies its predicate.
pub proof fn lemma_filter_all(ls: Seq<Seq<char>>, p: spec_fn(Seq<char>) -> bool)
    requires
        forall|i: int| 0 <= i < ls.len() ==> p(#[trigger] ls[i]),
    ensures
        ls.filter(p) == ls,
    decreases ls.len(),
{
    reveal_with_fuel(Seq::filter, 1);
    if ls.len() > 0 {
        lemma_filter_all(ls.drop_last(), p);
        assert(ls.drop_last().push(ls.last()) =~= ls);
    }
}

/// The kept lines are single lines that are not debug statements.
pub proof fn lemma_kept_lines(rule: LanguageRule, s: Seq<char>)
    ensures
        forall|i: int|
            0 <= i < kept_lines(rule, s).len() ==> single_line(#[trigger] kept_lines(rule, s)[i])
                && !is_debug_line(rule, kept_lines(rule, s)[i]),
{
    let kept = kept_lines(rule, s);
    lemma_lines_single(s);
    assert forall|i: int| 0 <= i < kept.len() implies single_line(#[trigger] kept[i])
        && !is_debug_line(rule, kept[i]) by {
        lines_of(s).lemma_filter_pred(keeps(rule), i);
        assert(kept.contains(kept[i]));
        lines_of(s).lemma_filter_contains_rev(keeps(rule), kept[i]);
        let j = choose|j: int| 0 <= j < lines_of(s).len() && lines_of(s)[j] == kept[i];
        assert(single_line(lines_of(s)[j]));
    }
}

/// With N lines of which M are debug statements, the cleaned text has
/// exactly N - M lines.
pub proof fn lemma_filter_counts(rule: LanguageRule, s: Seq<char>)
    ensures
        lines_of(filtered(rule, s)).len() == lines_of(s).len() - debug_lines(rule, s).len(),
{
    lemma_filter_split(lines_of(s), drops(rule), keeps(rule));
    if rule == LanguageRule::PassThrough {
        lemma_filter_all(lines_of(s), keeps(rule));
    } else {
        let kept = kept_lines(rule, s);
        lemma_kept_lines(rule, s);
        lemma_lines_of_joined(kept);
    }
}

/// Filtering a filtered text changes nothing, provided no kept line ends in
/// a carriage return that a line feed would turn into a line ending.
pub proof fn lemma_filter_idempotent(rule: LanguageRule, s: Seq<char>)
    requires
        forall|i: int|
            0 <= i < kept_lines(rule, s).len() ==> strip_cr(#[trigger] kept_lines(rule, s)[i])
                == kept_lines(rule, s)[i],
    ensures
        filtered(rule, filtered(rule, s)) == filtered(rule, s),
{
    let c = filtered(rule, s);
    if rule != LanguageRule::PassThrough {
        let kept = kept_lines(rule, s);
        lemma_kept_lines(rule, s);
        lemma_lines_of_joined(kept);
        assert(lines_of(c) =~= kept);
        lemma_filter_all(kept, keeps(rule));
    } else {
        lemma_filter_all(lines_of(s), keeps(rule));
    }
}

/// A filtered text holds no debug statement: filtering it again removes no
/// line.
pub proof fn lemma_no_debug_left(rule: LanguageRule, s: Seq<char>)
    ensures
        debug_lines(rule, filtered(rule, s)).len() == 0,
{
    let c = filtered(rule, s);
    if rule != LanguageRule::PassThrough {
        let kept = kept_lines(rule, s);
        lemma_kept_lines(rule, s);
        lemma_lines_of_joined(kept);
        let ls = lines_of(c);
        assert forall|i: int| 0 <= i < ls.len() implies #[trigger] keeps(rule)(ls[i]) by {
            let l = kept[i];
            assert(ls[i] == strip_cr(l));
            if strip_cr(l) != l && is_debug_line(rule, strip_cr(l)) {
                assert(strip_cr(l).push('\r') =~= l);
                lemma_debug_push_ws(rule, strip_cr(l), '\r');
            }
        }
        lemma_filter_all(ls, keeps(rule));
        lemma_filter_split(ls, drops(rule), keeps(rule));
    } else {
        lemma_filter_split(lines_of(s), drops(rule), keeps(rule));
        lemma_filter_all(lines_of(s), keeps(rule));
    }
}

/// The physical lines of `v`.
pub fn split_lines(v: &Vec<char>) -> (r: Vec<Vec<char>>)
    ensures
        r.len() == lines_of(v@).len(),
        forall|i: int| 0 <= i < r.len() ==> (#[trigger] r[i])@ == lines_of(v@)[i],
{
    let mut r: Vec<Vec<char>> = Vec::new();
    let ghost done: Seq<Seq<char>> = seq![];
    let mut start: usize = 0;
    assert(v@.skip(0) =~= v@);
    while start < v.len()
        invariant
            start <= v.len(),
            r.len() == done.len(),
            forall|i: int| 0 <= i < r.len() ==> (#[trigger] r[i])@ == done[i],
            lines_of(v@) == done + lines_of(v@.skip(start as int)),
        decreases v.len() - start,
    {
        let ghost rest = v@.skip(start as int);
        let j = find_nl(v, start);
        proof {
            lemma_nl_pos_bound(rest);
            assert(rest.take(nl_pos(rest) as int) =~= v@.subrange(start as int, j as int));
        }
        if j == v.len() {
            let line = slice_chars(v, start, j);
            assert(rest =~= v@.subrange(start as int, j as int));
            assert(lines_of(rest) == seq![rest]);
            proof {
                done = done.push(line@);
            }
            r.push(line);
            assert(v@.skip(j as int) =~= seq![]);
            assert(lines_of(v@) =~= done + lines_of(v@.skip(j as int)));
            start = j;
        } else {
            let end = if j > start && v[j - 1] == '\r' {
                j - 1
            } else {
                j
            };
            let line = slice_chars(v, start, end);
            assert(line@ == strip_cr(v@.subrange(start as int, j as int)));
            assert(rest.skip(nl_pos(rest) + 1 as int) =~= v@.skip(j + 1));
            proof {
                done = done.push(line@);
            }
            r.push(line);
            assert(lines_of(v@) =~= done + lines_of(v@.skip(j + 1)));
            start = j + 1;
        }
    }
    assert(v@.skip(start as int) =~= seq![]);
    assert(lines_of(v@) =~= done);
    r
}

/// The number of physical lines of `text`.
pub fn count_lines(text: &str) -> (r: usize)
    ensures
        r == lines_of(text@).len(),
{
    let v = chars_of(text);
    split_lines(&v).len()
}

/// The content with every debug statement of its extension's language
/// removed; other lines are kept verbatim, each followed by a line feed.
/// Content of an extension without a rule comes back unchanged.
pub fn remove_debug_statements(content: &str, file_extension: &str) -> (r: String)
    ensures
        r@ == filtered(rule_of(file_extension@), content@),
{
    let rule = rule_for(file_extension);
    let mut cleaned = String::new();
    let v = chars_of(content);
    if rule == LanguageRule::PassThrough {
        let mut k: usize = 0;
        while k < v.len()
            invariant
                k <= v.len(),
                cleaned@ == v@.take(k as int),
            decreases v.len() - k,
        {
            push_char(&mut cleaned, v[k]);
            assert(v@.take(k + 1) == v@.take(k as int).push(v@[k as int]));
            k += 1;
        }
        assert(v@.take(k as int) =~= v@);
        return cleaned;
    }
    let lines = split_lines(&v);
    let ghost ls = lines_of(v@);
    let ghost pred = keeps(rule);
    let mut i: usize = 0;
    while i < lines.len()
        invariant
            i <= lines.len() == ls.len(),
            ls == lines_of(v@),
            pred == keeps(rule),
            forall|j: int| 0 <= j < lines.len() ==> (#[trigger] lines[j])@ == ls[j],
            cleaned@ == joined(ls.take(i as int).filter(pred)),
        decreases lines.len() - i,
    {
        let line = &lines[i];
        assert(ls.take(i + 1).drop_last() =~= ls.take(i as int));
        reveal_with_fuel(Seq::filter, 1);
        if !is_debug(rule, line) {
            let mut k: usize = 0;
            let ghost before = cleaned@;
            while k < line.len()
                invariant
                    k <= line.len(),
                    cleaned@ == before + line@.take(k as int),
                decreases line.len() - k,
            {
                push_char(&mut cleaned, line[k]);
                assert(line@.take(k + 1) == line@.take(k as int).push(line@[k as int]));
                assert(cleaned@ =~= before + line@.take(k + 1));
                k += 1;
            }
            push_char(&mut cleaned, '\n');
            assert(line@.take(k as int) =~= line@);
            proof {
                lemma_joined_push(ls.take(i as int).filter(pred), line@);
            }
            assert(cleaned@ =~= joined(ls.take(i as int).filter(pred)) + line@ + seq!['\n']);
        }
        i += 1;
    }
    assert(ls.take(i as int) =~= ls);
    cleaned
}

} // verus!
