//! Line statistics of a source file: how many lines are code, debug
//! statements, comments, blank or punctuation.
use vstd::prelude::*;
use crate::filter::split_lines;
use crate::text::{chars_of, has_at, is_whitespace, lines_of, skip_ws, starts_with, trim_end, trim_start};

verus! {

/// What a line is, by its trimmed text.
#[derive(PartialEq, Eq, Structural, Clone, Copy, Debug)]
pub enum LineKind {
    Empty,
    Debug,
    Brace,
    Comma,
    Semicolon,
    Comment,
    Code,
}

pub open spec fn trim(s: Seq<char>) -> Seq<char> {
    trim_end(trim_start(s))
}

pub open spec fn console_word() -> Seq<char> {
    seq!['c', 'o', 'n', 's', 'o', 'l', 'e', '.', 'l', 'o', 'g']
}

pub open spec fn print_word() -> Seq<char> {
    seq!['p', 'r', 'i', 'n', 't']
}

/// The kind of a trimmed line, and whether a block comment is open after
/// it. The first test that holds decides: blank; opening with
/// `console.log` or `print`; a lone brace, comma or semicolon; a `//`
/// comment; a `/*` that opens a block comment; a `*/` that closes one; a
/// line inside an open block comment; code.
pub open spec fn classify(t: Seq<char>, in_block: bool) -> (LineKind, bool) {
    if t.len() == 0 {
        (LineKind::Empty, in_block)
    } else if starts_with(t, console_word()) || starts_with(t, print_word()) {
        (LineKind::Debug, in_block)
    } else if t == seq!['{'] || t == seq!['}'] {
        (LineKind::Brace, in_block)
    } else if t == seq![','] {
        (LineKind::Comma, in_block)
    } else if t == seq![';'] {
        (LineKind::Semicolon, in_block)
    } else if starts_with(t, seq!['/', '/']) {
        (LineKind::Comment, in_block)
    } else if starts_with(t, seq!['/', '*']) {
        (LineKind::Comment, true)
    } else if starts_with(t, seq!['*', '/']) {
        (LineKind::Comment, false)
    } else if in_block {
        (LineKind::Comment, in_block)
    } else {
        (LineKind::Code, in_block)
    }
}

/// The kinds of the lines, in order, and whether a block comment is open
/// after the last one.
pub open spec fn scan(ls: Seq<Seq<char>>) -> (Seq<LineKind>, bool)
    decreases ls.len(),
{
    if ls.len() == 0 {
        (seq![], false)
    } else {
        let (ks, open) = scan(ls.drop_last());
        let (k, after) = classify(trim(ls.last()), open);
        (ks.push(k), after)
    }
}

pub open spec fn kinds_of(s: Seq<char>) -> Seq<LineKind> {
    scan(lines_of(s)).0
}

pub open spec fn count_kind(ks: Seq<LineKind>, k: LineKind) -> nat
    decreases ks.len(),
{
    if ks.len() == 0 {
        0
    } else {
        count_kind(ks.drop_last(), k) + if ks.last() == k {
            1nat
        } else {
            0nat
        }
    }
}

/// The line counts of one file.
#[derive(PartialEq, Eq, Structural, Clone, Copy, Debug)]
pub struct LineStats {
    pub total_lines: usize,
    pub real_code_lines: usize,
    pub debug_lines: usize,
    pub empty_lines: usize,
    pub brace_lines: usize,
    pub comma_lines: usize,
    pub semicolon_lines: usize,
    pub comment_lines: usize,
}

/// The counts of a text: its lines, and those of each kind.
pub open spec fn stats_of(s: Seq<char>) -> LineStats {
    let ks = kinds_of(s);
    LineStats {
        total_lines: lines_of(s).len() as usize,
        real_code_lines: count_kind(ks, LineKind::Code) as usize,
        debug_lines: count_kind(ks, LineKind::Debug) as usize,
        empty_lines: count_kind(ks, LineKind::Empty) as usize,
        brace_lines: count_kind(ks, LineKind::Brace) as usize,
        comma_lines: count_kind(ks, LineKind::Comma) as usize,
        semicolon_lines: count_kind(ks, LineKind::Semicolon) as usize,
        comment_lines: count_kind(ks, LineKind::Comment) as usize,
    }
}

pub proof fn lemma_count_bound(ks: Seq<LineKind>, k: LineKind)
    ensures
        count_kind(ks, k) <= ks.len(),
    decreases ks.len(),
{
    if ks.len() > 0 {
        lemma_count_bound(ks.drop_last(), k);
    }
}

pub proof fn lemma_scan_len(ls: Seq<Seq<char>>)
    ensures
        scan(ls).0.len() == ls.len(),
    decreases ls.len(),
{
    if ls.len() > 0 {
        lemma_scan_len(ls.drop_last());
    }
}

fn trimmed(line: &Vec<char>) -> (r: Vec<char>)
    ensures
        r@ == trim(line@),
{
    let start = skip_ws(line, 0);
    assert(line@.skip(0) =~= line@);
    let mut end = line.len();
    assert(line@.subrange(start as int, end as int) =~= trim_start(line@));
    while end > start && is_whitespace(line[end - 1])
        invariant
            start <= end <= line.len(),
            trim(line@) == trim_end(line@.subrange(start as int, end as int)),
        decreases end,
    {
        assert(line@.subrange(start as int, end as int).drop_last() =~= line@.subrange(
            start as int,
            end - 1,
        ));
        end -= 1;
    }
    let mut r: Vec<char> = Vec::new();
    let mut i = start;
    while i < end
        invariant
            start <= i <= end <= line.len(),
            r@ == line@.subrange(start as int, i as int),
        decreases end - i,
    {
        r.push(line[i]);
        assert(line@.subrange(start as int, i + 1) == line@.subrange(start as int, i as int).push(
            line@[i as int],
        ));
        i += 1;
    }
    r
}

fn is_single(t: &Vec<char>, c: char) -> (r: bool)
    ensures
        r == (t@ == seq![c]),
{
    if t.len() == 1 && t[0] == c {
        assert(t@ =~= seq![c]);
        true
    } else {
        false
    }
}

fn classify_line(t: &Vec<char>, in_block: bool) -> (r: (LineKind, bool))
    ensures
        r == classify(t@, in_block),
{
    let console = vec!['c', 'o', 'n', 's', 'o', 'l', 'e', '.', 'l', 'o', 'g'];
    let print = vec!['p', 'r', 'i', 'n', 't'];
    let line_comment = vec!['/', '/'];
    let open_block = vec!['/', '*'];
    let close_block = vec!['*', '/'];
    assert(console@ == console_word() && print@ == print_word());
    assert(line_comment@ == seq!['/', '/'] && open_block@ == seq!['/', '*'] && close_block@
        == seq!['*', '/']);
    assert(t@.skip(0) =~= t@);
    if t.len() == 0 {
        (LineKind::Empty, in_block)
    } else if has_at(t, 0, &console) || has_at(t, 0, &print) {
        (LineKind::Debug, in_block)
    } else if is_single(t, '{') || is_single(t, '}') {
        (LineKind::Brace, in_block)
    } else if is_single(t, ',') {
        (LineKind::Comma, in_block)
    } else if is_single(t, ';') {
        (LineKind::Semicolon, in_block)
    } else if has_at(t, 0, &line_comment) {
        (LineKind::Comment, in_block)
    } else if has_at(t, 0, &open_block) {
        (LineKind::Comment, true)
    } else if has_at(t, 0, &close_block) {
        (LineKind::Comment, false)
    } else if in_block {
        (LineKind::Comment, in_block)
    } else {
        (LineKind::Code, in_block)
    }
}

/// The line counts of `content`.
pub fn line_stats(content: &str) -> (r: LineStats)
    ensures
        r == stats_of(content@),
{
    let v = chars_of(content);
    let lines = split_lines(&v);
    let ghost ls = lines_of(content@);
    let mut stats = LineStats {
        total_lines: 0,
        real_code_lines: 0,
        debug_lines: 0,
        empty_lines: 0,
        brace_lines: 0,
        comma_lines: 0,
        semicolon_lines: 0,
        comment_lines: 0,
    };
    let mut in_block = false;
    let mut i: usize = 0;
    assert(ls.take(0) =~= Seq::<Seq<char>>::empty());
    while i < lines.len()
        invariant
            i <= lines.len() == ls.len(),
            ls == lines_of(content@),
            forall|j: int| 0 <= j < lines.len() ==> (#[trigger] lines[j])@ == ls[j],
            in_block == scan(ls.take(i as int)).1,
            stats.total_lines == i,
            stats.real_code_lines == count_kind(scan(ls.take(i as int)).0, LineKind::Code),
            stats.debug_lines == count_kind(scan(ls.take(i as int)).0, LineKind::Debug),
            stats.empty_lines == count_kind(scan(ls.take(i as int)).0, LineKind::Empty),
            stats.brace_lines == count_kind(scan(ls.take(i as int)).0, LineKind::Brace),
            stats.comma_lines == count_kind(scan(ls.take(i as int)).0, LineKind::Comma),
            stats.semicolon_lines == count_kind(scan(ls.take(i as int)).0, LineKind::Semicolon),
            stats.comment_lines == count_kind(scan(ls.take(i as int)).0, LineKind::Comment),
        decreases lines.len() - i,
    {
        let ghost ks = scan(ls.take(i as int)).0;
        proof {
            lemma_scan_len(ls.take(i as int));
            lemma_count_bound(ks, LineKind::Code);
            lemma_count_bound(ks, LineKind::Debug);
            lemma_count_bound(ks, LineKind::Empty);
            lemma_count_bound(ks, LineKind::Brace);
            lemma_count_bound(ks, LineKind::Comma);
            lemma_count_bound(ks, LineKind::Semicolon);
            lemma_count_bound(ks, LineKind::Comment);
        }
        assert(ls.take(i + 1).drop_last() =~= ls.take(i as int));
        let t = trimmed(&lines[i]);
        let (kind, after) = classify_line(&t, in_block);
        stats.total_lines = stats.total_lines + 1;
        match kind {
            LineKind::Code => stats.real_code_lines = stats.real_code_lines + 1,
            LineKind::Debug => stats.debug_lines = stats.debug_lines + 1,
            LineKind::Empty => stats.empty_lines = stats.empty_lines + 1,
            LineKind::Brace => stats.brace_lines = stats.brace_lines + 1,
            LineKind::Comma => stats.comma_lines = stats.comma_lines + 1,
            LineKind::Semicolon => stats.semicolon_lines = stats.semicolon_lines + 1,
            LineKind::Comment => stats.comment_lines = stats.comment_lines + 1,
        }
        in_block = after;
        assert(scan(ls.take(i + 1)).0 == ks.push(kind));
        assert(ks.push(kind).drop_last() =~= ks);
        i += 1;
    }
    assert(ls.take(i as int) =~= ls);
    stats
}

pub open spec fn zero_stats() -> LineStats {
    LineStats {
        total_lines: 0,
        real_code_lines: 0,
        debug_lines: 0,
        empty_lines: 0,
        brace_lines: 0,
        comma_lines: 0,
        semicolon_lines: 0,
        comment_lines: 0,
    }
}

/// The fieldwise sum of two counts, where every sum fits.
pub open spec fn plus(a: LineStats, b: LineStats) -> Option<LineStats> {
    if a.total_lines + b.total_lines <= usize::MAX && a.real_code_lines + b.real_code_lines
        <= usize::MAX && a.debug_lines + b.debug_lines <= usize::MAX && a.empty_lines
        + b.empty_lines <= usize::MAX && a.brace_lines + b.brace_lines <= usize::MAX
        && a.comma_lines + b.comma_lines <= usize::MAX && a.semicolon_lines + b.semicolon_lines
        <= usize::MAX && a.comment_lines + b.comment_lines <= usize::MAX {
        Some(
            LineStats {
                total_lines: (a.total_lines + b.total_lines) as usize,
                real_code_lines: (a.real_code_lines + b.real_code_lines) as usize,
                debug_lines: (a.debug_lines + b.debug_lines) as usize,
                empty_lines: (a.empty_lines + b.empty_lines) as usize,
                brace_lines: (a.brace_lines + b.brace_lines) as usize,
                comma_lines: (a.comma_lines + b.comma_lines) as usize,
                semicolon_lines: (a.semicolon_lines + b.semicolon_lines) as usize,
                comment_lines: (a.comment_lines + b.comment_lines) as usize,
            },
        )
    } else {
        None
    }
}

/// The sum of the counts of several files, in order; `None` where a sum
/// overflows.
pub open spec fn sum_of(all: Seq<LineStats>) -> Option<LineStats>
    decreases all.len(),
{
    if all.len() == 0 {
        Some(zero_stats())
    } else {
        match sum_of(all.drop_last()) {
            Some(t) => plus(t, all.last()),
            None => None,
        }
    }
}

fn add_stats(a: LineStats, b: LineStats) -> (r: Option<LineStats>)
    ensures
        r == plus(a, b),
{
    if a.total_lines > usize::MAX - b.total_lines || a.real_code_lines > usize::MAX
        - b.real_code_lines || a.debug_lines > usize::MAX - b.debug_lines || a.empty_lines
        > usize::MAX - b.empty_lines || a.brace_lines > usize::MAX - b.brace_lines
        || a.comma_lines > usize::MAX - b.comma_lines || a.semicolon_lines > usize::MAX
        - b.semicolon_lines || a.comment_lines > usize::MAX - b.comment_lines {
        None
    } else {
        Some(
            LineStats {
                total_lines: a.total_lines + b.total_lines,
                real_code_lines: a.real_code_lines + b.real_code_lines,
                debug_lines: a.debug_lines + b.debug_lines,
                empty_lines: a.empty_lines + b.empty_lines,
                brace_lines: a.brace_lines + b.brace_lines,
                comma_lines: a.comma_lines + b.comma_lines,
                semicolon_lines: a.semicolon_lines + b.semicolon_lines,
                comment_lines: a.comment_lines + b.comment_lines,
            },
        )
    }
}

/// The totals over the counts of several files; `None` where one overflows.
pub fn total_stats(all: &Vec<LineStats>) -> (r: Option<LineStats>)
    ensures
        r == sum_of(all@),
{
    let mut acc = LineStats {
        total_lines: 0,
        real_code_lines: 0,
        debug_lines: 0,
        empty_lines: 0,
        brace_lines: 0,
        comma_lines: 0,
        semicolon_lines: 0,
        comment_lines: 0,
    };
    let mut i: usize = 0;
    assert(all@.take(0) =~= Seq::<LineStats>::empty());
    while i < all.len()
        invariant
            i <= all.len(),
            sum_of(all@.take(i as int)) == Some(acc),
        decreases all.len() - i,
    {
        assert(all@.take(i + 1).drop_last() =~= all@.take(i as int));
        match add_stats(acc, all[i]) {
            Some(t) => {
                acc = t;
            },
            None => {
                proof {
                    lemma_sum_stays_none(all@, i + 1);
                }
                return None;
            },
        }
        i += 1;
    }
    assert(all@.take(i as int) =~= all@);
    Some(acc)
}

proof fn lemma_sum_stays_none(all: Seq<LineStats>, i: int)
    requires
        0 <= i <= all.len(),
        sum_of(all.take(i)) is None,
    ensures
        sum_of(all) is None,
    decreases all.len() - i,
{
    if i < all.len() {
        assert(all.take(i + 1).drop_last() =~= all.take(i));
        lemma_sum_stays_none(all, i + 1);
    } else {
        assert(all.take(i) =~= all);
    }
}

} // verus!
