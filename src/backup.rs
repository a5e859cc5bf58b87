//! The backup ledger: the sidecar artifact written before a file is
//! rewritten, its decoder, and the decisions of a restore.
use vstd::prelude::*;
use vstd::string::StringExecFns;
use crate::paths::{
    extension, extension_of, extension_or_empty, has_name, lemma_extension_round_trip, with_extension,
    with_extension_of,
};
use crate::text::{
    chars_of, find_nl, has_at, joined, lemma_nl_pos, nl_pos, push_char, single_line, starts_with,
    string_of,
    trim_end, trimmed_end,
};

verus! {

/// The version written into the header of every backup.
pub const VERSION: &'static str = "0.1.0";

/// The extension that a backup takes in place of its original's.
pub const BACKUP_EXTENSION: &'static str = "bak";

pub open spec fn marker() -> Seq<char> {
    "/* Backup created by CleanCode tool"@
}

pub open spec fn file_label() -> Seq<char> {
    " * Original file: "@
}

pub open spec fn ext_label() -> Seq<char> {
    " * Original extension: "@
}

pub open spec fn id_label() -> Seq<char> {
    " * Unique ID: "@
}

pub open spec fn time_label() -> Seq<char> {
    " * Timestamp: "@
}

pub open spec fn end_line() -> Seq<char> {
    " */"@
}

/// The header lines of a backup: the marker with the tool's version, the
/// four labelled fields, and the closing line.
pub open spec fn header_lines(path: Seq<char>, ext: Seq<char>, id: Seq<char>, time: Seq<char>) -> Seq<
    Seq<char>,
> {
    seq![
        marker() + " - "@ + VERSION@,
        file_label() + path,
        ext_label() + ext,
        id_label() + id,
        time_label() + time,
        end_line(),
    ]
}

/// A header field character as written: a backslash and a line feed are
/// written as `\\` and `\n`, so that every field stays on its line.
pub open spec fn escape_char(c: char) -> Seq<char> {
    if c == '\\' {
        seq!['\\', '\\']
    } else if c == '\n' {
        seq!['\\', 'n']
    } else {
        seq![c]
    }
}

/// A header field as written.
pub open spec fn escaped(s: Seq<char>) -> Seq<char>
    decreases s.len(),
{
    if s.len() == 0 {
        seq![]
    } else {
        escaped(s.drop_last()) + escape_char(s.last())
    }
}

/// A header field as read back: `\n` is a line feed, a backslash takes the
/// next character as it is.
pub open spec fn unescaped(s: Seq<char>) -> Seq<char>
    decreases s.len(),
{
    if s.len() == 0 {
        seq![]
    } else if s[0] == '\\' && s.len() >= 2 {
        seq![if s[1] == 'n' { '\n' } else { s[1] }] + unescaped(s.skip(2))
    } else {
        seq![s[0]] + unescaped(s.drop_first())
    }
}

/// Where the backup of `path` is kept: `path` with the backup extension.
pub open spec fn backup_path_of(path: Seq<char>) -> Seq<char> {
    with_extension_of(path, BACKUP_EXTENSION@)
}

/// The text of the backup of `path`'s `content`: the header, then the
/// content without its trailing whitespace.
pub open spec fn backup_text(path: Seq<char>, id: Seq<char>, time: Seq<char>, content: Seq<char>) -> Seq<
    char,
> {
    joined(
        header_lines(
            escaped(path),
            escaped(extension_or_empty(path)),
            escaped(id),
            escaped(time),
        ),
    ) + trim_end(content)
}

/// The first line of `t`, when it opens with `label` and a line feed ends
/// it: what follows the label, and the text after the line feed.
pub open spec fn field(t: Seq<char>, label: Seq<char>) -> Option<(Seq<char>, Seq<char>)> {
    let n = nl_pos(t) as int;
    if n < t.len() && label.len() <= n && starts_with(t, label) {
        Some((t.subrange(label.len() as int, n), t.skip(n + 1)))
    } else {
        None
    }
}

/// The text after a first line that is the closing line of a header.
pub open spec fn after_end(t: Seq<char>) -> Option<Seq<char>> {
    let n = nl_pos(t) as int;
    if t.take(n) == end_line() {
        Some(
            if n < t.len() {
                t.skip(n + 1)
            } else {
                seq![]
            },
        )
    } else {
        None
    }
}

/// Reads a backup: the five header lines in order, each with its label, and
/// the closing line; gives the recorded extension and the content after the
/// header.
pub open spec fn decode(t: Seq<char>) -> Option<(Seq<char>, Seq<char>)> {
    match field(t, marker()) {
        None => None,
        Some((_, r1)) => match field(r1, file_label()) {
            None => None,
            Some((_, r2)) => match field(r2, ext_label()) {
                None => None,
                Some((ext, r3)) => match field(r3, id_label()) {
                    None => None,
                    Some((_, r4)) => match field(r4, time_label()) {
                        None => None,
                        Some((_, r5)) => match after_end(r5) {
                            None => None,
                            Some(body) => Some((unescaped(ext), body)),
                        },
                    },
                },
            },
        },
    }
}

/// Where the content of a backup of `path` with text `t` goes back to, and
/// that content; `None` where the text is no backup.
pub open spec fn restored(path: Seq<char>, t: Seq<char>) -> Option<(Seq<char>, Seq<char>)> {
    match decode(t) {
        Some((ext, body)) => Some((with_extension_of(backup_path_of(path), ext), body)),
        None => None,
    }
}

/// A backup read and understood: where its content goes back to.
pub struct RestorePlan {
    /// The backup artifact, removed once the content is back.
    pub backup_path: String,
    /// The file the content is written to.
    pub target: String,
    /// The content as it was before the debug statements were removed.
    pub content: String,
}

#[derive(PartialEq, Eq, Structural, Clone, Copy, Debug)]
pub enum RestoreError {
    /// No backup exists for the file.
    NotFound,
    /// The backup's header cannot be read.
    InvalidSignature,
    /// The file to restore exists and neither `force` nor `dry_run` is set.
    AlreadyExists,
}

impl RestoreError {
    /// A short description of the error.
    pub fn message(&self) -> (r: &'static str)
        ensures
            r@ == match self {
                RestoreError::NotFound => "Backup not found"@,
                RestoreError::InvalidSignature => "Invalid backup signature"@,
                RestoreError::AlreadyExists => "File already exists"@,
            },
    {
        match self {
            RestoreError::NotFound => "Backup not found",
            RestoreError::InvalidSignature => "Invalid backup signature",
            RestoreError::AlreadyExists => "File already exists",
        }
    }
}

/// What a restore that may go ahead does.
#[derive(PartialEq, Eq, Structural, Clone, Copy, Debug)]
pub enum RestoreStep {
    /// Report what would be restored; touch nothing.
    Simulate,
    /// Write the content to the target, then remove the backup.
    Write,
}

/// A backup artifact ready to be written.
pub struct BackupArtifact {
    /// Where it is written.
    pub path: String,
    /// Its text: header and content.
    pub text: String,
    /// The identifier recorded in its header.
    pub id: String,
    /// The creation time recorded in its header.
    pub timestamp: String,
}

pub open spec fn is_id_char(c: char) -> bool {
    c == '-' || ('0' <= c && c <= '9') || ('a' <= c && c <= 'f')
}

pub open spec fn is_time_char(c: char) -> bool {
    ('0' <= c && c <= '9') || c == '-' || c == '+' || c == ':' || c == '.' || c == 'T'
}

/// Relies on `uuid::Uuid::new_v4` and the `Display` of `Uuid`: a fresh random
/// identifier, written as 36 lowercase hex digits and hyphens.
#[verifier::external_body]
fn fresh_id() -> (r: String)
    ensures
        r@.len() == 36,
        forall|i: int| 0 <= i < r@.len() ==> is_id_char(#[trigger] r@[i]),
{
    uuid::Uuid::new_v4().to_string()
}

/// Relies on `chrono::Local::now` and `DateTime::to_rfc3339`: the time now,
/// written with digits, `-`, `+`, `:`, `.` and `T` only.
#[verifier::external_body]
fn now_rfc3339() -> (r: String)
    ensures
        forall|i: int| 0 <= i < r@.len() ==> is_time_char(#[trigger] r@[i]),
{
    chrono::Local::now().to_rfc3339()
}

fn append_line(s: &mut String, line: &str)
    ensures
        final(s)@ == old(s)@ + line@ + seq!['\n'],
{
    s.append(line);
    push_char(s, '\n');
}

/// Appends a header field, escaped, and the line feed that ends it.
fn append_field(s: &mut String, field: &str)
    ensures
        final(s)@ == old(s)@ + escaped(field@) + seq!['\n'],
{
    let v = chars_of(field);
    let ghost start = s@;
    let mut i: usize = 0;
    assert(v@.take(0) =~= Seq::<char>::empty());
    while i < v.len()
        invariant
            i <= v.len(),
            v@ == field@,
            s@ == start + escaped(v@.take(i as int)),
        decreases v.len() - i,
    {
        let c = v[i];
        assert(v@.take(i + 1).drop_last() =~= v@.take(i as int));
        if c == '\\' {
            push_char(s, '\\');
            push_char(s, '\\');
        } else if c == '\n' {
            push_char(s, '\\');
            push_char(s, 'n');
        } else {
            push_char(s, c);
        }
        assert(s@ =~= start + escaped(v@.take(i + 1)));
        i += 1;
    }
    assert(v@.take(i as int) =~= v@);
    push_char(s, '\n');
}

/// The unescaped field `t[from..to]`.
fn unescape_range(t: &Vec<char>, from: usize, to: usize) -> (r: String)
    requires
        from <= to <= t.len(),
    ensures
        r@ == unescaped(t@.subrange(from as int, to as int)),
{
    let mut r = String::new();
    let mut i = from;
    while i < to
        invariant
            from <= i <= to <= t.len(),
            unescaped(t@.subrange(from as int, to as int)) == r@ + unescaped(
                t@.subrange(i as int, to as int),
            ),
        decreases to - i,
    {
        let ghost rest = t@.subrange(i as int, to as int);
        let ghost before = r@;
        if t[i] == '\\' && i + 1 < to {
            let c = if t[i + 1] == 'n' {
                '\n'
            } else {
                t[i + 1]
            };
            push_char(&mut r, c);
            assert(rest.skip(2) =~= t@.subrange(i + 2, to as int));
            assert(r@ + unescaped(t@.subrange(i + 2, to as int)) =~= before + unescaped(rest));
            i += 2;
        } else {
            push_char(&mut r, t[i]);
            assert(rest.drop_first() =~= t@.subrange(i + 1, to as int));
            assert(r@ + unescaped(t@.subrange(i + 1, to as int)) =~= before + unescaped(rest));
            i += 1;
        }
    }
    assert(unescaped(t@.subrange(i as int, to as int)) =~= Seq::<char>::empty());
    assert(r@ + Seq::<char>::empty() =~= r@);
    r
}

/// Where the backup of `path` is kept.
pub fn backup_path(path: &str) -> (r: String)
    ensures
        r@ == backup_path_of(path@),
{
    with_extension(path, BACKUP_EXTENSION)
}

/// The text of the backup of `path`'s `content` with the given identifier
/// and timestamp.
pub fn backup_text_for(content: &str, path: &str, id: &str, timestamp: &str) -> (r: String)
    ensures
        r@ == backup_text(path@, id@, timestamp@, content@),
{
    let ext = match extension(path) {
        Some(e) => e,
        None => String::new(),
    };
    let ghost ls = header_lines(
        escaped(path@),
        escaped(extension_or_empty(path@)),
        escaped(id@),
        escaped(timestamp@),
    );
    let ghost nl = seq!['\n'];
    let mut t = String::new();
    t.append("/* Backup created by CleanCode tool");
    t.append(" - ");
    append_line(&mut t, VERSION);
    assert(t@ =~= ls[0] + nl);
    let ghost t0 = t@;
    t.append(" * Original file: ");
    append_field(&mut t, path);
    assert(t@ =~= t0 + ls[1] + nl);
    let ghost t1 = t@;
    t.append(" * Original extension: ");
    append_field(&mut t, ext.as_str());
    assert(t@ =~= t1 + ls[2] + nl);
    let ghost t2 = t@;
    t.append(" * Unique ID: ");
    append_field(&mut t, id);
    assert(t@ =~= t2 + ls[3] + nl);
    let ghost t3 = t@;
    t.append(" * Timestamp: ");
    append_field(&mut t, timestamp);
    assert(t@ =~= t3 + ls[4] + nl);
    let ghost t4 = t@;
    append_line(&mut t, " */");
    assert(t@ =~= t4 + ls[5] + nl);
    proof {
        lemma_joined_six(ls);
    }
    assert(t@ =~= joined(ls));
    let body = trimmed_end(&chars_of(content));
    t.append(body.as_str());
    t
}

/// A backup of `path`'s `content`, with a fresh identifier and the time now.
pub fn create_backup(content: &str, path: &str) -> (r: BackupArtifact)
    ensures
        r.path@ == backup_path_of(path@),
        r.text@ == backup_text(path@, r.id@, r.timestamp@, content@),
        r.id@.len() == 36,
        forall|i: int| 0 <= i < r.id@.len() ==> is_id_char(#[trigger] r.id@[i]),
        forall|i: int| 0 <= i < r.timestamp@.len() ==> is_time_char(#[trigger] r.timestamp@[i]),
{
    let id = fresh_id();
    let timestamp = now_rfc3339();
    let text = backup_text_for(content, path, id.as_str(), timestamp.as_str());
    BackupArtifact { path: backup_path(path), text, id, timestamp }
}

fn field_in(t: &Vec<char>, at: usize, label: &Vec<char>) -> (r: Option<usize>)
    requires
        at <= t.len(),
    ensures
        match r {
            Some(next) => at + label.len() < next <= t.len() && field(t@.skip(at as int), label@)
                == Some((t@.subrange(at + label.len(), next - 1), t@.skip(next as int))),
            None => field(t@.skip(at as int), label@) is None,
        },
{
    let n = find_nl(t, at);
    if n < t.len() && label.len() <= n - at && has_at(t, at, label) {
        proof {
            let u = t@.skip(at as int);
            assert(u.subrange(label.len() as int, n - at) =~= t@.subrange(at + label.len(), n as int));
            assert(u.skip(n - at + 1) =~= t@.skip(n + 1));
        }
        Some(n + 1)
    } else {
        None
    }
}

fn after_end_in(t: &Vec<char>, at: usize, end: &Vec<char>) -> (r: Option<usize>)
    requires
        at <= t.len(),
        end@ == end_line(),
    ensures
        match r {
            Some(b) => b <= t.len() && after_end(t@.skip(at as int)) == Some(t@.skip(b as int)),
            None => after_end(t@.skip(at as int)) is None,
        },
{
    let n = find_nl(t, at);
    let ghost u = t@.skip(at as int);
    if n - at == end.len() && has_at(t, at, end) {
        assert(u.take(n - at) =~= end_line());
        if n < t.len() {
            assert(u.skip(n - at + 1) =~= t@.skip(n + 1));
            Some(n + 1)
        } else {
            assert(t@.skip(n as int) =~= Seq::<char>::empty());
            Some(n)
        }
    } else {
        assert(u.take(n - at) != end_line()) by {
            if u.take(n - at) == end_line() {
                assert(u.take(n - at).len() == end.len());
                assert(u.take(end.len() as int) =~= end@);
            }
        }
        None
    }
}

/// Reads the backup of `path`: `backup` is its text, or `None` where no
/// backup exists. Gives where its content goes back to.
pub fn plan_restore(path: &str, backup: Option<&str>) -> (r: Result<RestorePlan, RestoreError>)
    ensures
        backup is None ==> r == Err::<RestorePlan, RestoreError>(RestoreError::NotFound),
        backup matches Some(t) ==> match restored(path@, t@) {
            None => r == Err::<RestorePlan, RestoreError>(RestoreError::InvalidSignature),
            Some(res) => r matches Ok(plan) && plan.target@ == res.0 && plan.content@ == res.1
                && plan.backup_path@ == backup_path_of(path@),
        },
{
    let text = match backup {
        None => {
            return Err(RestoreError::NotFound);
        },
        Some(t) => t,
    };
    let t = chars_of(text);
    let marker = chars_of("/* Backup created by CleanCode tool");
    let file = chars_of(" * Original file: ");
    let ext = chars_of(" * Original extension: ");
    let id = chars_of(" * Unique ID: ");
    let time = chars_of(" * Timestamp: ");
    let end = chars_of(" */");
    assert(t@.skip(0) =~= t@);
    let r1 = match field_in(&t, 0, &marker) {
        Some(n) => n,
        None => {
            return Err(RestoreError::InvalidSignature);
        },
    };
    let r2 = match field_in(&t, r1, &file) {
        Some(n) => n,
        None => {
            return Err(RestoreError::InvalidSignature);
        },
    };
    let r3 = match field_in(&t, r2, &ext) {
        Some(n) => n,
        None => {
            return Err(RestoreError::InvalidSignature);
        },
    };
    let r4 = match field_in(&t, r3, &id) {
        Some(n) => n,
        None => {
            return Err(RestoreError::InvalidSignature);
        },
    };
    let r5 = match field_in(&t, r4, &time) {
        Some(n) => n,
        None => {
            return Err(RestoreError::InvalidSignature);
        },
    };
    let b = match after_end_in(&t, r5, &end) {
        Some(n) => n,
        None => {
            return Err(RestoreError::InvalidSignature);
        },
    };
    let original_ext = unescape_range(&t, r2 + ext.len(), r3 - 1);
    let backup_path = backup_path(path);
    let target = with_extension(backup_path.as_str(), original_ext.as_str());
    let content = string_of(&t, b, t.len());
    assert(t@.subrange(b as int, t@.len() as int) =~= t@.skip(b as int));
    Ok(RestorePlan { backup_path, target, content })
}

/// Whether a restore whose target exists (or not) may go ahead, and how:
/// an existing target is refused unless `force` or `dry_run` is set, and a
/// dry run only reports.
pub fn restore_decision(target_exists: bool, force: bool, dry_run: bool) -> (r: Result<
    RestoreStep,
    RestoreError,
>)
    ensures
        r == (if target_exists && !force && !dry_run {
            Err(RestoreError::AlreadyExists)
        } else if dry_run {
            Ok(RestoreStep::Simulate)
        } else {
            Ok(RestoreStep::Write)
        }),
{
    if target_exists && !force && !dry_run {
        Err(RestoreError::AlreadyExists)
    } else if dry_run {
        Ok(RestoreStep::Simulate)
    } else {
        Ok(RestoreStep::Write)
    }
}

proof fn lemma_field_of_line(line: Seq<char>, rest: Seq<char>, label: Seq<char>)
    requires
        single_line(line),
        starts_with(line, label),
    ensures
        field(line + seq!['\n'] + rest, label) == Some((line.skip(label.len() as int), rest)),
{
    let t = line + seq!['\n'] + rest;
    assert(t[line.len() as int] == '\n');
    assert forall|j: int| 0 <= j < line.len() implies t[j] != '\n' by {
        assert(t[j] == line[j]);
    }
    lemma_nl_pos(t, line.len() as int);
    assert(t.take(label.len() as int) =~= line.take(label.len() as int));
    assert(t.subrange(label.len() as int, line.len() as int) =~= line.skip(label.len() as int));
    assert(t.skip(line.len() + 1 as int) =~= rest);
}

proof fn lemma_single_concat(a: Seq<char>, b: Seq<char>)
    requires
        single_line(a),
        single_line(b),
    ensures
        single_line(a + b),
{
    assert forall|i: int| 0 <= i < (a + b).len() implies (a + b)[i] != '\n' by {
        if i < a.len() {
            assert((a + b)[i] == a[i]);
        } else {
            assert((a + b)[i] == b[i - a.len()]);
        }
    }
}

proof fn lemma_labelled(label: Seq<char>, v: Seq<char>)
    requires
        single_line(label),
        single_line(v),
    ensures
        single_line(label + v),
        starts_with(label + v, label),
        (label + v).skip(label.len() as int) == v,
{
    lemma_single_concat(label, v);
    assert((label + v).take(label.len() as int) =~= label);
    assert((label + v).skip(label.len() as int) =~= v);
}

proof fn lemma_joined_then(ls: Seq<Seq<char>>, body: Seq<char>)
    requires
        ls.len() > 0,
    ensures
        joined(ls) + body == ls[0] + seq!['\n'] + (joined(ls.drop_first()) + body),
{
    assert(joined(ls) + body =~= ls[0] + seq!['\n'] + (joined(ls.drop_first()) + body));
}

/// Six header lines, each of one line, the first five with their labels and
/// the last the closing line, decode to the third line's value and the body.
proof fn lemma_decode_lines(ls: Seq<Seq<char>>, body: Seq<char>)
    requires
        ls.len() == 6,
        forall|i: int| 0 <= i < 6 ==> single_line(#[trigger] ls[i]),
        starts_with(ls[0], marker()),
        starts_with(ls[1], file_label()),
        starts_with(ls[2], ext_label()),
        starts_with(ls[3], id_label()),
        starts_with(ls[4], time_label()),
        ls[5] == end_line(),
    ensures
        decode(joined(ls) + body) == Some(
            (unescaped(ls[2].skip(ext_label().len() as int)), body),
        ),
{
    let ls1 = ls.drop_first();
    let ls2 = ls1.drop_first();
    let ls3 = ls2.drop_first();
    let ls4 = ls3.drop_first();
    let ls5 = ls4.drop_first();
    let ls6 = ls5.drop_first();
    lemma_joined_then(ls, body);
    lemma_joined_then(ls1, body);
    lemma_joined_then(ls2, body);
    lemma_joined_then(ls3, body);
    lemma_joined_then(ls4, body);
    lemma_joined_then(ls5, body);
    assert(ls6 =~= Seq::<Seq<char>>::empty());
    assert(single_line(ls[0]) && single_line(ls[1]) && single_line(ls[2]));
    assert(single_line(ls[3]) && single_line(ls[4]) && single_line(ls[5]));
    lemma_field_of_line(ls[0], joined(ls1) + body, marker());
    lemma_field_of_line(ls1[0], joined(ls2) + body, file_label());
    lemma_field_of_line(ls2[0], joined(ls3) + body, ext_label());
    lemma_field_of_line(ls3[0], joined(ls4) + body, id_label());
    lemma_field_of_line(ls4[0], joined(ls5) + body, time_label());
    let j5 = joined(ls5) + body;
    assert(j5 == end_line() + seq!['\n'] + body);
    reveal_strlit(" */");
    assert(j5[3] == '\n');
    assert forall|k: int| 0 <= k < 3 implies j5[k] != '\n' by {
        assert(j5[k] == end_line()[k]);
    }
    lemma_nl_pos(j5, 3);
    assert(j5.take(3) =~= end_line());
    assert(j5.skip(4) =~= body);
}

proof fn lemma_joined_six(ls: Seq<Seq<char>>)
    requires
        ls.len() == 6,
    ensures
        joined(ls) == ls[0] + seq!['\n'] + ls[1] + seq!['\n'] + ls[2] + seq!['\n'] + ls[3]
            + seq!['\n'] + ls[4] + seq!['\n'] + ls[5] + seq!['\n'],
{
    reveal_with_fuel(joined, 7);
    assert(ls.drop_first().drop_first().drop_first().drop_first().drop_first().drop_first()
        =~= seq![]);
    assert(joined(ls) =~= ls[0] + seq!['\n'] + ls[1] + seq!['\n'] + ls[2] + seq!['\n'] + ls[3]
        + seq!['\n'] + ls[4] + seq!['\n'] + ls[5] + seq!['\n']);
}

proof fn lemma_escaped_cons(c: char, s: Seq<char>)
    ensures
        escaped(seq![c] + s) == escape_char(c) + escaped(s),
    decreases s.len(),
{
    if s.len() == 0 {
        let t = seq![c] + s;
        assert(t.drop_last() =~= Seq::<char>::empty());
        assert(t.last() == c);
        assert(escaped(t) == escaped(t.drop_last()) + escape_char(c));
        assert(escaped(Seq::<char>::empty()) == Seq::<char>::empty());
        assert(escaped(t) =~= escape_char(c) + escaped(s));
    } else {
        assert((seq![c] + s).drop_last() =~= seq![c] + s.drop_last());
        let t = seq![c] + s;
        assert(t.last() == s.last());
        lemma_escaped_cons(c, s.drop_last());
        assert(escaped(t) == escaped(t.drop_last()) + escape_char(t.last()));
        assert(escaped(s) == escaped(s.drop_last()) + escape_char(s.last()));
        assert(escaped(t) =~= escape_char(c) + escaped(s));
    }
}

/// An escaped field holds no line feed.
pub proof fn lemma_escaped_single(s: Seq<char>)
    ensures
        single_line(escaped(s)),
    decreases s.len(),
{
    if s.len() > 0 {
        lemma_escaped_single(s.drop_last());
        let e = escape_char(s.last());
        assert(single_line(e)) by {
            assert forall|i: int| 0 <= i < e.len() implies e[i] != '\n' by {}
        }
        lemma_single_concat(escaped(s.drop_last()), e);
    }
}

/// Reading an escaped field gives the field back.
pub proof fn lemma_unescape_escaped(s: Seq<char>)
    ensures
        unescaped(escaped(s)) == s,
    decreases s.len(),
{
    if s.len() > 0 {
        let c = s[0];
        let rest = s.drop_first();
        assert(s =~= seq![c] + rest);
        lemma_escaped_cons(c, rest);
        lemma_unescape_escaped(rest);
        let w = escape_char(c) + escaped(rest);
        if c == '\\' || c == '\n' {
            assert(w.skip(2) =~= escaped(rest));
        } else {
            assert(w.drop_first() =~= escaped(rest));
        }
        assert(unescaped(w) =~= s);
    }
}

/// A header with the given field texts, each of one line, decodes to the
/// recorded extension field and the content after the header.
proof fn lemma_decode_fields(
    path: Seq<char>,
    ext: Seq<char>,
    id: Seq<char>,
    time: Seq<char>,
    body: Seq<char>,
)
    requires
        single_line(path),
        single_line(ext),
        single_line(id),
        single_line(time),
    ensures
        decode(joined(header_lines(path, ext, id, time)) + body) == Some((unescaped(ext), body)),
{
    reveal_strlit("/* Backup created by CleanCode tool");
    reveal_strlit(" - ");
    reveal_strlit("0.1.0");
    reveal_strlit(" * Original file: ");
    reveal_strlit(" * Original extension: ");
    reveal_strlit(" * Unique ID: ");
    reveal_strlit(" * Timestamp: ");
    reveal_strlit(" */");
    let ls = header_lines(path, ext, id, time);
    let l0 = marker() + " - "@ + VERSION@;
    assert(single_line(marker() + " - "@));
    assert(single_line(VERSION@));
    lemma_labelled(marker() + " - "@, VERSION@);
    assert(starts_with(l0, marker())) by {
        assert(l0.take(marker().len() as int) =~= marker());
    }
    lemma_labelled(file_label(), path);
    lemma_labelled(ext_label(), ext);
    lemma_labelled(id_label(), id);
    lemma_labelled(time_label(), time);
    assert(single_line(end_line()));
    assert forall|i: int| 0 <= i < 6 implies single_line(#[trigger] ls[i]) by {}
    lemma_decode_lines(ls, body);
}

/// Every backup decodes to the extension of its path and its content
/// without trailing whitespace, whatever the path, identifier and time hold.
pub proof fn lemma_decode_backup(path: Seq<char>, id: Seq<char>, time: Seq<char>, content: Seq<char>)
    ensures
        decode(backup_text(path, id, time, content)) == Some(
            (extension_or_empty(path), trim_end(content)),
        ),
{
    let ext = extension_or_empty(path);
    lemma_escaped_single(path);
    lemma_escaped_single(ext);
    lemma_escaped_single(id);
    lemma_escaped_single(time);
    lemma_unescape_escaped(ext);
    lemma_decode_fields(escaped(path), escaped(ext), escaped(id), escaped(time), trim_end(content));
}

/// Backing a file up, writing its cleaned content, and restoring it brings
/// the original content back to its path and leaves no backup behind. It
/// holds for a path that names a file whose extension is neither empty nor
/// the backup extension, and for content without trailing whitespace (a
/// backup keeps none).
pub proof fn lemma_backup_round_trip(
    disk: Map<Seq<char>, Seq<char>>,
    path: Seq<char>,
    id: Seq<char>,
    time: Seq<char>,
    content: Seq<char>,
    cleaned: Seq<char>,
)
    requires
        has_name(path),
        extension_of(path) != Some(Seq::<char>::empty()),
        extension_of(path) != Some(BACKUP_EXTENSION@),
        trim_end(content) == content,
    ensures
        ({
            let bp = backup_path_of(path);
            let backed_up = disk.insert(bp, backup_text(path, id, time, content)).insert(
                path,
                cleaned,
            );
            let back = backed_up.insert(path, content).remove(bp);
            &&& restored(path, backed_up[bp]) == Some((path, content))
            &&& back[path] == content
            &&& !back.contains_key(bp)
        }),
{
    reveal_strlit("bak");
    let bak = BACKUP_EXTENSION@;
    let bp = backup_path_of(path);
    lemma_extension_round_trip(path, bak);
    assert(bp != path) by {
        if bp == path {
            assert(extension_of(bp) == Some(bak));
        }
    }
    lemma_decode_backup(path, id, time, content);
}

} // verus!
