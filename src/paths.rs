//! Paths as text, with `/` as the separator: the file name is what follows
//! the last `/`; its extension is what follows its last `.`, unless that dot
//! opens the name.
use vstd::prelude::*;
use crate::text::{chars_of, string_of};

verus! {

/// Where the file name of `p` starts: just after its last `/`, or 0.
pub open spec fn name_start(p: Seq<char>) -> int
    decreases p.len(),
{
    if p.len() == 0 {
        0
    } else if p.last() == '/' {
        p.len() as int
    } else {
        name_start(p.drop_last())
    }
}

pub open spec fn file_name(p: Seq<char>) -> Seq<char> {
    p.skip(name_start(p))
}

/// A path names a file unless its last component is empty, `.` or `..`.
pub open spec fn has_name(p: Seq<char>) -> bool {
    let n = file_name(p);
    n.len() > 0 && n != seq!['.'] && n != seq!['.', '.']
}

/// Index of the last `.` of `n`, or -1.
pub open spec fn last_dot(n: Seq<char>) -> int
    decreases n.len(),
{
    if n.len() == 0 {
        -1
    } else if n.last() == '.' {
        n.len() - 1
    } else {
        last_dot(n.drop_last())
    }
}

pub open spec fn extension_of(p: Seq<char>) -> Option<Seq<char>> {
    let n = file_name(p);
    if has_name(p) && last_dot(n) > 0 {
        Some(n.skip(last_dot(n) + 1))
    } else {
        None
    }
}

/// The extension, or the empty text where there is none.
pub open spec fn extension_or_empty(p: Seq<char>) -> Seq<char> {
    match extension_of(p) {
        Some(e) => e,
        None => seq![],
    }
}

/// The file name without its extension and the dot before it.
pub open spec fn stem_of(p: Seq<char>) -> Seq<char> {
    let n = file_name(p);
    if extension_of(p) is Some {
        n.take(last_dot(n))
    } else {
        n
    }
}

/// `p` with its extension replaced by `e` (removed where `e` is empty);
/// unchanged where `p` names no file.
pub open spec fn with_extension_of(p: Seq<char>, e: Seq<char>) -> Seq<char> {
    if !has_name(p) {
        p
    } else {
        p.take(name_start(p)) + stem_of(p) + (if e.len() > 0 {
            seq!['.'] + e
        } else {
            seq![]
        })
    }
}

/// `rel` read from the directory `base`; an absolute `rel` stands alone.
pub open spec fn join_of(base: Seq<char>, rel: Seq<char>) -> Seq<char> {
    if rel.len() > 0 && rel[0] == '/' {
        rel
    } else if base.len() == 0 {
        rel
    } else if base.last() == '/' {
        base + rel
    } else {
        base + seq!['/'] + rel
    }
}

/// The directory part of `p`: empty for a bare name, `/` for a name under the root.
pub open spec fn parent_of(p: Seq<char>) -> Seq<char> {
    let k = name_start(p);
    if k == 0 {
        seq![]
    } else if k == 1 {
        seq!['/']
    } else {
        p.take(k - 1)
    }
}

pub proof fn lemma_name_start(p: Seq<char>)
    ensures
        0 <= name_start(p) <= p.len(),
        name_start(p) > 0 ==> p[name_start(p) - 1] == '/',
        forall|i: int| name_start(p) <= i < p.len() ==> p[i] != '/',
    decreases p.len(),
{
    if p.len() > 0 && p.last() != '/' {
        lemma_name_start(p.drop_last());
        assert forall|i: int| name_start(p) <= i < p.len() - 1 implies p[i] != '/' by {
            assert(p[i] == p.drop_last()[i]);
        }
    }
}

pub proof fn lemma_name_start_at(p: Seq<char>, k: int)
    requires
        0 <= k <= p.len(),
        k > 0 ==> p[k - 1] == '/',
        forall|i: int| k <= i < p.len() ==> p[i] != '/',
    ensures
        name_start(p) == k,
    decreases p.len(),
{
    if p.len() > k {
        lemma_name_start_at(p.drop_last(), k);
    }
}

pub proof fn lemma_last_dot(n: Seq<char>)
    ensures
        -1 <= last_dot(n) < n.len(),
        last_dot(n) >= 0 ==> n[last_dot(n)] == '.',
        forall|i: int| last_dot(n) < i < n.len() ==> n[i] != '.',
    decreases n.len(),
{
    if n.len() > 0 && n.last() != '.' {
        lemma_last_dot(n.drop_last());
        assert forall|i: int| last_dot(n) < i < n.len() - 1 implies n[i] != '.' by {
            assert(n[i] == n.drop_last()[i]);
        }
    }
}

pub proof fn lemma_last_dot_at(n: Seq<char>, k: int)
    requires
        -1 <= k < n.len(),
        k >= 0 ==> n[k] == '.',
        forall|i: int| k < i < n.len() ==> n[i] != '.',
    ensures
        last_dot(n) == k,
    decreases n.len(),
{
    if n.len() > k + 1 {
        lemma_last_dot_at(n.drop_last(), k);
    }
}

/// Giving a file a new extension `b` and then its old one back restores its
/// path, unless its name ends in a bare dot (whose empty extension is lost).
pub proof fn lemma_extension_round_trip(p: Seq<char>, b: Seq<char>)
    requires
        has_name(p),
        extension_of(p) != Some(Seq::<char>::empty()),
        b.len() > 0,
        forall|i: int| 0 <= i < b.len() ==> b[i] != '.' && b[i] != '/',
    ensures
        extension_of(with_extension_of(p, b)) == Some(b),
        with_extension_of(with_extension_of(p, b), extension_or_empty(p)) == p,
{
    let ns = name_start(p);
    let n = file_name(p);
    let stem = stem_of(p);
    lemma_name_start(p);
    lemma_last_dot(n);
    let q = with_extension_of(p, b);
    let tail = stem + seq!['.'] + b;
    assert(q == p.take(ns) + tail);
    assert(stem.len() > 0);
    assert forall|i: int| 0 <= i < tail.len() implies tail[i] != '/' by {
        if i < stem.len() {
            assert(tail[i] == n[i]);
            assert(n[i] == p[ns + i]);
        } else if i > stem.len() {
            assert(tail[i] == b[i - stem.len() - 1]);
        }
    }
    lemma_name_start_at(q, ns);
    assert(file_name(q) =~= tail);
    assert(tail.len() >= 3);
    assert(has_name(q)) by {
        assert(tail != seq!['.']);
        assert(tail != seq!['.', '.']);
    }
    assert forall|i: int| stem.len() < i < tail.len() implies tail[i] != '.' by {
        assert(tail[i] == b[i - stem.len() - 1]);
    }
    lemma_last_dot_at(tail, stem.len() as int);
    assert(tail.skip(stem.len() + 1 as int) =~= b);
    assert(tail.take(stem.len() as int) =~= stem);
    if extension_of(p) is Some {
        let e = n.skip(last_dot(n) + 1);
        assert(extension_of(p) == Some(e));
        if e.len() == 0 {
            assert(e =~= Seq::<char>::empty());
        }
        assert(p =~= p.take(ns) + stem + (seq!['.'] + e));
    } else {
        assert(p =~= p.take(ns) + stem + Seq::<char>::empty());
    }
}

fn name_start_in(p: &Vec<char>) -> (r: usize)
    ensures
        r == name_start(p@),
{
    let mut k = p.len();
    while k > 0 && p[k - 1] != '/'
        invariant
            k <= p.len(),
            forall|i: int| k <= i < p.len() ==> p@[i] != '/',
        decreases k,
    {
        k -= 1;
    }
    proof {
        lemma_name_start_at(p@, k as int);
    }
    k
}

/// Index in `p` of the dot that opens the extension, if there is one.
pub(crate) fn extension_dot(p: &Vec<char>) -> (r: Option<usize>)
    ensures
        match r {
            Some(d) => extension_of(p@) is Some && d == name_start(p@) + last_dot(file_name(p@))
                && name_start(p@) < d < p.len(),
            None => extension_of(p@) is None,
        },
{
    let s = name_start_in(p);
    proof {
        lemma_name_start(p@);
    }
    let n = p.len() - s;
    let ghost name = file_name(p@);
    assert(name.len() == n);
    if n == 0 {
        return None;
    }
    if n == 1 && p[s] == '.' {
        assert(name =~= seq!['.']);
        return None;
    }
    if n == 2 && p[s] == '.' && p[s + 1] == '.' {
        assert(name =~= seq!['.', '.']);
        return None;
    }
    assert(has_name(p@)) by {
        if n == 1 {
            assert(name[0] == p@[s as int]);
        }
        if n == 2 {
            assert(name[0] == p@[s as int] && name[1] == p@[s + 1]);
        }
    }
    let mut k = p.len();
    while k > s && p[k - 1] != '.'
        invariant
            s <= k <= p.len(),
            s == name_start(p@),
            forall|i: int| k <= i < p.len() ==> p@[i] != '.',
        decreases k,
    {
        k -= 1;
    }
    proof {
        assert forall|i: int| (k - s) - 1 < i < name.len() implies name[i] != '.' by {
            assert(name[i] == p@[s + i]);
        }
        lemma_last_dot_at(name, (k - s) - 1);
    }
    if k > s + 1 {
        Some(k - 1)
    } else {
        None
    }
}

/// The extension of `path`, if its file name has one.
pub fn extension(path: &str) -> (r: Option<String>)
    ensures
        match r {
            Some(e) => extension_of(path@) == Some(e@),
            None => extension_of(path@) is None,
        },
{
    let p = chars_of(path);
    match extension_dot(&p) {
        Some(d) => {
            proof {
                lemma_name_start(p@);
                lemma_last_dot(file_name(p@));
                assert(file_name(p@).skip(last_dot(file_name(p@)) + 1) =~= p@.subrange(
                    d + 1,
                    p@.len() as int,
                ));
            }
            Some(string_of(&p, d + 1, p.len()))
        },
        None => None,
    }
}

pub(crate) fn with_extension_chars(p: &Vec<char>, ext: &Vec<char>) -> (r: Vec<char>)
    ensures
        r@ == with_extension_of(p@, ext@),
{
    let s = name_start_in(p);
    proof {
        lemma_name_start(p@);
    }
    let n = p.len() - s;
    let ghost name = file_name(p@);
    if n == 0 || (n == 1 && p[s] == '.') || (n == 2 && p[s] == '.' && p[s + 1] == '.') {
        assert(!has_name(p@)) by {
            if n == 1 {
                assert(name =~= seq!['.']);
            }
            if n == 2 {
                assert(name =~= seq!['.', '.']);
            }
        }
        return p.clone();
    }
    assert(has_name(p@)) by {
        if n == 1 {
            assert(name[0] == p@[s as int]);
        }
        if n == 2 {
            assert(name[0] == p@[s as int] && name[1] == p@[s + 1]);
        }
    }
    let end = match extension_dot(p) {
        Some(d) => d,
        None => p.len(),
    };
    let mut r: Vec<char> = Vec::new();
    let mut i: usize = 0;
    while i < end
        invariant
            i <= end <= p.len(),
            r@ == p@.take(i as int),
        decreases end - i,
    {
        r.push(p[i]);
        assert(p@.take(i + 1) == p@.take(i as int).push(p@[i as int]));
        i += 1;
    }
    assert(p@.take(end as int) =~= p@.take(name_start(p@)) + stem_of(p@));
    if ext.len() > 0 {
        r.push('.');
        let mut j: usize = 0;
        let ghost base = r@;
        while j < ext.len()
            invariant
                j <= ext.len(),
                r@ == base + ext@.take(j as int),
            decreases ext.len() - j,
        {
            r.push(ext[j]);
            assert(ext@.take(j + 1) == ext@.take(j as int).push(ext@[j as int]));
            assert(r@ =~= base + ext@.take(j + 1));
            j += 1;
        }
        assert(ext@.take(j as int) =~= ext@);
    }
    assert(r@ =~= with_extension_of(p@, ext@));
    r
}

/// `path` with its extension replaced by `ext`.
pub fn with_extension(path: &str, ext: &str) -> (r: String)
    ensures
        r@ == with_extension_of(path@, ext@),
{
    let p = chars_of(path);
    let e = chars_of(ext);
    let r = with_extension_chars(&p, &e);
    string_of(&r, 0, r.len())
}

pub(crate) fn join_chars(base: &Vec<char>, rel: &Vec<char>) -> (r: Vec<char>)
    ensures
        r@ == join_of(base@, rel@),
{
    if (rel.len() > 0 && rel[0] == '/') || base.len() == 0 {
        return rel.clone();
    }
    let mut r = base.clone();
    if base[base.len() - 1] != '/' {
        r.push('/');
    }
    let ghost head = r@;
    let mut j: usize = 0;
    while j < rel.len()
        invariant
            j <= rel.len(),
            r@ == head + rel@.take(j as int),
        decreases rel.len() - j,
    {
        r.push(rel[j]);
        assert(rel@.take(j + 1) == rel@.take(j as int).push(rel@[j as int]));
        assert(r@ =~= head + rel@.take(j + 1));
        j += 1;
    }
    assert(rel@.take(j as int) =~= rel@);
    r
}

/// `rel` read from the directory `base`.
pub fn join(base: &str, rel: &str) -> (r: String)
    ensures
        r@ == join_of(base@, rel@),
{
    let b = chars_of(base);
    let l = chars_of(rel);
    let r = join_chars(&b, &l);
    string_of(&r, 0, r.len())
}

/// The directory that holds `path`.
pub fn parent(path: &str) -> (r: String)
    ensures
        r@ == parent_of(path@),
{
    let p = chars_of(path);
    let k = name_start_in(&p);
    proof {
        lemma_name_start(p@);
    }
    if k == 0 {
        String::new()
    } else if k == 1 {
        assert(p@.take(1) =~= seq!['/']);
        string_of(&p, 0, 1)
    } else {
        string_of(&p, 0, k - 1)
    }
}

} // verus!
