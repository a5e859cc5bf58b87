//! The rules by which listed files are taken or skipped: exclusions by path
//! prefix, component by component, and the extension filter.
use vstd::prelude::*;
use crate::imports::views;
use crate::paths::{extension, extension_of};
use crate::text::{chars_of, split_chars, split_on};

verus! {

/// The directories that are skipped unless the caller says otherwise.
pub fn default_exclusions() -> (r: Vec<String>)
    ensures
        views(r@) == seq!["node_modules"@, "target"@, "vendor"@],
{
    let r = vec![
        String::from_str("node_modules"),
        String::from_str("target"),
        String::from_str("vendor"),
    ];
    assert(views(r@) =~= seq!["node_modules"@, "target"@, "vendor"@]);
    r
}

/// A component that names something: not empty, not `.`.
pub open spec fn is_normal_part(x: Seq<char>) -> bool {
    x.len() > 0 && x != seq!['.']
}

pub open spec fn normal_parts(ss: Seq<Seq<char>>) -> Seq<Seq<char>> {
    ss.filter(|x: Seq<char>| is_normal_part(x))
}

/// The components of a path: a root `/` or a leading `.` where the path
/// opens with one, then the pieces between separators that are neither
/// empty nor `.`.
pub open spec fn components(p: Seq<char>) -> Seq<Seq<char>> {
    let ss = split_on(p, '/');
    if p.len() > 0 && p[0] == '/' {
        seq![seq!['/']] + normal_parts(ss.drop_first())
    } else if ss[0] == seq!['.'] {
        seq![seq!['.']] + normal_parts(ss.drop_first())
    } else {
        normal_parts(ss)
    }
}

/// `base`'s components open `p`'s.
pub open spec fn path_starts_with(p: Seq<char>, base: Seq<char>) -> bool {
    let a = components(p);
    let b = components(base);
    b.len() <= a.len() && a.take(b.len() as int) == b
}

pub open spec fn excluded_by(p: Seq<char>, exclusions: Seq<Seq<char>>) -> bool {
    exists|i: int| 0 <= i < exclusions.len() && path_starts_with(p, #[trigger] exclusions[i])
}

/// Whether a listed file is taken: it has an extension and, where a
/// comma-separated list is given, its extension is one of the list.
pub open spec fn selected(p: Seq<char>, list: Option<Seq<char>>) -> bool {
    match extension_of(p) {
        None => false,
        Some(e) => match list {
            None => true,
            Some(l) => split_on(l, ',').contains(e),
        },
    }
}

fn same_chars(a: &Vec<char>, b: &Vec<char>) -> (r: bool)
    ensures
        r == (a@ == b@),
{
    if a.len() != b.len() {
        return false;
    }
    let mut i: usize = 0;
    while i < a.len()
        invariant
            i <= a.len() == b.len(),
            forall|j: int| 0 <= j < i ==> a@[j] == b@[j],
        decreases a.len() - i,
    {
        if a[i] != b[i] {
            return false;
        }
        i += 1;
    }
    assert(a@ =~= b@);
    true
}

fn components_of(v: &Vec<char>) -> (r: Vec<Vec<char>>)
    ensures
        r.len() == components(v@).len(),
        forall|i: int| 0 <= i < r.len() ==> (#[trigger] r[i])@ == components(v@)[i],
{
    let ss = split_chars(v, '/');
    let ghost parts = split_on(v@, '/');
    let dot = vec!['.'];
    assert(dot@ =~= seq!['.']);
    let mut out: Vec<Vec<char>> = Vec::new();
    let mut s: usize = 0;
    assert(parts.len() > 0);
    if v.len() > 0 && v[0] == '/' {
        let root = vec!['/'];
        assert(root@ =~= seq!['/']);
        out.push(root);
        s = 1;
    } else if same_chars(&ss[0], &dot) {
        out.push(dot.clone());
        s = 1;
    }
    let ghost head: Seq<Seq<char>> = if s == 1 {
        seq![out[0]@]
    } else {
        seq![]
    };
    let ghost tail = parts.skip(s as int);
    let ghost pred = |x: Seq<char>| is_normal_part(x);
    assert(components(v@) == head + tail.filter(pred)) by {
        if s == 0 {
            assert(tail =~= parts);
            assert(head + tail.filter(pred) =~= tail.filter(pred));
        } else {
            assert(tail =~= parts.drop_first());
        }
    }
    let mut i = s;
    assert(tail.take(0) =~= Seq::<Seq<char>>::empty());
    while i < ss.len()
        invariant
            s <= i <= ss.len() == parts.len(),
            s <= 1,
            dot@ == seq!['.'],
            tail == parts.skip(s as int),
            pred == (|x: Seq<char>| is_normal_part(x)),
            forall|j: int| 0 <= j < ss.len() ==> (#[trigger] ss[j])@ == parts[j],
            out.len() == head.len() + tail.take(i - s).filter(pred).len(),
            forall|j: int|
                0 <= j < out.len() ==> (#[trigger] out[j])@ == (head + tail.take(i - s).filter(
                    pred,
                ))[j],
        decreases ss.len() - i,
    {
        assert(tail.take(i - s + 1).drop_last() =~= tail.take(i - s));
        assert(tail[i - s] == parts[i as int]);
        reveal_with_fuel(Seq::filter, 1);
        if ss[i].len() > 0 && !same_chars(&ss[i], &dot) {
            let piece = ss[i].clone();
            out.push(piece);
            assert(is_normal_part(parts[i as int]));
            assert(head + tail.take(i - s + 1).filter(pred) =~= (head + tail.take(i - s).filter(
                pred,
            )).push(parts[i as int]));
        } else {
            assert(!is_normal_part(parts[i as int])) by {
                if ss[i as int]@.len() > 0 {
                    assert(parts[i as int] =~= seq!['.']);
                }
            }
        }
        i += 1;
    }
    assert(tail.take(i - s) =~= tail);
    out
}

/// Whether `path` lies under one of `exclusions`, component by component.
pub fn is_excluded(path: &str, exclusions: &Vec<String>) -> (r: bool)
    ensures
        r == excluded_by(path@, views(exclusions@)),
{
    let a = components_of(&chars_of(path));
    let mut k: usize = 0;
    while k < exclusions.len()
        invariant
            k <= exclusions.len(),
            a.len() == components(path@).len(),
            forall|i: int| 0 <= i < a.len() ==> (#[trigger] a[i])@ == components(path@)[i],
            forall|i: int| 0 <= i < k ==> !path_starts_with(path@, #[trigger] views(exclusions@)[i]),
        decreases exclusions.len() - k,
    {
        let b = components_of(&chars_of(exclusions[k].as_str()));
        let ghost bv = views(exclusions@)[k as int];
        assert(bv == exclusions@[k as int]@);
        if b.len() <= a.len() {
            let mut j: usize = 0;
            let mut same = true;
            while j < b.len()
                invariant
                    j <= b.len() <= a.len(),
                    same == forall|i: int| 0 <= i < j ==> a[i]@ == b[i]@,
                decreases b.len() - j,
            {
                if !same_chars(&a[j], &b[j]) {
                    same = false;
                }
                j += 1;
            }
            if same {
                assert forall|i: int| 0 <= i < b.len() implies components(path@).take(
                    b.len() as int,
                )[i] == components(bv)[i] by {
                    assert(a[i]@ == b[i]@);
                }
                assert(components(path@).take(b.len() as int) =~= components(bv));
                assert(path_starts_with(path@, views(exclusions@)[k as int]));
                return true;
            }
            assert(components(path@).take(b.len() as int) != components(bv)) by {
                let w = choose|i: int| 0 <= i < b.len() && a[i]@ != b[i]@;
                assert(components(path@).take(b.len() as int)[w] == a[w]@);
            }
        }
        k += 1;
    }
    false
}

/// Whether a listed file is taken, given the optional comma-separated list
/// of wanted extensions.
pub fn extension_selected(path: &str, extensions: Option<&str>) -> (r: bool)
    ensures
        r == selected(
            path@,
            match extensions {
                Some(l) => Some(l@),
                None => None,
            },
        ),
{
    let e = match extension(path) {
        None => {
            return false;
        },
        Some(e) => e,
    };
    let list = match extensions {
        None => {
            return true;
        },
        Some(l) => l,
    };
    let wanted = split_chars(&chars_of(list), ',');
    let ec = chars_of(e.as_str());
    let ghost pieces = split_on(list@, ',');
    let mut i: usize = 0;
    while i < wanted.len()
        invariant
            i <= wanted.len() == pieces.len(),
            ec@ == e@,
            extensions == Some(list),
            pieces == split_on(list@, ','),
            extension_of(path@) == Some(e@),
            forall|j: int| 0 <= j < wanted.len() ==> (#[trigger] wanted[j])@ == pieces[j],
            forall|j: int| 0 <= j < i ==> pieces[j] != e@,
        decreases wanted.len() - i,
    {
        if same_chars(&wanted[i], &ec) {
            assert(pieces[i as int] == e@);
            assert(pieces.contains(e@));
            return true;
        }
        i += 1;
    }
    false
}

} // verus!
