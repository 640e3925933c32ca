//! Unix path components, as `std::path::Path` reads them, over characters.
use vstd::prelude::*;

use crate::text::{ascii_lower, chars_of, lower_char};

verus! {

/// The pieces of `s` between separators, as `str::split` yields them.
pub open spec fn split_on(s: Seq<char>, sep: char) -> Seq<Seq<char>>
    decreases s.len(),
{
    if s.len() == 0 {
        seq![seq![]]
    } else {
        let r = split_on(s.drop_last(), sep);
        if s.last() == sep {
            r.push(seq![])
        } else {
            r.update(r.len() - 1, r.last().push(s.last()))
        }
    }
}

pub proof fn lemma_split_on_len(s: Seq<char>, sep: char)
    ensures
        split_on(s, sep).len() >= 1,
    decreases s.len(),
{
    if s.len() > 0 {
        lemma_split_on_len(s.drop_last(), sep);
    }
}

/// The segments that name a component: not empty and not `.`.
pub open spec fn kept_segments(segs: Seq<Seq<char>>) -> Seq<Seq<char>>
    decreases segs.len(),
{
    if segs.len() == 0 {
        seq![]
    } else {
        let r = kept_segments(segs.drop_last());
        if segs.last().len() > 0 && segs.last() != seq!['.'] {
            r.push(segs.last())
        } else {
            r
        }
    }
}

/// The components of a Unix path, each written as `Component::as_os_str`
/// gives it: `/` for the root, `.` for a leading current directory, `..` for
/// a parent, and the name otherwise. Repeated separators and inner `.`
/// segments are dropped.
pub open spec fn path_components(p: Seq<char>) -> Seq<Seq<char>> {
    let rooted = p.len() > 0 && p[0] == '/';
    let segs = split_on(p, '/');
    let current = !rooted && segs[0] == seq!['.'];
    (if rooted {
        seq![seq!['/']]
    } else {
        seq![]
    }) + (if current {
        seq![seq!['.']]
    } else {
        seq![]
    }) + kept_segments(segs)
}

pub open spec fn is_normal_component(c: Seq<char>) -> bool {
    c != seq!['/'] && c != seq!['.'] && c != seq!['.', '.']
}

/// `Path::file_name`: the last component when it is a name.
pub open spec fn file_name(p: Seq<char>) -> Option<Seq<char>> {
    let c = path_components(p);
    if c.len() > 0 && is_normal_component(c.last()) {
        Some(c.last())
    } else {
        None
    }
}

/// Index of the last `.` in `s`, or -1.
pub open spec fn last_dot(s: Seq<char>) -> int
    decreases s.len(),
{
    if s.len() == 0 {
        -1
    } else if s.last() == '.' {
        s.len() - 1
    } else {
        last_dot(s.drop_last())
    }
}

/// `Path::extension` of a file name: the text after its last `.`, unless
/// that dot starts the name.
pub open spec fn extension_of(name: Seq<char>) -> Option<Seq<char>> {
    let i = last_dot(name);
    if i > 0 {
        Some(name.skip(i + 1))
    } else {
        None
    }
}

/// ASCII case-insensitive equality (`eq_ignore_ascii_case`).
pub open spec fn eq_ignore_ascii_case(a: Seq<char>, b: Seq<char>) -> bool {
    a.len() == b.len() && forall|i: int| 0 <= i < a.len() ==> ascii_lower(#[trigger] a[i]) == ascii_lower(b[i])
}

/// A file name whose extension is `app` in any ASCII case.
pub open spec fn has_app_extension(name: Seq<char>) -> bool {
    match extension_of(name) {
        Some(e) => eq_ignore_ascii_case(e, seq!['a', 'p', 'p']),
        None => false,
    }
}

/// `Path::starts_with`: `base`'s components are a prefix of `p`'s.
pub open spec fn path_starts_with(p: Seq<char>, base: Seq<Seq<char>>) -> bool {
    base.len() <= path_components(p).len() && path_components(p).take(base.len() as int) == base
}

pub open spec fn rows(v: Seq<Vec<char>>) -> Seq<Seq<char>> {
    v.map_values(|x: Vec<char>| x@)
}

/// The components of `p` (see `path_components`).
pub fn split_path(p: &Vec<char>) -> (parts: Vec<Vec<char>>)
    ensures
        rows(parts@) == path_components(p@),
{
    let mut kept: Vec<Vec<char>> = Vec::new();
    let mut cur: Vec<char> = Vec::new();
    let mut first: Vec<char> = Vec::new();
    let mut single = true;
    let mut i: usize = 0;
    assert(p@.take(0) =~= Seq::<char>::empty());
    while i < p.len()
        invariant
            i <= p@.len(),
            rows(kept@) == kept_segments(split_on(p@.take(i as int), '/').drop_last()),
            cur@ == split_on(p@.take(i as int), '/').last(),
            first@ == split_on(p@.take(i as int), '/')[0],
            single == (split_on(p@.take(i as int), '/').len() == 1),
            split_on(p@.take(i as int), '/').len() >= 1,
        decreases p.len() - i,
    {
        let ghost before = split_on(p@.take(i as int), '/');
        let c = p[i];
        assert(p@.take(i + 1).drop_last() =~= p@.take(i as int));
        assert(p@.take(i + 1).last() == c);
        if c == '/' {
            assert(split_on(p@.take(i + 1), '/') == before.push(seq![]));
            assert(before.push(seq![]).drop_last() =~= before);
            if cur.len() > 0 && !(cur.len() == 1 && cur[0] == '.') {
                proof {
                    if cur@ == seq!['.'] {
                        assert(cur@[0] == '.');
                    }
                }
                kept.push(cur);
                assert(rows(kept@) =~= kept_segments(before.drop_last()).push(before.last()));
            } else {
                proof {
                    if cur@.len() == 1 && cur@[0] == '.' {
                        assert(cur@ =~= seq!['.']);
                    }
                }
            }
            cur = Vec::new();
            single = false;
        } else {
            let ghost after = before.update(before.len() - 1, before.last().push(c));
            assert(split_on(p@.take(i + 1), '/') == after);
            assert(after.drop_last() =~= before.drop_last());
            cur.push(c);
            if single {
                first.push(c);
            }
        }
        i = i + 1;
    }
    assert(p@.take(p.len() as int) =~= p@);
    let ghost segs = split_on(p@, '/');
    let mut parts: Vec<Vec<char>> = Vec::new();
    let rooted = p.len() > 0 && p[0] == '/';
    if rooted {
        let mut root: Vec<char> = Vec::new();
        root.push('/');
        parts.push(root);
    } else if first.len() == 1 && first[0] == '.' {
        let mut dot: Vec<char> = Vec::new();
        dot.push('.');
        parts.push(dot);
        assert(first@ =~= seq!['.']);
    } else {
        proof {
            if first@ == seq!['.'] {
                assert(first@[0] == '.');
            }
        }
    }
    let ghost prefix = rows(parts@);
    let mut k: usize = 0;
    while k < kept.len()
        invariant
            k <= kept@.len(),
            rows(parts@) == prefix + rows(kept@).take(k as int),
        decreases kept.len() - k,
    {
        let mut copy: Vec<char> = Vec::new();
        let mut m: usize = 0;
        while m < kept[k].len()
            invariant
                k < kept@.len(),
                m <= kept@[k as int]@.len(),
                copy@ == kept@[k as int]@.take(m as int),
            decreases kept[k as int]@.len() - m,
        {
            copy.push(kept[k][m]);
            assert(kept@[k as int]@.take(m + 1) =~= kept@[k as int]@.take(m as int).push(kept@[k as int]@[m as int]));
            m = m + 1;
        }
        assert(kept@[k as int]@.take(m as int) =~= kept@[k as int]@);
        let ghost old_parts = parts@;
        parts.push(copy);
        assert(rows(parts@) =~= rows(old_parts).push(kept@[k as int]@));
        assert(rows(kept@).take(k + 1) =~= rows(kept@).take(k as int).push(kept@[k as int]@));
        assert(rows(parts@) =~= prefix + rows(kept@).take(k + 1));
        k = k + 1;
    }
    assert(rows(kept@).take(kept.len() as int) =~= rows(kept@));
    let last_kept = cur.len() > 0 && !(cur.len() == 1 && cur[0] == '.');
    proof {
        if cur@ == seq!['.'] {
            assert(cur@[0] == '.');
        }
        if cur@.len() == 1 && cur@[0] == '.' {
            assert(cur@ =~= seq!['.']);
        }
    }
    if last_kept {
        let ghost old_parts = parts@;
        parts.push(cur);
        assert(rows(parts@) =~= rows(old_parts).push(segs.last()));
        assert(rows(parts@) =~= prefix + kept_segments(segs.drop_last()).push(segs.last()));
    }
    assert(rows(parts@) =~= path_components(p@));
    parts
}

} // verus!

verus! {

pub fn is_normal(c: &Vec<char>) -> (r: bool)
    ensures
        r == is_normal_component(c@),
{
    let root = c.len() == 1 && c[0] == '/';
    let dot = c.len() == 1 && c[0] == '.';
    let dots = c.len() == 2 && c[0] == '.' && c[1] == '.';
    proof {
        if c@ == seq!['/'] {
            assert(c@[0] == '/');
        }
        if c@ == seq!['.'] {
            assert(c@[0] == '.');
        }
        if c@ == seq!['.', '.'] {
            assert(c@[0] == '.' && c@[1] == '.');
        }
        if root {
            assert(c@ =~= seq!['/']);
        }
        if dot {
            assert(c@ =~= seq!['.']);
        }
        if dots {
            assert(c@ =~= seq!['.', '.']);
        }
    }
    !(root || dot || dots)
}

/// The file name of `p` (see `file_name`).
pub fn file_name_chars(p: &Vec<char>) -> (r: Option<Vec<char>>)
    ensures
        match r {
            Some(n) => file_name(p@) == Some(n@),
            None => file_name(p@) is None,
        },
{
    let mut parts = split_path(p);
    let n = parts.len();
    if n == 0 {
        return None;
    }
    assert(rows(parts@)[n - 1] == parts@[n - 1]@);
    if !is_normal(&parts[n - 1]) {
        return None;
    }
    let last = parts.pop();
    match last {
        Some(name) => Some(name),
        None => None,
    }
}

/// Whether the file name has the extension `app` in any ASCII case.
pub fn app_extension(name: &Vec<char>) -> (r: bool)
    ensures
        r == has_app_extension(name@),
{
    let mut j: usize = name.len();
    assert(name@.take(j as int) =~= name@);
    while j > 0 && name[j - 1] != '.'
        invariant
            j <= name@.len(),
            last_dot(name@) == last_dot(name@.take(j as int)),
        decreases j,
    {
        assert(name@.take(j as int).drop_last() =~= name@.take(j - 1));
        j = j - 1;
    }
    proof {
        if j == name@.len() {
            assert(name@.take(j as int) =~= name@);
        }
    }
    assert(name@.take(name@.len() as int) =~= name@);
    if j <= 1 {
        proof {
            if j == 1 {
                assert(name@.take(1).last() == '.');
            } else {
                assert(name@.take(0) =~= Seq::<char>::empty());
            }
        }
        return false;
    }
    assert(name@.take(j as int).last() == '.');
    assert(last_dot(name@) == j - 1);
    let ext_len = name.len() - j;
    if ext_len != 3 {
        assert(name@.skip(j as int).len() == ext_len);
        return false;
    }
    let a = crate::text::lower_char(name[j]);
    let b = crate::text::lower_char(name[j + 1]);
    let c = crate::text::lower_char(name[j + 2]);
    let ghost e = name@.skip(j as int);
    assert(e[0] == name@[j as int] && e[1] == name@[j + 1] && e[2] == name@[j + 2]);
    let r = a == 'a' && b == 'p' && c == 'p';
    proof {
        let app = seq!['a', 'p', 'p'];
        if r {
            assert forall|i: int| 0 <= i < e.len() implies ascii_lower(#[trigger] e[i]) == ascii_lower(app[i]) by {
                if i == 0 {
                } else if i == 1 {
                } else {
                }
            }
        } else {
            if eq_ignore_ascii_case(e, app) {
                assert(ascii_lower(e[0]) == ascii_lower(app[0]));
                assert(ascii_lower(e[1]) == ascii_lower(app[1]));
                assert(ascii_lower(e[2]) == ascii_lower(app[2]));
            }
        }
    }
    r
}

/// Equality of component lists.
pub fn rows_equal(a: &Vec<Vec<char>>, b: &Vec<Vec<char>>) -> (r: bool)
    ensures
        r == (rows(a@) == rows(b@)),
{
    if a.len() != b.len() {
        assert(rows(a@).len() != rows(b@).len());
        return false;
    }
    let mut i: usize = 0;
    while i < a.len()
        invariant
            a.len() == b.len(),
            i <= a.len(),
            forall|j: int| 0 <= j < i ==> #[trigger] rows(a@)[j] == rows(b@)[j],
        decreases a.len() - i,
    {
        if !crate::text::chars_equal(&a[i], &b[i]) {
            assert(rows(a@)[i as int] != rows(b@)[i as int]);
            return false;
        }
        i = i + 1;
    }
    assert(rows(a@) =~= rows(b@));
    true
}

/// Whether `base` is a prefix of `parts`.
pub fn rows_prefix(parts: &Vec<Vec<char>>, base: &Vec<Vec<char>>) -> (r: bool)
    ensures
        r == (rows(base@).len() <= rows(parts@).len() && rows(parts@).take(rows(base@).len() as int)
            == rows(base@)),
{
    if base.len() > parts.len() {
        return false;
    }
    let mut i: usize = 0;
    while i < base.len()
        invariant
            base.len() <= parts.len(),
            i <= base.len(),
            forall|j: int| 0 <= j < i ==> #[trigger] rows(parts@)[j] == rows(base@)[j],
        decreases base.len() - i,
    {
        if !crate::text::chars_equal(&parts[i], &base[i]) {
            assert(rows(parts@).take(base.len() as int)[i as int] != rows(base@)[i as int]);
            return false;
        }
        i = i + 1;
    }
    assert(rows(parts@).take(base.len() as int) =~= rows(base@));
    true
}

/// `str::eq_ignore_ascii_case`.
pub fn str_eq_ignore_ascii_case(a: &str, b: &str) -> (r: bool)
    ensures
        r == eq_ignore_ascii_case(a@, b@),
{
    let x = chars_of(a);
    let y = chars_of(b);
    if x.len() != y.len() {
        return false;
    }
    let mut i: usize = 0;
    while i < x.len()
        invariant
            x@ == a@,
            y@ == b@,
            x@.len() == y@.len(),
            i <= x@.len(),
            forall|j: int| 0 <= j < i ==> ascii_lower(#[trigger] x@[j]) == ascii_lower(y@[j]),
        decreases x.len() - i,
    {
        if lower_char(x[i]) != lower_char(y[i]) {
            return false;
        }
        i = i + 1;
    }
    true
}

} // verus!
