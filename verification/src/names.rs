//! Lists of names compared with ASCII case ignored: stable sorting by the
//! lower-case form and dropping adjacent case-insensitive duplicates.
use vstd::prelude::*;

use crate::paths::rows;
use crate::plan::texts;
use crate::text::{ascii_lower, chars_of, lex_lt, string_from_chars};

verus! {

pub open spec fn ascii_lowered(s: Seq<char>) -> Seq<char> {
    s.map_values(|c: char| ascii_lower(c))
}

/// Position before the first name whose lower-cased form sorts after `x`'s.
pub open spec fn name_insert_position(s: Seq<Seq<char>>, x: Seq<char>) -> int
    decreases s.len(),
{
    if s.len() == 0 {
        0
    } else if lex_lt(ascii_lowered(x), ascii_lowered(s[0])) {
        0
    } else {
        1 + name_insert_position(s.drop_first(), x)
    }
}

/// Names stably sorted by their ASCII lower-case form.
pub open spec fn sorted_by_lowercase(s: Seq<Seq<char>>) -> Seq<Seq<char>>
    decreases s.len(),
{
    if s.len() == 0 {
        s
    } else {
        let r = sorted_by_lowercase(s.drop_last());
        r.insert(name_insert_position(r, s.last()), s.last())
    }
}

/// Drops each name equal, ignoring ASCII case, to the last one kept
/// (`Vec::dedup_by` with `eq_ignore_ascii_case`).
pub open spec fn dedup_ignoring_case(s: Seq<Seq<char>>) -> Seq<Seq<char>>
    decreases s.len(),
{
    if s.len() == 0 {
        s
    } else {
        let r = dedup_ignoring_case(s.drop_last());
        if r.len() > 0 && crate::paths::eq_ignore_ascii_case(r.last(), s.last()) {
            r
        } else {
            r.push(s.last())
        }
    }
}

proof fn lemma_eq_ignore_case_lowered(a: Seq<char>, b: Seq<char>)
    ensures
        crate::paths::eq_ignore_ascii_case(a, b) == (ascii_lowered(a) == ascii_lowered(b)),
{
    let la = ascii_lowered(a);
    let lb = ascii_lowered(b);
    assert(la.len() == a.len() && lb.len() == b.len());
    if la == lb {
        assert forall|i: int| 0 <= i < a.len() implies ascii_lower(#[trigger] a[i]) == ascii_lower(b[i]) by {
            assert(la[i] == ascii_lower(a[i]));
            assert(lb[i] == ascii_lower(b[i]));
        }
    }
    if crate::paths::eq_ignore_ascii_case(a, b) {
        assert(la =~= lb);
    }
}

fn lowered_chars(v: &Vec<char>) -> (r: Vec<char>)
    ensures
        r@ == ascii_lowered(v@),
{
    let mut r: Vec<char> = Vec::new();
    let mut i: usize = 0;
    while i < v.len()
        invariant
            i <= v@.len(),
            r@ == ascii_lowered(v@.take(i as int)),
        decreases v.len() - i,
    {
        r.push(crate::text::lower_char(v[i]));
        assert(ascii_lowered(v@.take(i + 1)) =~= ascii_lowered(v@.take(i as int)).push(ascii_lower(v@[i as int])));
        i = i + 1;
    }
    assert(v@.take(i as int) =~= v@);
    r
}

pub open spec fn picked_rows(names: Seq<Seq<char>>, idx: Seq<usize>) -> Seq<Seq<char>> {
    idx.map_values(|i: usize| names[i as int])
}

proof fn lemma_name_insert_position(s: Seq<Seq<char>>, x: Seq<char>, j: int)
    requires
        0 <= j <= s.len(),
        forall|m: int| 0 <= m < j ==> !lex_lt(ascii_lowered(x), #[trigger] ascii_lowered(s[m])),
        j == s.len() || lex_lt(ascii_lowered(x), ascii_lowered(s[j])),
    ensures
        name_insert_position(s, x) == j,
    decreases j,
{
    if j > 0 {
        assert forall|m: int| 0 <= m < j - 1 implies !lex_lt(
            ascii_lowered(x),
            #[trigger] ascii_lowered(s.drop_first()[m]),
        ) by {
            assert(s.drop_first()[m] == s[m + 1]);
        }
        lemma_name_insert_position(s.drop_first(), x, j - 1);
    }
}

/// Names stably sorted by their ASCII lower-case form, then each name equal
/// (ignoring ASCII case) to the one before dropped: `sort_by_key` on
/// `to_ascii_lowercase` followed by `dedup_by` on `eq_ignore_ascii_case`.
pub fn sorted_unique_ignoring_case(list: &Vec<String>) -> (r: Vec<String>)
    ensures
        texts(r@) == dedup_ignoring_case(sorted_by_lowercase(texts(list@))),
{
    let ghost all = texts(list@);
    let mut names: Vec<Vec<char>> = Vec::new();
    let mut keys: Vec<Vec<char>> = Vec::new();
    let mut i: usize = 0;
    while i < list.len()
        invariant
            i <= list@.len(),
            all == texts(list@),
            rows(names@) == all.take(i as int),
            keys@.len() == i,
            forall|m: int| 0 <= m < i ==> (#[trigger] keys@[m])@ == ascii_lowered(all[m]),
        decreases list.len() - i,
    {
        let n = chars_of(list[i].as_str());
        let k = lowered_chars(&n);
        let ghost before = names@;
        let ghost nv = n@;
        names.push(n);
        keys.push(k);
        assert(rows(names@) =~= rows(before).push(nv));
        assert(all.take(i + 1) =~= all.take(i as int).push(all[i as int]));
        i = i + 1;
    }
    assert(all.take(i as int) =~= all);
    let mut order: Vec<usize> = Vec::new();
    let mut t: usize = 0;
    while t < names.len()
        invariant
            t <= names@.len(),
            rows(names@) == all,
            keys@.len() == names@.len(),
            forall|m: int| 0 <= m < names@.len() ==> (#[trigger] keys@[m])@ == ascii_lowered(all[m]),
            forall|m: int| 0 <= m < order@.len() ==> #[trigger] order@[m] < names@.len(),
            picked_rows(all, order@) == sorted_by_lowercase(all.take(t as int)),
            order@.len() == t,
        decreases names.len() - t,
    {
        let mut j: usize = 0;
        while j < order.len() && !crate::text::chars_less(&keys[t], &keys[order[j]])
            invariant
                j <= order@.len(),
                t < names@.len(),
                keys@.len() == names@.len(),
                forall|m: int| 0 <= m < names@.len() ==> (#[trigger] keys@[m])@ == ascii_lowered(all[m]),
                forall|m: int| 0 <= m < order@.len() ==> #[trigger] order@[m] < names@.len(),
                forall|m: int|
                    0 <= m < j ==> !lex_lt(
                        ascii_lowered(all[t as int]),
                        #[trigger] ascii_lowered(picked_rows(all, order@)[m]),
                    ),
            decreases order.len() - j,
        {
            assert(picked_rows(all, order@)[j as int] == all[order@[j as int] as int]);
            assert(keys@[order@[j as int] as int]@ == ascii_lowered(all[order@[j as int] as int]));
            j = j + 1;
        }
        let ghost before = order@;
        proof {
            if j < before.len() {
                assert(picked_rows(all, before)[j as int] == all[before[j as int] as int]);
                assert(keys@[before[j as int] as int]@ == ascii_lowered(all[before[j as int] as int]));
            }
            lemma_name_insert_position(picked_rows(all, before), all[t as int], j as int);
            assert(all.take(t + 1).drop_last() =~= all.take(t as int));
            assert(all.take(t + 1).last() == all[t as int]);
        }
        order.insert(j, t);
        assert(picked_rows(all, order@) =~= picked_rows(all, before).insert(j as int, all[t as int]));
        t = t + 1;
    }
    assert(all.take(t as int) =~= all);
    let ghost sorted = sorted_by_lowercase(all);
    let mut out: Vec<String> = Vec::new();
    let mut last: usize = 0;
    let mut q: usize = 0;
    assert(sorted.take(0) =~= Seq::<Seq<char>>::empty());
    while q < order.len()
        invariant
            q <= order@.len(),
            rows(names@) == all,
            keys@.len() == names@.len(),
            forall|m: int| 0 <= m < names@.len() ==> (#[trigger] keys@[m])@ == ascii_lowered(all[m]),
            forall|m: int| 0 <= m < order@.len() ==> #[trigger] order@[m] < names@.len(),
            picked_rows(all, order@) == sorted,
            texts(out@) == dedup_ignoring_case(sorted.take(q as int)),
            out@.len() > 0 ==> last < names@.len() && texts(out@).last() == all[last as int],
        decreases order.len() - q,
    {
        let k = order[q];
        assert(sorted[q as int] == all[k as int]);
        assert(sorted.take(q + 1).drop_last() =~= sorted.take(q as int));
        assert(sorted.take(q + 1).last() == sorted[q as int]);
        let ghost kept = texts(out@);
        proof {
            if kept.len() > 0 {
                lemma_eq_ignore_case_lowered(kept.last(), all[k as int]);
                assert(keys@[last as int]@ == ascii_lowered(all[last as int]));
                assert(keys@[k as int]@ == ascii_lowered(all[k as int]));
            }
        }
        let duplicate = out.len() > 0 && crate::text::chars_equal(&keys[last], &keys[k]);
        if !duplicate {
            assert(names@[k as int]@ == all[k as int]);
            let s = string_from_chars(&names[k]);
            out.push(s);
            assert(texts(out@) =~= kept.push(all[k as int]));
            last = k;
        }
        q = q + 1;
    }
    assert(sorted.take(q as int) =~= sorted);
    out
}

pub proof fn lemma_dedup_adjacent(s: Seq<Seq<char>>)
    ensures
        forall|i: int|
            0 <= i < dedup_ignoring_case(s).len() - 1 ==> !crate::paths::eq_ignore_ascii_case(
                #[trigger] dedup_ignoring_case(s)[i],
                dedup_ignoring_case(s)[i + 1],
            ),
    decreases s.len(),
{
    if s.len() > 0 {
        lemma_dedup_adjacent(s.drop_last());
        let r = dedup_ignoring_case(s.drop_last());
        let d = dedup_ignoring_case(s);
        assert forall|i: int| 0 <= i < d.len() - 1 implies !crate::paths::eq_ignore_ascii_case(
            #[trigger] d[i],
            d[i + 1],
        ) by {
            if !(r.len() > 0 && crate::paths::eq_ignore_ascii_case(r.last(), s.last())) {
                if i < r.len() - 1 {
                    assert(d[i] == r[i] && d[i + 1] == r[i + 1]);
                } else {
                    assert(d[i] == r.last());
                    assert(d[i + 1] == s.last());
                }
            }
        }
    }
}

} // verus!
