//! What a stable sort gives: entries ordered by a "comes before" relation,
//! entries that neither comes before keeping the order they had.

use vstd::prelude::*;
use crate::browser::{
    lex_lt, lex_lt_exec, lemma_lex_irreflexive, lemma_lex_le_transitive, lemma_lex_transitive,
};
use crate::text::to_chars;

verus! {

/// `lt` is a strict weak order: nothing comes before itself, "before" is
/// transitive, and so is "not before".
pub open spec fn strict_weak<T>(lt: spec_fn(T, T) -> bool) -> bool {
    &&& forall|a: T| !#[trigger] lt(a, a)
    &&& forall|a: T, b: T, c: T|
        #![trigger lt(a, b), lt(b, c), lt(a, c)]
        lt(a, b) && lt(b, c) ==> lt(a, c)
    &&& forall|a: T, b: T, c: T|
        #![trigger lt(b, a), lt(c, b), lt(c, a)]
        !lt(b, a) && !lt(c, b) ==> !lt(c, a)
}

/// Puts `e` after every trailing entry it does not come before.
pub open spec fn insert_sorted<T>(s: Seq<T>, e: T, lt: spec_fn(T, T) -> bool) -> Seq<T>
    decreases s.len(),
{
    if s.len() == 0 || !lt(e, s.last()) {
        s.push(e)
    } else {
        insert_sorted(s.drop_last(), e, lt).push(s.last())
    }
}

/// The stable sort of `s` by `lt`.
pub open spec fn stable_sort<T>(s: Seq<T>, lt: spec_fn(T, T) -> bool) -> Seq<T>
    decreases s.len(),
{
    if s.len() == 0 {
        s
    } else {
        insert_sorted(stable_sort(s.drop_last(), lt), s.last(), lt)
    }
}

/// No entry comes before an earlier one.
pub open spec fn sorted_by<T>(s: Seq<T>, lt: spec_fn(T, T) -> bool) -> bool {
    forall|i: int, j: int| 0 <= i < j < s.len() ==> !lt(s[j], s[i])
}

/// The entries that rank with `x`: neither comes before the other.
pub open spec fn same_rank<T>(x: T, lt: spec_fn(T, T) -> bool) -> spec_fn(T) -> bool {
    |e: T| !lt(e, x) && !lt(x, e)
}

proof fn lemma_not_before_trans<T>(lt: spec_fn(T, T) -> bool, a: T, b: T, c: T)
    requires
        strict_weak(lt),
    ensures
        !lt(b, a) && !lt(c, b) ==> !lt(c, a),
{
    assert(!lt(b, a) && !lt(c, b) ==> !lt(c, a));
}

proof fn lemma_asymmetric<T>(lt: spec_fn(T, T) -> bool, a: T, b: T)
    requires
        strict_weak(lt),
    ensures
        lt(a, b) ==> !lt(b, a),
{
    if lt(a, b) && lt(b, a) {
        assert(lt(a, b) && lt(b, a) ==> lt(a, a));
        assert(!lt(a, a));
    }
}

/// Where the insertion lands: after the entries `e` does not come before.
pub proof fn lemma_insert_at<T>(s: Seq<T>, e: T, lt: spec_fn(T, T) -> bool, j: int)
    requires
        0 <= j <= s.len(),
        forall|k: int| j <= k < s.len() ==> #[trigger] lt(e, s[k]),
        j == 0 || !lt(e, s[j - 1]),
    ensures
        insert_sorted(s, e, lt) == s.insert(j, e),
    decreases s.len(),
{
    if s.len() == 0 {
        assert(s.insert(j, e) =~= s.push(e));
    } else if !lt(e, s.last()) {
        if j < s.len() {
            assert(lt(e, s[s.len() - 1]));
        }
        assert(s.insert(j, e) =~= s.push(e));
    } else {
        assert(j < s.len());
        let d = s.drop_last();
        assert forall|k: int| j <= k < d.len() implies #[trigger] lt(e, d[k]) by {
            assert(d[k] == s[k]);
            assert(lt(e, s[k]));
        }
        if j > 0 {
            assert(d[j - 1] == s[j - 1]);
        }
        lemma_insert_at(d, e, lt, j);
        assert(d.insert(j, e).push(s.last()) =~= s.insert(j, e));
    }
}

proof fn lemma_insert_members<T>(t: Seq<T>, e: T, lt: spec_fn(T, T) -> bool)
    ensures
        insert_sorted(t, e, lt).len() == t.len() + 1,
        insert_sorted(t, e, lt).to_multiset() == t.to_multiset().insert(e),
        forall|i: int|
            0 <= i < insert_sorted(t, e, lt).len() ==> #[trigger] insert_sorted(t, e, lt)[i] == e
                || t.contains(insert_sorted(t, e, lt)[i]),
    decreases t.len(),
{
    broadcast use vstd::seq_lib::group_to_multiset_ensures;

    if t.len() > 0 && lt(e, t.last()) {
        let d = t.drop_last();
        lemma_insert_members(d, e, lt);
        let r = insert_sorted(t, e, lt);
        assert forall|i: int| 0 <= i < r.len() implies #[trigger] r[i] == e || t.contains(r[i]) by {
            if i < r.len() - 1 {
                let x = insert_sorted(d, e, lt)[i];
                assert(r[i] == x);
                if x != e {
                    let j = choose|j: int| 0 <= j < d.len() && d[j] == x;
                    assert(t[j] == x);
                }
            } else {
                assert(r[i] == t[t.len() - 1]);
            }
        }
        assert(d.push(t.last()) =~= t);
        assert(r.to_multiset() =~= t.to_multiset().insert(e));
    } else {
        let r = insert_sorted(t, e, lt);
        assert forall|i: int| 0 <= i < r.len() implies #[trigger] r[i] == e || t.contains(r[i]) by {
            if i < t.len() {
                assert(r[i] == t[i]);
            }
        }
    }
}

proof fn lemma_insert_sorted_keeps<T>(t: Seq<T>, e: T, lt: spec_fn(T, T) -> bool)
    requires
        strict_weak(lt),
        sorted_by(t, lt),
    ensures
        sorted_by(insert_sorted(t, e, lt), lt),
        forall|x: T|
            #[trigger] insert_sorted(t, e, lt).filter(same_rank(x, lt)) == if same_rank(x, lt)(
                e,
            ) {
                t.filter(same_rank(x, lt)).push(e)
            } else {
                t.filter(same_rank(x, lt))
            },
    decreases t.len(),
{
    if t.len() == 0 || !lt(e, t.last()) {
        let r = t.push(e);
        assert forall|i: int, j: int| 0 <= i < j < r.len() implies !lt(r[j], r[i]) by {
            if j == t.len() && i < t.len() - 1 {
                lemma_not_before_trans(lt, t[i], t[t.len() - 1], e);
            }
        }
        assert forall|x: T| #[trigger] insert_sorted(t, e, lt).filter(same_rank(x, lt)) == if same_rank(
            x,
            lt,
        )(e) {
            t.filter(same_rank(x, lt)).push(e)
        } else {
            t.filter(same_rank(x, lt))
        } by {
            t.lemma_filter_push(e, same_rank(x, lt));
        }
    } else {
        let d = t.drop_last();
        let l = t.last();
        assert(sorted_by(d, lt)) by {
            assert forall|i: int, j: int| 0 <= i < j < d.len() implies !lt(d[j], d[i]) by {
                assert(d[i] == t[i] && d[j] == t[j]);
            }
        }
        lemma_insert_sorted_keeps(d, e, lt);
        lemma_insert_members(d, e, lt);
        lemma_asymmetric(lt, e, l);
        let m = insert_sorted(d, e, lt);
        let r = m.push(l);
        assert forall|i: int, j: int| 0 <= i < j < r.len() implies !lt(r[j], r[i]) by {
            if j == m.len() {
                assert(r[i] == m[i]);
                if m[i] != e {
                    let q = choose|q: int| 0 <= q < d.len() && d[q] == m[i];
                    assert(t[q] == d[q]);
                }
            } else {
                assert(r[i] == m[i] && r[j] == m[j]);
            }
        }
        assert forall|x: T| #[trigger] insert_sorted(t, e, lt).filter(same_rank(x, lt)) == if same_rank(
            x,
            lt,
        )(e) {
            t.filter(same_rank(x, lt)).push(e)
        } else {
            t.filter(same_rank(x, lt))
        } by {
            m.lemma_filter_push(l, same_rank(x, lt));
            d.lemma_filter_push(l, same_rank(x, lt));
            assert(d.push(l) =~= t);
            if same_rank(x, lt)(e) && same_rank(x, lt)(l) {
                lemma_not_before_trans(lt, l, x, e);
            }
        }
    }
}

/// A stable sort keeps every entry, puts no entry before one that comes
/// before it, and keeps the order among entries that rank together.
pub proof fn lemma_stable_sort<T>(s: Seq<T>, lt: spec_fn(T, T) -> bool)
    requires
        strict_weak(lt),
    ensures
        stable_sort(s, lt).len() == s.len(),
        stable_sort(s, lt).to_multiset() == s.to_multiset(),
        sorted_by(stable_sort(s, lt), lt),
        forall|x: T| #[trigger]
            stable_sort(s, lt).filter(same_rank(x, lt)) == s.filter(same_rank(x, lt)),
    decreases s.len(),
{
    broadcast use vstd::seq_lib::group_to_multiset_ensures;

    if s.len() > 0 {
        let d = s.drop_last();
        let e = s.last();
        lemma_stable_sort(d, lt);
        lemma_insert_sorted_keeps(stable_sort(d, lt), e, lt);
        lemma_insert_members(stable_sort(d, lt), e, lt);
        assert(d.push(e) =~= s);
        assert forall|x: T| #[trigger] stable_sort(s, lt).filter(same_rank(x, lt)) == s.filter(
            same_rank(x, lt),
        ) by {
            d.lemma_filter_push(e, same_rank(x, lt));
        }
    }
}

proof fn lemma_insert_map<T, U>(t: Seq<T>, e: T, lt: spec_fn(T, T) -> bool, f: spec_fn(T) -> U)
    ensures
        insert_sorted(t, e, lt).map_values(f).to_multiset() == t.map_values(f).to_multiset().insert(
            f(e),
        ),
    decreases t.len(),
{
    broadcast use vstd::seq_lib::group_to_multiset_ensures;

    if t.len() == 0 || !lt(e, t.last()) {
        assert(t.push(e).map_values(f) =~= t.map_values(f).push(f(e)));
    } else {
        let d = t.drop_last();
        let m = insert_sorted(d, e, lt);
        lemma_insert_map(d, e, lt, f);
        assert(m.push(t.last()).map_values(f) =~= m.map_values(f).push(f(t.last())));
        assert(t.map_values(f) =~= d.map_values(f).push(f(t.last())));
        assert(d.map_values(f).to_multiset().insert(f(e)).insert(f(t.last())) =~= d.map_values(
            f,
        ).to_multiset().insert(f(t.last())).insert(f(e)));
    }
}

/// Whatever each entry is mapped to, a stable sort keeps the mapped
/// values, each as many times as before.
pub proof fn lemma_stable_sort_map<T, U>(s: Seq<T>, lt: spec_fn(T, T) -> bool, f: spec_fn(T) -> U)
    ensures
        stable_sort(s, lt).map_values(f).to_multiset() == s.map_values(f).to_multiset(),
    decreases s.len(),
{
    broadcast use vstd::seq_lib::group_to_multiset_ensures;

    if s.len() > 0 {
        let d = s.drop_last();
        lemma_stable_sort_map(d, lt, f);
        lemma_insert_map(stable_sort(d, lt), s.last(), lt, f);
        assert(s.map_values(f) =~= d.map_values(f).push(f(s.last())));
    }
}

/// An optional name as text.
pub open spec fn name_view(o: Option<String>) -> Option<Seq<char>> {
    match o {
        Some(s) => Some(s@),
        None => None,
    }
}

pub open spec fn name_views(v: Seq<Option<String>>) -> Seq<Option<Seq<char>>> {
    v.map_values(|o: Option<String>| name_view(o))
}

pub open spec fn number_views(v: Seq<i128>) -> Seq<int> {
    v.map_values(|x: i128| x as int)
}

/// Order of optional names: a missing name first, then text order.
pub open spec fn name_before(a: Option<Seq<char>>, b: Option<Seq<char>>) -> bool {
    match (a, b) {
        (None, Some(_)) => true,
        (Some(x), Some(y)) => lex_lt(x, y),
        _ => false,
    }
}

/// Positions ordered by their names, ascending or descending.
pub open spec fn by_name(desc: bool) -> spec_fn(
    (int, Option<Seq<char>>),
    (int, Option<Seq<char>>),
) -> bool {
    |a: (int, Option<Seq<char>>), b: (int, Option<Seq<char>>)|
        if desc {
            name_before(b.1, a.1)
        } else {
            name_before(a.1, b.1)
        }
}

/// Positions ordered by their numbers, ascending or descending.
pub open spec fn by_number(desc: bool) -> spec_fn((int, int), (int, int)) -> bool {
    |a: (int, int), b: (int, int)|
        if desc {
            b.1 < a.1
        } else {
            a.1 < b.1
        }
}

/// Each key beside its position.
pub open spec fn ranked<K>(keys: Seq<K>) -> Seq<(int, K)> {
    Seq::new(keys.len(), |i: int| (i, keys[i]))
}

/// The positions of `order`, each beside its key.
pub open spec fn tagged<K>(order: Seq<usize>, keys: Seq<K>) -> Seq<(int, K)> {
    Seq::new(order.len(), |k: int| (order[k] as int, keys[order[k] as int]))
}

proof fn lemma_name_before(a: Option<Seq<char>>, b: Option<Seq<char>>, c: Option<Seq<char>>)
    ensures
        !name_before(a, a),
        name_before(a, b) && name_before(b, c) ==> name_before(a, c),
        !name_before(b, a) && !name_before(c, b) ==> !name_before(c, a),
{
    if let Some(x) = a {
        lemma_lex_irreflexive(x);
    }
    match (a, b, c) {
        (Some(x), Some(y), Some(z)) => {
            lemma_lex_transitive(x, y, z);
            lemma_lex_le_transitive(x, y, z);
        },
        _ => {},
    }
}

/// Ordering by name, either way, is a strict weak order.
pub proof fn lemma_by_name_strict_weak(desc: bool)
    ensures
        strict_weak(by_name(desc)),
{
    let lt = by_name(desc);
    assert forall|a: (int, Option<Seq<char>>)| !#[trigger] lt(a, a) by {
        lemma_name_before(a.1, a.1, a.1);
    }
    assert forall|a: (int, Option<Seq<char>>), b: (int, Option<Seq<char>>), c: (int, Option<Seq<char>>)|
        #![trigger lt(a, b), lt(b, c), lt(a, c)]
        lt(a, b) && lt(b, c) ==> lt(a, c) by {
        lemma_name_before(a.1, b.1, c.1);
        lemma_name_before(c.1, b.1, a.1);
    }
    assert forall|a: (int, Option<Seq<char>>), b: (int, Option<Seq<char>>), c: (int, Option<Seq<char>>)|
        #![trigger lt(b, a), lt(c, b), lt(c, a)]
        !lt(b, a) && !lt(c, b) ==> !lt(c, a) by {
        lemma_name_before(a.1, b.1, c.1);
        lemma_name_before(c.1, b.1, a.1);
    }
}

/// Ordering by number, either way, is a strict weak order.
pub proof fn lemma_by_number_strict_weak(desc: bool)
    ensures
        strict_weak(by_number(desc)),
{
}

fn name_before_exec(a: &Option<String>, b: &Option<String>) -> (r: bool)
    ensures
        r == name_before(name_view(*a), name_view(*b)),
{
    match (a, b) {
        (None, Some(_)) => true,
        (Some(x), Some(y)) => {
            let xc = to_chars(x.as_str());
            let yc = to_chars(y.as_str());
            lex_lt_exec(xc.as_slice(), yc.as_slice())
        },
        _ => false,
    }
}

/// The positions `0..names.len()` in the order a stable sort by name
/// puts them.
pub fn name_order(names: &Vec<Option<String>>, desc: bool) -> (r: Vec<usize>)
    ensures
        r@.len() == names@.len(),
        forall|k: int| 0 <= k < r@.len() ==> r@[k] < names@.len(),
        tagged(r@, name_views(names@)) == stable_sort(ranked(name_views(names@)), by_name(desc)),
{
    let ghost keys = name_views(names@);
    let ghost src = ranked(keys);
    let mut order: Vec<usize> = Vec::new();
    let mut i: usize = 0;
    while i < names.len()
        invariant
            keys == name_views(names@),
            src == ranked(keys),
            i <= names@.len(),
            order@.len() == i,
            forall|k: int| 0 <= k < order@.len() ==> order@[k] < i,
            tagged(order@, keys) == stable_sort(src.take(i as int), by_name(desc)),
        decreases names@.len() - i,
    {
        let ghost sorted = tagged(order@, keys);
        proof {
            assert(src.take(i + 1).drop_last() =~= src.take(i as int));
            assert(src.take(i + 1).last() == src[i as int]);
        }
        let mut j = order.len();
        loop
            invariant
                j <= order@.len(),
                order@.len() == i,
                i < names@.len(),
                sorted == tagged(order@, keys),
                keys == name_views(names@),
                src == ranked(keys),
                forall|k: int| 0 <= k < order@.len() ==> order@[k] < i,
                forall|k: int|
                    j <= k < order@.len() ==> #[trigger] by_name(desc)(src[i as int], sorted[k]),
            ensures
                j <= order@.len(),
                forall|k: int|
                    j <= k < order@.len() ==> #[trigger] by_name(desc)(src[i as int], sorted[k]),
                j == 0 || !by_name(desc)(src[i as int], sorted[j - 1]),
            decreases j,
        {
            if j == 0 {
                break;
            }
            let o = order[j - 1];
            let before = if desc {
                name_before_exec(&names[o], &names[i])
            } else {
                name_before_exec(&names[i], &names[o])
            };
            if !before {
                break;
            }
            j -= 1;
        }
        proof {
            lemma_insert_at(sorted, src[i as int], by_name(desc), j as int);
        }
        order.insert(j, i);
        proof {
            assert(tagged(order@, keys) =~= sorted.insert(j as int, src[i as int]));
        }
        i += 1;
    }
    assert(src.take(names@.len() as int) =~= src);
    order
}

/// The positions `0..keys.len()` in the order a stable sort by number
/// puts them.
pub fn number_order(keys: &Vec<i128>, desc: bool) -> (r: Vec<usize>)
    ensures
        r@.len() == keys@.len(),
        forall|k: int| 0 <= k < r@.len() ==> r@[k] < keys@.len(),
        tagged(r@, number_views(keys@)) == stable_sort(ranked(number_views(keys@)), by_number(desc)),
{
    let ghost ks = number_views(keys@);
    let ghost src = ranked(ks);
    let mut order: Vec<usize> = Vec::new();
    let mut i: usize = 0;
    while i < keys.len()
        invariant
            ks == number_views(keys@),
            src == ranked(ks),
            i <= keys@.len(),
            order@.len() == i,
            forall|k: int| 0 <= k < order@.len() ==> order@[k] < i,
            tagged(order@, ks) == stable_sort(src.take(i as int), by_number(desc)),
        decreases keys@.len() - i,
    {
        let ghost sorted = tagged(order@, ks);
        proof {
            assert(src.take(i + 1).drop_last() =~= src.take(i as int));
            assert(src.take(i + 1).last() == src[i as int]);
        }
        let mut j = order.len();
        loop
            invariant
                j <= order@.len(),
                order@.len() == i,
                i < keys@.len(),
                sorted == tagged(order@, ks),
                ks == number_views(keys@),
                src == ranked(ks),
                forall|k: int| 0 <= k < order@.len() ==> order@[k] < i,
                forall|k: int|
                    j <= k < order@.len() ==> #[trigger] by_number(desc)(src[i as int], sorted[k]),
            ensures
                j <= order@.len(),
                forall|k: int|
                    j <= k < order@.len() ==> #[trigger] by_number(desc)(src[i as int], sorted[k]),
                j == 0 || !by_number(desc)(src[i as int], sorted[j - 1]),
            decreases j,
        {
            if j == 0 {
                break;
            }
            let o = order[j - 1];
            let before = if desc {
                keys[o] < keys[i]
            } else {
                keys[i] < keys[o]
            };
            if !before {
                break;
            }
            j -= 1;
        }
        proof {
            lemma_insert_at(sorted, src[i as int], by_number(desc), j as int);
        }
        order.insert(j, i);
        proof {
            assert(tagged(order@, ks) =~= sorted.insert(j as int, src[i as int]));
        }
        i += 1;
    }
    assert(src.take(keys@.len() as int) =~= src);
    order
}

} // verus!
