//! Playlist files: reading `.m3u` and `.pls` text into entries, writing a
//! queue out as `.m3u`, and telling stream URLs from local paths.

use vstd::prelude::*;
use crate::text::{
    find_line_end, join, join_strings, lemma_filter_keeps_all, lemma_join_front,
    lemma_line_end_run, lemma_lines_from_shift, lemma_lines_of_join, plain_line, line_body, line_body_range, line_end, lines, lines_from,
    lemma_line_end_bounds, parse_u32, parse_u32_spec, push_chars, starts_with, starts_with_chars,
    string_of, string_views, to_chars, trim, trim_range,
};

verus! {

// ---------------------------------------------------------------------------
// Walking the lines of a text
// ---------------------------------------------------------------------------

proof fn lemma_lines_from_step(s: Seq<char>, i: int)
    requires
        0 <= i < s.len(),
    ensures
        lines_from(s, i) == seq![line_body(s, i, line_end(s, i))] + lines_from(s, line_end(s, i)),
{
    lemma_line_end_bounds(s, i);
}

// ---------------------------------------------------------------------------
// M3U
// ---------------------------------------------------------------------------

/// An M3U line names an entry unless it is empty or a `#` comment or
/// directive.
pub open spec fn m3u_keep(l: Seq<char>) -> bool {
    l.len() > 0 && l[0] != '#'
}

pub open spec fn m3u_keep_pred() -> spec_fn(Seq<char>) -> bool {
    |l: Seq<char>| m3u_keep(l)
}

pub open spec fn trim_all(s: Seq<Seq<char>>) -> Seq<Seq<char>> {
    s.map_values(|l: Seq<char>| trim(l))
}

/// The entries of an M3U text: every line that is not empty and does not
/// start with `#`, trimmed.
pub open spec fn m3u_entries_spec(content: Seq<char>) -> Seq<Seq<char>> {
    trim_all(lines(content).filter(m3u_keep_pred()))
}

/// Reads the entries of an M3U playlist.
pub fn m3u_entries(content: &str) -> (r: Vec<String>)
    ensures
        string_views(r@) == m3u_entries_spec(content@),
{
    let v = to_chars(content);
    let vs = v.as_slice();
    let ghost s = content@;
    let ghost f = m3u_keep_pred();
    let mut out: Vec<String> = Vec::new();
    let ghost mut done: Seq<Seq<char>> = Seq::empty();
    let mut i: usize = 0;
    proof {
        assert(done.filter(f) =~= Seq::<Seq<char>>::empty()) by {
            reveal(Seq::filter);
        }
        assert(lines(s) =~= done + lines_from(s, 0));
    }
    while i < vs.len()
        invariant
            vs@ == s,
            f == m3u_keep_pred(),
            i <= s.len(),
            lines(s) == done + lines_from(s, i as int),
            string_views(out@) == trim_all(done.filter(f)),
        decreases s.len() - i,
    {
        let e = find_line_end(vs, i);
        let (a, b) = line_body_range(vs, i, e);
        let ghost l = line_body(s, i as int, e as int);
        proof {
            lemma_lines_from_step(s, i as int);
            assert(lines(s) =~= done.push(l) + lines_from(s, e as int));
            done.lemma_filter_push(l, f);
        }
        if a < b && vs[a] != '#' {
            let (lo, hi) = trim_range(vs, a, b);
            let mut t = String::new();
            push_chars(&mut t, vs, lo, hi);
            let ghost before = string_views(out@);
            out.push(t);
            proof {
                assert(string_views(out@) =~= before.push(trim(l)));
                assert(trim_all(done.push(l).filter(f)) =~= trim_all(done.filter(f)).push(trim(l)));
            }
        }
        proof {
            done = done.push(l);
        }
        i = e;
    }
    proof {
        assert(lines_from(s, i as int) =~= Seq::<Seq<char>>::empty());
        assert(done + Seq::<Seq<char>>::empty() =~= done);
    }
    out
}

/// The header line every written playlist starts with.
pub open spec fn m3u_header() -> Seq<char> {
    "#EXTM3U"@
}

/// An M3U text listing `entries`, one per line after the header.
pub open spec fn m3u_content_spec(entries: Seq<Seq<char>>) -> Seq<char> {
    m3u_header() + seq!['\n'] + join(entries, seq!['\n'])
}

/// Writes a queue as an M3U playlist.
pub fn m3u_content(entries: &Vec<String>) -> (r: String)
    ensures
        r@ == m3u_content_spec(string_views(entries@)),
{
    let mut s = string_of("#EXTM3U\n");
    let body = join_strings(entries, "\n");
    s.append(body.as_str());
    proof {
        reveal_strlit("#EXTM3U\n");
        reveal_strlit("#EXTM3U");
        reveal_strlit("\n");
        assert("\n"@ =~= seq!['\n']);
        assert("#EXTM3U\n"@ =~= "#EXTM3U"@ + seq!['\n']);
        assert(s@ =~= m3u_content_spec(string_views(entries@)));
    }
    s
}

/// An entry that survives being written to and read back from an M3U
/// file: a single line with no surrounding whitespace that does not start
/// with `#`.
pub open spec fn m3u_safe(x: Seq<char>) -> bool {
    plain_line(x) && x[0] != '#' && trim(x) == x
}

/// Writing a queue as M3U and reading the text back gives the same
/// entries, in the same order.
pub proof fn lemma_m3u_round_trip(xs: Seq<Seq<char>>)
    requires
        forall|i: int| 0 <= i < xs.len() ==> m3u_safe(#[trigger] xs[i]),
    ensures
        m3u_entries_spec(m3u_content_spec(xs)) == xs,
{
    let nl = seq!['\n'];
    let h = m3u_header();
    reveal_strlit("#EXTM3U");
    assert(h.len() == 7 && h[0] == '#');
    assert(plain_line(h));
    let all = seq![h] + xs;
    let c = m3u_content_spec(xs);
    if xs.len() == 0 {
        assert(join(xs, nl) =~= Seq::<char>::empty());
        assert(c =~= h + nl);
        assert(join(seq![h], nl) == h);
        assert(h + nl == join(seq![h], nl) + nl);
        assert forall|k: int| 0 <= k < 7 implies #[trigger] c[k] != '\n' by {
            assert(c[k] == h[k]);
        }
        lemma_line_end_run(c, 0, 7);
        assert(line_body(c, 0, 8) =~= h);
        lemma_line_end_bounds(c, 0);
        assert(lines_from(c, 8) =~= Seq::<Seq<char>>::empty());
        assert(lines(c) =~= seq![h]);
        seq![h].lemma_filter_push(h, m3u_keep_pred());
        assert(Seq::<Seq<char>>::empty().push(h) =~= seq![h]);
        assert(Seq::<Seq<char>>::empty().filter(m3u_keep_pred()) =~= Seq::<Seq<char>>::empty()) by {
            reveal(Seq::filter);
        }
        Seq::<Seq<char>>::empty().lemma_filter_push(h, m3u_keep_pred());
        assert(trim_all(Seq::<Seq<char>>::empty()) =~= xs);
    } else {
        lemma_join_front(all, nl);
        assert(all.drop_first() =~= xs);
        assert(all[0] == h);
        assert(join(all, nl) =~= c);
        assert forall|i: int| 0 <= i < all.len() implies plain_line(#[trigger] all[i]) by {
            if i > 0 {
                assert(all[i] == xs[i - 1]);
            }
        }
        lemma_lines_of_join(all);
        assert(lines(c) == all);
        Seq::filter_distributes_over_add(seq![h], xs, m3u_keep_pred());
        assert(Seq::<Seq<char>>::empty().filter(m3u_keep_pred()) =~= Seq::<Seq<char>>::empty()) by {
            reveal(Seq::filter);
        }
        Seq::<Seq<char>>::empty().lemma_filter_push(h, m3u_keep_pred());
        assert(Seq::<Seq<char>>::empty().push(h) =~= seq![h]);
        assert forall|i: int| 0 <= i < xs.len() implies m3u_keep_pred()(#[trigger] xs[i]) by {
            assert(m3u_safe(xs[i]));
        }
        lemma_filter_keeps_all(xs, m3u_keep_pred());
        assert(seq![h].filter(m3u_keep_pred()) + xs =~= xs);
        assert(trim_all(xs) =~= xs) by {
            assert forall|i: int| 0 <= i < xs.len() implies #[trigger] trim_all(xs)[i] == xs[i] by {
                assert(m3u_safe(xs[i]));
            }
        }
    }
}

// ---------------------------------------------------------------------------
// Stream URLs
// ---------------------------------------------------------------------------

pub open spec fn is_http_url_spec(s: Seq<char>) -> bool {
    starts_with(s, "http://"@) || starts_with(s, "https://"@)
}

pub open spec fn is_stream_url_spec(s: Seq<char>) -> bool {
    is_http_url_spec(s) || starts_with(s, "rtsp://"@) || starts_with(s, "rtmp://"@)
}

/// Whether an entry is a web address (`http://` or `https://`).
pub fn is_http_url(s: &str) -> (r: bool)
    ensures
        r == is_http_url_spec(s@),
{
    let v = to_chars(s);
    let a = to_chars("http://");
    let b = to_chars("https://");
    starts_with_chars(v.as_slice(), a.as_slice()) || starts_with_chars(v.as_slice(), b.as_slice())
}

/// Whether an entry is a network stream rather than a local path: it is
/// kept even though it never exists on disk.
pub fn is_stream_url(s: &str) -> (r: bool)
    ensures
        r == is_stream_url_spec(s@),
{
    if is_http_url(s) {
        return true;
    }
    let v = to_chars(s);
    let a = to_chars("rtsp://");
    let b = to_chars("rtmp://");
    starts_with_chars(v.as_slice(), a.as_slice()) || starts_with_chars(v.as_slice(), b.as_slice())
}

// ---------------------------------------------------------------------------
// PLS
// ---------------------------------------------------------------------------

/// Index of the first `c` at or after `i`, or the length.
pub open spec fn find_char(s: Seq<char>, c: char, i: int) -> int
    decreases s.len() - i,
{
    if i >= s.len() || s[i] == c {
        i
    } else {
        find_char(s, c, i + 1)
    }
}

/// The entry a `.pls` line gives, as its number and its path or URL: a
/// trimmed line `File<n>=<value>` with `<n>` a 32-bit number and a value
/// that is not blank once trimmed.
pub open spec fn pls_entry(line: Seq<char>) -> Option<(u32, Seq<char>)> {
    let l = trim(line);
    if starts_with(l, "File"@) {
        let rest = l.subrange(4, l.len() as int);
        let e = find_char(rest, '=', 0);
        if e < rest.len() {
            match parse_u32_spec(rest.take(e)) {
                Some(idx) => {
                    let v = trim(rest.subrange(e + 1, rest.len() as int));
                    if v.len() > 0 {
                        Some((idx, v))
                    } else {
                        None
                    }
                },
                None => None,
            }
        } else {
            None
        }
    } else {
        None
    }
}

/// The entries of the lines, in file order.
pub open spec fn pls_entries(ls: Seq<Seq<char>>) -> Seq<(u32, Seq<char>)>
    decreases ls.len(),
{
    if ls.len() == 0 {
        Seq::empty()
    } else {
        let p = pls_entries(ls.drop_last());
        match pls_entry(ls.last()) {
            Some(e) => p.push(e),
            None => p,
        }
    }
}

/// Inserts `e` after every entry whose number is at most its own.
pub open spec fn insert_by_number(s: Seq<(u32, Seq<char>)>, e: (u32, Seq<char>)) -> Seq<
    (u32, Seq<char>),
>
    decreases s.len(),
{
    if s.len() == 0 || s.last().0 <= e.0 {
        s.push(e)
    } else {
        insert_by_number(s.drop_last(), e).push(s.last())
    }
}

/// The entries ordered by number; entries with the same number keep their
/// file order.
pub open spec fn sort_by_number(s: Seq<(u32, Seq<char>)>) -> Seq<(u32, Seq<char>)>
    decreases s.len(),
{
    if s.len() == 0 {
        s
    } else {
        insert_by_number(sort_by_number(s.drop_last()), s.last())
    }
}

pub open spec fn entry_values(s: Seq<(u32, Seq<char>)>) -> Seq<Seq<char>> {
    s.map_values(|e: (u32, Seq<char>)| e.1)
}

/// The entries of a `.pls` text, ordered by their numbers.
pub open spec fn parse_pls_spec(content: Seq<char>) -> Seq<Seq<char>> {
    entry_values(sort_by_number(pls_entries(lines(content))))
}

/// The entry in `v[a..b)`, with its value as a range of `v`.
fn pls_line(v: &[char], a: usize, b: usize) -> (r: Option<(u32, usize, usize)>)
    requires
        a <= b <= v@.len(),
    ensures
        match (pls_entry(v@.subrange(a as int, b as int)), r) {
            (Some(e), Some((n, lo, hi))) => n == e.0 && lo <= hi <= v@.len() && v@.subrange(
                lo as int,
                hi as int,
            ) == e.1,
            (None, None) => true,
            _ => false,
        },
{
    let ghost line = v@.subrange(a as int, b as int);
    let (lo, hi) = trim_range(v, a, b);
    let ghost l = trim(line);
    assert(l == v@.subrange(lo as int, hi as int));
    proof {
        reveal_strlit("File");
    }
    if hi - lo < 4 || v[lo] != 'F' || v[lo + 1] != 'i' || v[lo + 2] != 'l' || v[lo + 3] != 'e' {
        proof {
            if starts_with(l, "File"@) {
                assert(l.subrange(0, 4) == "File"@);
                assert(l[0] == l.subrange(0, 4)[0]);
                assert(l[1] == l.subrange(0, 4)[1]);
                assert(l[2] == l.subrange(0, 4)[2]);
                assert(l[3] == l.subrange(0, 4)[3]);
            }
        }
        return None;
    }
    assert(starts_with(l, "File"@)) by {
        assert(l.subrange(0, 4) =~= "File"@);
    }
    let r0 = lo + 4;
    let ghost rest = l.subrange(4, l.len() as int);
    assert(rest =~= v@.subrange(r0 as int, hi as int));
    let mut e = r0;
    while e < hi && v[e] != '='
        invariant
            r0 <= e <= hi <= v@.len(),
            rest == v@.subrange(r0 as int, hi as int),
            find_char(rest, '=', 0) == find_char(rest, '=', e - r0),
        decreases hi - e,
    {
        e += 1;
    }
    assert(find_char(rest, '=', e - r0) == e - r0);
    if e >= hi {
        return None;
    }
    assert(rest.take(e - r0) =~= v@.subrange(r0 as int, e as int));
    match parse_u32(v, r0, e) {
        None => None,
        Some(idx) => {
            let (vlo, vhi) = trim_range(v, e + 1, hi);
            assert(rest.subrange(e - r0 + 1, rest.len() as int) =~= v@.subrange(e + 1, hi as int));
            if vlo < vhi {
                Some((idx, vlo, vhi))
            } else {
                None
            }
        },
    }
}

pub open spec fn range_entries(v: Seq<char>, s: Seq<(u32, usize, usize)>) -> Seq<(u32, Seq<char>)> {
    s.map_values(|t: (u32, usize, usize)| (t.0, v.subrange(t.1 as int, t.2 as int)))
}

proof fn lemma_insert_at(s: Seq<(u32, Seq<char>)>, e: (u32, Seq<char>), j: int)
    requires
        0 <= j <= s.len(),
        forall|k: int| j <= k < s.len() ==> #[trigger] s[k].0 > e.0,
        j == 0 || s[j - 1].0 <= e.0,
    ensures
        insert_by_number(s, e) == s.insert(j, e),
    decreases s.len(),
{
    if s.len() == 0 {
        assert(s.insert(j, e) =~= s.push(e));
    } else if s.last().0 <= e.0 {
        if j < s.len() {
            assert(s[s.len() - 1].0 > e.0);
        }
        assert(s.insert(j, e) =~= s.push(e));
    } else {
        assert(j < s.len());
        let d = s.drop_last();
        assert forall|k: int| j <= k < d.len() implies #[trigger] d[k].0 > e.0 by {
            assert(d[k] == s[k]);
        }
        if j > 0 {
            assert(d[j - 1] == s[j - 1]);
        }
        lemma_insert_at(d, e, j);
        assert(d.insert(j, e).push(s.last()) =~= s.insert(j, e));
    }
}

pub open spec fn sorted_by_number(s: Seq<(u32, Seq<char>)>) -> bool {
    forall|i: int, j: int| 0 <= i < j < s.len() ==> s[i].0 <= s[j].0
}

pub open spec fn number_is(k: u32) -> spec_fn((u32, Seq<char>)) -> bool {
    |e: (u32, Seq<char>)| e.0 == k
}

proof fn lemma_insert_members(t: Seq<(u32, Seq<char>)>, e: (u32, Seq<char>))
    ensures
        insert_by_number(t, e).len() == t.len() + 1,
        forall|i: int|
            0 <= i < insert_by_number(t, e).len() ==> #[trigger] insert_by_number(t, e)[i] == e
                || t.contains(insert_by_number(t, e)[i]),
    decreases t.len(),
{
    if t.len() > 0 && t.last().0 > e.0 {
        let d = t.drop_last();
        lemma_insert_members(d, e);
        let r = insert_by_number(t, e);
        assert forall|i: int| 0 <= i < r.len() implies #[trigger] r[i] == e || t.contains(r[i]) by {
            if i < r.len() - 1 {
                let x = insert_by_number(d, e)[i];
                assert(r[i] == x);
                if x != e {
                    let j = choose|j: int| 0 <= j < d.len() && d[j] == x;
                    assert(t[j] == x);
                }
            } else {
                assert(r[i] == t[t.len() - 1]);
            }
        }
    } else {
        let r = insert_by_number(t, e);
        assert forall|i: int| 0 <= i < r.len() implies #[trigger] r[i] == e || t.contains(r[i]) by {
            if i < t.len() {
                assert(r[i] == t[i]);
            }
        }
    }
}

proof fn lemma_insert_sorted(t: Seq<(u32, Seq<char>)>, e: (u32, Seq<char>))
    requires
        sorted_by_number(t),
    ensures
        sorted_by_number(insert_by_number(t, e)),
        forall|k: u32|
            #[trigger] insert_by_number(t, e).filter(number_is(k)) == if e.0 == k {
                t.filter(number_is(k)).push(e)
            } else {
                t.filter(number_is(k))
            },
    decreases t.len(),
{
    if t.len() == 0 || t.last().0 <= e.0 {
        let r = t.push(e);
        assert forall|i: int, j: int| 0 <= i < j < r.len() implies r[i].0 <= r[j].0 by {
            if j == t.len() && i < t.len() - 1 {
                assert(t[i].0 <= t[t.len() - 1].0);
            }
        }
        assert forall|k: u32| #[trigger] insert_by_number(t, e).filter(number_is(k)) == if e.0 == k {
            t.filter(number_is(k)).push(e)
        } else {
            t.filter(number_is(k))
        } by {
            t.lemma_filter_push(e, number_is(k));
        }
    } else {
        let d = t.drop_last();
        let l = t.last();
        assert(sorted_by_number(d)) by {
            assert forall|i: int, j: int| 0 <= i < j < d.len() implies d[i].0 <= d[j].0 by {
                assert(d[i] == t[i] && d[j] == t[j]);
            }
        }
        lemma_insert_sorted(d, e);
        lemma_insert_members(d, e);
        let m = insert_by_number(d, e);
        let r = m.push(l);
        assert forall|i: int, j: int| 0 <= i < j < r.len() implies r[i].0 <= r[j].0 by {
            if j == m.len() {
                assert(r[i] == m[i]);
                if m[i] != e {
                    let q = choose|q: int| 0 <= q < d.len() && d[q] == m[i];
                    assert(t[q] == d[q]);
                    assert(t[q].0 <= t[t.len() - 1].0);
                }
            } else {
                assert(r[i] == m[i] && r[j] == m[j]);
            }
        }
        assert forall|k: u32| #[trigger] insert_by_number(t, e).filter(number_is(k)) == if e.0 == k {
            t.filter(number_is(k)).push(e)
        } else {
            t.filter(number_is(k))
        } by {
            m.lemma_filter_push(l, number_is(k));
            d.lemma_filter_push(l, number_is(k));
            assert(d.push(l) =~= t);
        }
    }
}

/// The order `.pls` entries are read in: by number, and entries with the
/// same number in the order the file lists them.
pub proof fn lemma_pls_order(s: Seq<(u32, Seq<char>)>)
    ensures
        sorted_by_number(sort_by_number(s)),
        forall|k: u32| #[trigger] sort_by_number(s).filter(number_is(k)) == s.filter(number_is(k)),
    decreases s.len(),
{
    if s.len() == 0 {
    } else {
        let d = s.drop_last();
        let e = s.last();
        lemma_pls_order(d);
        lemma_insert_sorted(sort_by_number(d), e);
        assert forall|k: u32| #[trigger] sort_by_number(s).filter(number_is(k)) == s.filter(
            number_is(k),
        ) by {
            d.lemma_filter_push(e, number_is(k));
            assert(d.push(e) =~= s);
        }
    }
}

/// Reads the entries of a `.pls` playlist (`File<n>=` lines) in the order
/// of their numbers; `[playlist]`, `NumberOfEntries=` and any other lines
/// are skipped.
pub fn parse_pls(content: &str) -> (r: Vec<String>)
    ensures
        string_views(r@) == parse_pls_spec(content@),
{
    let v = to_chars(content);
    let vs = v.as_slice();
    let ghost s = content@;
    let ghost mut done: Seq<Seq<char>> = Seq::empty();
    let mut ents: Vec<(u32, usize, usize)> = Vec::new();
    let mut i: usize = 0;
    proof {
        assert(lines(s) =~= done + lines_from(s, 0));
        assert(range_entries(s, ents@) =~= Seq::<(u32, Seq<char>)>::empty());
    }
    while i < vs.len()
        invariant
            vs@ == s,
            i <= s.len(),
            lines(s) == done + lines_from(s, i as int),
            range_entries(s, ents@) == sort_by_number(pls_entries(done)),
            forall|k: int| 0 <= k < ents@.len() ==> #[trigger] ents@[k].1 <= ents@[k].2 <= s.len(),
        decreases s.len() - i,
    {
        let e = find_line_end(vs, i);
        let (a, b) = line_body_range(vs, i, e);
        let ghost l = line_body(s, i as int, e as int);
        proof {
            lemma_lines_from_step(s, i as int);
            assert(lines(s) =~= done.push(l) + lines_from(s, e as int));
            assert(done.push(l).drop_last() =~= done);
        }
        assert(vs@.subrange(a as int, b as int) == l);
        match pls_line(vs, a, b) {
            Some((idx, vlo, vhi)) => {
                let ghost sorted = range_entries(s, ents@);
                let ghost ent = (idx, s.subrange(vlo as int, vhi as int));
                proof {
                    assert(pls_entries(done.push(l)) == pls_entries(done).push(ent));
                    assert(pls_entries(done).push(ent).drop_last() =~= pls_entries(done));
                    assert(sort_by_number(pls_entries(done.push(l))) == insert_by_number(
                        sort_by_number(pls_entries(done)),
                        ent,
                    ));
                }
                let mut j = ents.len();
                while j > 0 && ents[j - 1].0 > idx
                    invariant
                        j <= ents@.len(),
                        sorted == range_entries(s, ents@),
                        forall|k: int|
                            0 <= k < ents@.len() ==> #[trigger] ents@[k].1 <= ents@[k].2 <= s.len(),
                        forall|k: int| j <= k < ents@.len() ==> #[trigger] sorted[k].0 > idx,
                    decreases j,
                {
                    assert(sorted[j - 1].0 == ents@[j - 1].0);
                    j -= 1;
                }
                proof {
                    if j > 0 {
                        assert(sorted[j - 1].0 == ents@[j - 1].0);
                    }
                    lemma_insert_at(sorted, ent, j as int);
                }
                let ghost pre = ents@;
                ents.insert(j, (idx, vlo, vhi));
                proof {
                    assert(range_entries(s, ents@) =~= sorted.insert(j as int, ent));
                    assert forall|k: int| 0 <= k < ents@.len() implies #[trigger] ents@[k].1
                        <= ents@[k].2 <= s.len() by {
                        if k < j {
                            assert(ents@[k] == pre[k]);
                        } else if k > j {
                            assert(ents@[k] == pre[k - 1]);
                        }
                    }
                }
            },
            None => {
                assert(pls_entries(done.push(l)) == pls_entries(done));
            },
        }
        proof {
            done = done.push(l);
        }
        i = e;
    }
    proof {
        assert(lines_from(s, i as int) =~= Seq::<Seq<char>>::empty());
        assert(done + Seq::<Seq<char>>::empty() =~= done);
    }
    let mut out: Vec<String> = Vec::new();
    let mut k: usize = 0;
    while k < ents.len()
        invariant
            vs@ == s,
            k <= ents@.len(),
            forall|t: int| 0 <= t < ents@.len() ==> #[trigger] ents@[t].1 <= ents@[t].2 <= s.len(),
            string_views(out@) == entry_values(range_entries(s, ents@).take(k as int)),
        decreases ents@.len() - k,
    {
        let (_, lo, hi) = ents[k];
        assert(lo == ents@[k as int].1 && hi == ents@[k as int].2);
        let mut t = String::new();
        push_chars(&mut t, vs, lo, hi);
        assert(t@ =~= s.subrange(lo as int, hi as int));
        let ghost before = string_views(out@);
        out.push(t);
        proof {
            let re = range_entries(s, ents@);
            let x = re.take(k as int);
            let y = re[k as int];
            assert(re.take(k + 1) =~= x.push(y));
            assert(y.1 == s.subrange(lo as int, hi as int));
            assert(string_views(out@) =~= before.push(t@));
            assert(entry_values(x.push(y)) =~= entry_values(x).push(y.1));
        }
        k += 1;
    }
    assert(range_entries(s, ents@).take(ents@.len() as int) =~= range_entries(s, ents@));
    out
}

} // verus!
