//! The recently opened files list: newest first, no duplicates, bounded.

use vstd::prelude::*;
use crate::text::{lemma_filter_keeps_all, str_eq, string_of, string_views};

verus! {

/// Most entries the list keeps.
pub const MAX_RECENT: usize = 30;

/// Recently opened files, newest first. `private` marks a no-trace session:
/// the list still works in memory but is not written out.
pub struct RecentFiles {
    pub paths: Vec<String>,
    private: bool,
}

/// The list after opening `path`: it moves (or is added) to the front, any
/// other copy of it goes, and the list is cut to `MAX_RECENT`.
pub open spec fn other_than(path: Seq<char>) -> spec_fn(Seq<char>) -> bool {
    |p: Seq<char>| p != path
}

pub open spec fn record_spec(paths: Seq<Seq<char>>, path: Seq<char>) -> Seq<Seq<char>> {
    let full = seq![path] + paths.filter(other_than(path));
    if full.len() <= MAX_RECENT {
        full
    } else {
        full.take(MAX_RECENT as int)
    }
}

impl View for RecentFiles {
    type V = Seq<Seq<char>>;

    /// The paths, newest first.
    closed spec fn view(&self) -> Seq<Seq<char>> {
        string_views(self.paths@)
    }
}

impl RecentFiles {
    /// An empty list, not private.
    pub fn new() -> (r: RecentFiles)
        ensures
            r@.len() == 0,
            !r.is_private_spec(),
    {
        RecentFiles { paths: Vec::new(), private: false }
    }

    /// A list holding `paths` as read back from disk.
    pub fn from_paths(paths: Vec<String>) -> (r: RecentFiles)
        ensures
            r@ == string_views(paths@),
            !r.is_private_spec(),
    {
        RecentFiles { paths, private: false }
    }

    pub closed spec fn is_private_spec(&self) -> bool {
        self.private
    }

    /// Whether this session leaves no trace on disk.
    pub fn is_private(&self) -> (r: bool)
        ensures
            r == self.is_private_spec(),
    {
        self.private
    }

    /// Turns the no-trace mode on or off; the list itself is unchanged.
    pub fn set_private(&mut self, private: bool)
        ensures
            final(self).is_private_spec() == private,
            final(self)@ == old(self)@,
    {
        self.private = private;
    }

    /// Records a newly opened file: it goes to the front, an older copy of
    /// it is dropped, and the list keeps at most `MAX_RECENT` entries.
    pub fn record(&mut self, path: &str)
        ensures
            final(self)@ == record_spec(old(self)@, path@),
            final(self).is_private_spec() == old(self).is_private_spec(),
    {
        let ghost olds = string_views(self.paths@);
        let ghost keep = other_than(path@);
        let mut out: Vec<String> = Vec::new();
        out.push(string_of(path));
        let mut i: usize = 0;
        while i < self.paths.len()
            invariant
                i <= self.paths@.len(),
                olds == string_views(self.paths@),
                keep == other_than(path@),
                1 <= out@.len() <= MAX_RECENT,
                string_views(out@) == (seq![path@] + olds.take(i as int).filter(keep)).take(
                    out@.len() as int,
                ),
                out@.len() < MAX_RECENT ==> out@.len() == olds.take(i as int).filter(keep).len()
                    + 1,
                out@.len() <= olds.take(i as int).filter(keep).len() + 1,
            decreases self.paths@.len() - i,
        {
            proof {
                assert(olds.take(i + 1) =~= olds.take(i as int).push(olds[i as int]));
                olds.take(i as int).lemma_filter_push(olds[i as int], keep);
            }
            if !str_eq(self.paths[i].as_str(), path) {
                if out.len() < MAX_RECENT {
                    let ghost before = string_views(out@);
                    out.push(self.paths[i].clone());
                    proof {
                        let full = seq![path@] + olds.take(i as int).filter(keep);
                        assert(before =~= full);
                        assert(string_views(out@) =~= before.push(olds[i as int]));
                        assert(string_views(out@) =~= (seq![path@] + olds.take(i + 1).filter(
                            keep,
                        )).take(out@.len() as int));
                    }
                } else {
                    proof {
                        let full = seq![path@] + olds.take(i as int).filter(keep);
                        let full2 = seq![path@] + olds.take(i + 1).filter(keep);
                        assert(full2.take(out@.len() as int) =~= full.take(out@.len() as int));
                    }
                }
            } else {
                proof {
                    assert(olds.take(i + 1).filter(keep) == olds.take(i as int).filter(keep));
                }
            }
            i += 1;
        }
        proof {
            assert(olds.take(olds.len() as int) =~= olds);
            let full = seq![path@] + olds.filter(keep);
            if full.len() <= MAX_RECENT {
                assert(full.take(full.len() as int) =~= full);
            }
        }
        self.paths = out;
    }
}

/// After recording a file it is the newest entry and appears exactly once,
/// and the list stays within its bound.
pub proof fn lemma_record_front_unique(paths: Seq<Seq<char>>, path: Seq<char>)
    ensures
        record_spec(paths, path).len() >= 1,
        record_spec(paths, path).len() <= MAX_RECENT,
        record_spec(paths, path)[0] == path,
        forall|i: int|
            1 <= i < record_spec(paths, path).len() ==> #[trigger] record_spec(paths, path)[i]
                != path,
{
    let keep = other_than(path);
    let rest = paths.filter(keep);
    assert forall|i: int| 0 <= i < rest.len() implies #[trigger] rest[i] != path by {
        paths.lemma_filter_pred(keep, i);
    }
    let r = record_spec(paths, path);
    let full = seq![path] + rest;
    assert forall|i: int| 1 <= i < r.len() implies #[trigger] r[i] != path by {
        assert(r.len() <= full.len());
        assert(r[i] == full[i]);
        assert(full[i] == rest[i - 1]);
    }
}

proof fn lemma_filter_skips_head(x: Seq<char>, r: Seq<Seq<char>>, f: spec_fn(Seq<char>) -> bool)
    requires
        !f(x),
    ensures
        (seq![x] + r).filter(f) == r.filter(f),
    decreases r.len(),
{
    if r.len() == 0 {
        assert(seq![x] + r =~= Seq::<Seq<char>>::empty().push(x));
        Seq::<Seq<char>>::empty().lemma_filter_push(x, f);
        assert(Seq::<Seq<char>>::empty().filter(f) =~= Seq::<Seq<char>>::empty()) by {
            reveal(Seq::filter);
        }
    } else {
        let d = r.drop_last();
        lemma_filter_skips_head(x, d, f);
        assert(seq![x] + r =~= (seq![x] + d).push(r.last()));
        assert(r =~= d.push(r.last()));
        (seq![x] + d).lemma_filter_push(r.last(), f);
        d.lemma_filter_push(r.last(), f);
    }
}

/// Recording the same file twice in a row leaves the list as the first
/// recording left it.
pub proof fn lemma_record_twice(paths: Seq<Seq<char>>, path: Seq<char>)
    ensures
        record_spec(record_spec(paths, path), path) == record_spec(paths, path),
{
    let q = record_spec(paths, path);
    lemma_record_front_unique(paths, path);
    let keep = other_than(path);
    let rest = q.drop_first();
    assert(q =~= seq![path] + rest);
    assert forall|i: int| 0 <= i < rest.len() implies keep(#[trigger] rest[i]) by {
        assert(rest[i] == q[i + 1]);
    }
    lemma_filter_keeps_all(rest, keep);
    lemma_filter_skips_head(path, rest, keep);
    assert(q.filter(keep) == rest);
    assert(seq![path] + q.filter(keep) =~= q);
}

} // verus!
