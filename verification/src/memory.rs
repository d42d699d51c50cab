//! What the player remembers per file between sessions that is not a
//! time position: the audio and subtitle track chosen, the video size, and
//! when the file was last played. Each memory holds at most
//! `MAX_ENTRIES` files.

use vstd::prelude::*;
use crate::text::{str_eq, string_of};

verus! {

/// The most files one memory holds.
pub const MAX_ENTRIES: usize = 2000;

/// A value remembered per file path; each path occurs at most once, and
/// the entries stay in the order their paths were first stored.
pub struct PathMemory<V: Copy> {
    entries: Vec<(String, V)>,
}

pub open spec fn entry_views<V>(v: Seq<(String, V)>) -> Seq<(Seq<char>, V)> {
    v.map_values(|p: (String, V)| (p.0@, p.1))
}

/// No path occurs twice.
pub open spec fn paths_unique<V>(s: Seq<(Seq<char>, V)>) -> bool {
    forall|i: int, j: int| 0 <= i < j < s.len() ==> s[i].0 != s[j].0
}

/// Where `path` is stored, if it is.
pub open spec fn path_index<V>(s: Seq<(Seq<char>, V)>, path: Seq<char>) -> Option<int>
    decreases s.len(),
{
    if s.len() == 0 {
        None
    } else {
        match path_index(s.drop_last(), path) {
            Some(i) => Some(i),
            None => if s.last().0 == path {
                Some(s.len() - 1)
            } else {
                None
            },
        }
    }
}

/// The value stored for `path`, if any.
pub open spec fn memory_get<V>(s: Seq<(Seq<char>, V)>, path: Seq<char>) -> Option<V> {
    match path_index(s, path) {
        Some(i) => Some(s[i].1),
        None => None,
    }
}

/// The memory after storing `v` for `path` (in its old place, or last for
/// a new path); when that makes one entry too many, the oldest goes.
pub open spec fn memory_store<V>(s: Seq<(Seq<char>, V)>, path: Seq<char>, v: V) -> Seq<
    (Seq<char>, V),
> {
    let t = match path_index(s, path) {
        Some(i) => s.update(i, (path, v)),
        None => s.push((path, v)),
    };
    if t.len() > MAX_ENTRIES {
        t.drop_first()
    } else {
        t
    }
}

proof fn lemma_path_index<V>(s: Seq<(Seq<char>, V)>, path: Seq<char>)
    ensures
        match path_index(s, path) {
            Some(p) => 0 <= p < s.len() && s[p].0 == path && forall|k: int|
                0 <= k < p ==> s[k].0 != path,
            None => forall|k: int| 0 <= k < s.len() ==> s[k].0 != path,
        },
    decreases s.len(),
{
    if s.len() > 0 {
        lemma_path_index(s.drop_last(), path);
        assert forall|k: int| 0 <= k < s.len() - 1 implies s[k] == s.drop_last()[k] by {}
    }
}

/// In a memory whose paths are unique, an entry's position is where its
/// path is found.
proof fn lemma_index_of_entry<V>(s: Seq<(Seq<char>, V)>, i: int)
    requires
        paths_unique(s),
        0 <= i < s.len(),
    ensures
        path_index(s, s[i].0) == Some(i),
{
    lemma_path_index(s, s[i].0);
}

impl<V: Copy> View for PathMemory<V> {
    type V = Seq<(Seq<char>, V)>;

    /// The paths and their values, in the order the paths were first
    /// stored.
    closed spec fn view(&self) -> Seq<(Seq<char>, V)> {
        entry_views(self.entries@)
    }
}

impl<V: Copy> PathMemory<V> {
    #[verifier::type_invariant]
    closed spec fn wf(self) -> bool {
        &&& paths_unique(entry_views(self.entries@))
        &&& self.entries@.len() <= MAX_ENTRIES
    }

    /// An empty memory.
    pub fn new() -> (m: PathMemory<V>)
        ensures
            m@.len() == 0,
    {
        PathMemory { entries: Vec::new() }
    }

    /// The value stored for `path`, if any.
    pub fn get(&self, path: &str) -> (r: Option<V>)
        ensures
            r == memory_get(self@, path@),
    {
        let ghost s = self@;
        let mut i: usize = 0;
        while i < self.entries.len()
            invariant
                i <= self.entries@.len(),
                s == entry_views(self.entries@),
                forall|k: int| 0 <= k < i ==> s[k].0 != path@,
            decreases self.entries@.len() - i,
        {
            if str_eq(self.entries[i].0.as_str(), path) {
                proof {
                    assert(s[i as int] == (self.entries@[i as int].0@, self.entries@[i as int].1));
                    lemma_path_index(s, path@);
                    let q = path_index(s, path@)->0;
                    if q != i {
                        assert(s[q].0 == path@);
                    }
                }
                return Some(self.entries[i].1);
            }
            i += 1;
        }
        proof {
            lemma_path_index(s, path@);
        }
        None
    }

    /// Stores `v` for `path`; when the memory is then one entry too large,
    /// its oldest entry goes.
    pub fn store(&mut self, path: &str, v: V)
        ensures
            final(self)@ == memory_store(old(self)@, path@, v),
            final(self)@.len() <= MAX_ENTRIES,
            paths_unique(final(self)@),
    {
        proof {
            use_type_invariant(&*self);
        }
        let ghost s = self@;
        let n = self.entries.len();
        let mut found: Option<usize> = None;
        let mut out: Vec<(String, V)> = Vec::new();
        let mut i: usize = 0;
        while i < n
            invariant
                n == self.entries@.len(),
                i <= n,
                s == entry_views(self.entries@),
                found is None ==> forall|k: int| 0 <= k < i ==> s[k].0 != path@,
                found matches Some(p) ==> p < i && s[p as int].0 == path@,
                entry_views(out@) == match found {
                    Some(p) => s.take(i as int).update(p as int, (path@, v)),
                    None => s.take(i as int),
                },
            decreases n - i,
        {
            let ghost before = entry_views(out@);
            proof {
                assert(s[i as int] == (self.entries@[i as int].0@, self.entries@[i as int].1));
            }
            let hit = found.is_none() && str_eq(self.entries[i].0.as_str(), path);
            if hit {
                let k = string_of(path);
                out.push((k, v));
                found = Some(i);
                proof {
                    assert(entry_views(out@) =~= before.push((path@, v)));
                    assert(entry_views(out@) =~= s.take(i + 1).update(i as int, (path@, v)));
                }
            } else {
                let e = (self.entries[i].0.clone(), self.entries[i].1);
                out.push(e);
                proof {
                    assert(entry_views(out@) =~= before.push(s[i as int]));
                    match found {
                        Some(p) => {
                            assert(entry_views(out@) =~= s.take(i + 1).update(p as int, (path@, v)));
                        },
                        None => {
                            assert(entry_views(out@) =~= s.take(i + 1));
                        },
                    }
                }
            }
            i += 1;
        }
        proof {
            assert(s.take(n as int) =~= s);
            lemma_path_index(s, path@);
            match found {
                Some(p) => {
                    if path_index(s, path@) != Some(p as int) {
                        let q = path_index(s, path@)->0;
                        assert(s[q].0 == s[p as int].0);
                    }
                },
                None => {},
            }
        }
        if found.is_none() {
            let ghost before = entry_views(out@);
            let k = string_of(path);
            out.push((k, v));
            proof {
                assert(entry_views(out@) =~= before.push((path@, v)));
                assert(entry_views(out@) =~= s.push((path@, v)));
            }
        }
        let ghost t = entry_views(out@);
        proof {
            assert forall|a: int, b: int| 0 <= a < b < t.len() implies t[a].0 != t[b].0 by {
                if found is None {
                    if b == s.len() {
                        assert(t[a] == s[a]);
                    } else {
                        assert(t[a] == s[a] && t[b] == s[b]);
                    }
                } else {
                    let p = found->0 as int;
                    if a == p {
                        assert(t[b] == s[b]);
                    } else if b == p {
                        assert(t[a] == s[a]);
                    } else {
                        assert(t[a] == s[a] && t[b] == s[b]);
                    }
                }
            }
        }
        if out.len() > MAX_ENTRIES {
            out.remove(0);
            proof {
                assert(entry_views(out@) =~= t.drop_first());
                assert forall|a: int, b: int|
                    0 <= a < b < entry_views(out@).len() implies entry_views(out@)[a].0
                    != entry_views(out@)[b].0 by {
                    assert(entry_views(out@)[a] == t[a + 1]);
                    assert(entry_views(out@)[b] == t[b + 1]);
                }
            }
        }
        *self = PathMemory { entries: out };
    }

    /// Every path with its value, in the order the paths were first stored.
    pub fn entries(&self) -> (r: Vec<(String, V)>)
        ensures
            entry_views(r@) == self@,
    {
        let ghost s = self@;
        let mut out: Vec<(String, V)> = Vec::new();
        let mut i: usize = 0;
        while i < self.entries.len()
            invariant
                i <= self.entries@.len(),
                s == entry_views(self.entries@),
                entry_views(out@) == s.take(i as int),
            decreases self.entries@.len() - i,
        {
            let ghost before = entry_views(out@);
            proof {
                assert(s[i as int] == (self.entries@[i as int].0@, self.entries@[i as int].1));
            }
            let e = (self.entries[i].0.clone(), self.entries[i].1);
            out.push(e);
            proof {
                assert(entry_views(out@) =~= before.push(s[i as int]));
                assert(entry_views(out@) =~= s.take(i + 1));
            }
            i += 1;
        }
        proof {
            assert(s.take(self.entries@.len() as int) =~= s);
        }
        out
    }
}

/// Whether storing `path` pushes out the oldest entry: a new path stored
/// into a full memory.
pub open spec fn store_evicts<V>(s: Seq<(Seq<char>, V)>, path: Seq<char>) -> bool {
    path_index(s, path) is None && s.len() == MAX_ENTRIES
}

proof fn lemma_unique_after_store<V>(s: Seq<(Seq<char>, V)>, path: Seq<char>, v: V)
    requires
        paths_unique(s),
        s.len() <= MAX_ENTRIES,
    ensures
        paths_unique(memory_store(s, path, v)),
{
    lemma_path_index(s, path);
    let t = match path_index(s, path) {
        Some(i) => s.update(i, (path, v)),
        None => s.push((path, v)),
    };
    assert forall|a: int, b: int| 0 <= a < b < t.len() implies t[a].0 != t[b].0 by {
        match path_index(s, path) {
            Some(p) => {
                if a != p {
                    assert(t[a] == s[a]);
                }
                if b != p {
                    assert(t[b] == s[b]);
                }
            },
            None => {
                assert(t[a] == s[a]);
                if b < s.len() {
                    assert(t[b] == s[b]);
                }
            },
        }
    }
    let r = memory_store(s, path, v);
    if t.len() > MAX_ENTRIES {
        assert forall|a: int, b: int| 0 <= a < b < r.len() implies r[a].0 != r[b].0 by {
            assert(r[a] == t[a + 1] && r[b] == t[b + 1]);
        }
    }
}

/// After storing `v` for `path`, reading `path` gives `v`. Every other
/// path keeps its value, except the oldest entry when a new path is
/// stored into a full memory: that one is forgotten.
pub proof fn lemma_store_get<V>(s: Seq<(Seq<char>, V)>, path: Seq<char>, v: V, other: Seq<char>)
    requires
        paths_unique(s),
        s.len() <= MAX_ENTRIES,
        other != path,
    ensures
        memory_get(memory_store(s, path, v), path) == Some(v),
        !(store_evicts(s, path) && other == s[0].0) ==> memory_get(memory_store(s, path, v), other)
            == memory_get(s, other),
        store_evicts(s, path) ==> memory_get(memory_store(s, path, v), s[0].0) is None,
        memory_store(s, path, v).len() <= MAX_ENTRIES,
{
    let r = memory_store(s, path, v);
    lemma_path_index(s, path);
    lemma_path_index(s, other);
    lemma_unique_after_store(s, path, v);
    lemma_path_index(r, other);
    match path_index(s, path) {
        Some(p) => {
            lemma_index_of_entry(r, p);
            match path_index(s, other) {
                Some(q) => {
                    assert(r[q] == s[q]);
                    lemma_index_of_entry(r, q);
                },
                None => {
                    if path_index(r, other) is Some {
                        let q = path_index(r, other)->0;
                        if q != p {
                            assert(r[q] == s[q]);
                        }
                    }
                },
            }
        },
        None => {
            if s.len() < MAX_ENTRIES {
                lemma_index_of_entry(r, s.len() as int);
                match path_index(s, other) {
                    Some(q) => {
                        assert(r[q] == s[q]);
                        lemma_index_of_entry(r, q);
                    },
                    None => {
                        if path_index(r, other) is Some {
                            let q = path_index(r, other)->0;
                            if q < s.len() {
                                assert(r[q] == s[q]);
                            }
                        }
                    },
                }
            } else {
                let t = s.push((path, v));
                assert(r =~= t.drop_first());
                assert(r[r.len() - 1] == (path, v));
                lemma_index_of_entry(r, r.len() - 1);
                let first = s[0].0;
                lemma_path_index(r, first);
                if path_index(r, first) is Some {
                    let q = path_index(r, first)->0;
                    if q < r.len() - 1 {
                        assert(r[q] == s[q + 1]);
                    }
                }
                if other != first {
                    match path_index(s, other) {
                        Some(q) => {
                            assert(q != 0);
                            assert(r[q - 1] == s[q]);
                            lemma_index_of_entry(r, q - 1);
                        },
                        None => {
                            if path_index(r, other) is Some {
                                let q = path_index(r, other)->0;
                                if q < r.len() - 1 {
                                    assert(r[q] == s[q + 1]);
                                }
                            }
                        },
                    }
                }
            }
        },
    }
}

/// A video size is remembered only when both sides are known.
pub fn store_resolution(m: &mut PathMemory<(u32, u32)>, path: &str, w: u32, h: u32)
    ensures
        w > 0 && h > 0 ==> final(m)@ == memory_store(old(m)@, path@, (w, h)),
        !(w > 0 && h > 0) ==> final(m)@ == old(m)@,
{
    if w > 0 && h > 0 {
        m.store(path, (w, h));
    }
}

/// The remembered video size of `path`, if both sides are known.
pub fn resolution(m: &PathMemory<(u32, u32)>, path: &str) -> (r: Option<(u32, u32)>)
    ensures
        r == match memory_get(m@, path@) {
            Some(wh) => if wh.0 > 0 && wh.1 > 0 {
                Some(wh)
            } else {
                None
            },
            None => None,
        },
{
    match m.get(path) {
        Some(wh) => if wh.0 > 0 && wh.1 > 0 {
            Some(wh)
        } else {
            None
        },
        None => None,
    }
}

/// When `path` was last played (Unix seconds), if ever.
pub fn last_played(m: &PathMemory<u64>, path: &str) -> (r: Option<u64>)
    ensures
        r == match memory_get(m@, path@) {
            Some(t) => if t > 0 {
                Some(t)
            } else {
                None
            },
            None => None,
        },
{
    match m.get(path) {
        Some(t) => if t > 0 {
            Some(t)
        } else {
            None
        },
        None => None,
    }
}

} // verus!
