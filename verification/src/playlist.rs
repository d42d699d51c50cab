//! The play queue: its entries, the entry being played, and the ways the
//! user moves through, edits, shuffles and re-sorts it.

use vstd::prelude::*;
use vstd::multiset::Multiset;
use crate::clock::clock_subsec_nanos;
use crate::text::{str_eq, string_of, string_views};
use crate::sorting::{
    by_name, by_number, lemma_by_name_strict_weak, lemma_by_number_strict_weak, lemma_stable_sort,
    lemma_stable_sort_map,
    name_order, name_views, number_order, number_views, ranked, stable_sort, tagged,
};

verus! {

/// The play queue and the index of the entry being played. The index is
/// always inside the list, or 0 when the list is empty.
pub struct Playlist {
    items: Vec<String>,
    idx: usize,
}

/// Exchanges two entries of a sequence.
pub open spec fn swap_spec<T>(s: Seq<T>, i: int, j: int) -> Seq<T> {
    s.update(i, s[j]).update(j, s[i])
}

/// Index of the first entry equal to `x`, if any.
pub open spec fn first_index(s: Seq<Seq<char>>, x: Seq<char>) -> Option<int>
    decreases s.len(),
{
    if s.len() == 0 {
        None
    } else {
        match first_index(s.drop_last(), x) {
            Some(i) => Some(i),
            None => if s.last() == x {
                Some(s.len() - 1)
            } else {
                None
            },
        }
    }
}

/// One step of the shuffle's pseudo-random sequence (a 64-bit LCG).
#[verifier::opaque]
pub open spec fn lcg_next(r: u64) -> u64 {
    r.wrapping_mul(6364136223846793005).wrapping_add(1442695040888963407)
}

/// Fisher–Yates over positions `i` down to 1, drawing from the generator
/// after state `rng`.
#[verifier::opaque]
pub open spec fn fisher_yates<T>(s: Seq<T>, rng: u64, i: nat) -> Seq<T>
    decreases i,
{
    if i == 0 {
        s
    } else {
        let r = lcg_next(rng);
        let j = ((r >> 33u64) as int) % (i as int + 1);
        fisher_yates(swap_spec(s, i as int, j), r, (i - 1) as nat)
    }
}

/// The queue after a shuffle seeded with `seed`, the entry `current` then
/// moved to the front.
pub open spec fn shuffle_spec(s: Seq<Seq<char>>, current: Seq<char>, seed: u64) -> Seq<
    Seq<char>,
> {
    let f = fisher_yates(s, seed.wrapping_add(0xdeadbeef), (s.len() - 1) as nat);
    match first_index(f, current) {
        Some(p) => swap_spec(f, 0, p),
        None => f,
    }
}

/// The queue after appending each of `items` that is not queued yet.
pub open spec fn append_all(s: Seq<Seq<char>>, items: Seq<Seq<char>>) -> Seq<Seq<char>>
    decreases items.len(),
{
    if items.len() == 0 {
        s
    } else {
        let t = append_all(s, items.drop_last());
        if t.contains(items.last()) {
            t
        } else {
            t.push(items.last())
        }
    }
}

/// The entries in the order the positions of `order` give.
pub open spec fn arrange<K>(items: Seq<Seq<char>>, order: Seq<(int, K)>) -> Seq<Seq<char>> {
    Seq::new(order.len(), |k: int| items[order[k].0])
}

/// The play index after removing entry `i` of a list of `len` entries
/// while entry `cur` was playing.
pub open spec fn index_after_remove(len: nat, cur: nat, i: nat) -> nat {
    if len - 1 == 0 {
        0
    } else if cur >= len - 1 {
        (len - 2) as nat
    } else if i < cur {
        (cur - 1) as nat
    } else {
        cur
    }
}

proof fn lemma_swap_multiset<T>(s: Seq<T>, i: int, j: int)
    requires
        0 <= i < s.len(),
        0 <= j < s.len(),
    ensures
        swap_spec(s, i, j).to_multiset() == s.to_multiset(),
        swap_spec(s, i, j).len() == s.len(),
{
    broadcast use vstd::multiset::group_multiset_axioms;
    broadcast use vstd::seq_lib::group_to_multiset_ensures;

    let t = s.update(i, s[j]);
    assert(t.to_multiset() =~= s.to_multiset().insert(s[j]).remove(s[i]));
    assert(t.update(j, s[i]).to_multiset() =~= t.to_multiset().insert(s[i]).remove(t[j]));
    assert(swap_spec(s, i, j).to_multiset() =~= s.to_multiset());
}

proof fn lemma_fy_step<T>(s: Seq<T>, rng: u64, i: nat)
    requires
        i > 0,
    ensures
        fisher_yates(s, rng, i) == fisher_yates(
            swap_spec(s, i as int, ((lcg_next(rng) >> 33u64) as int) % (i as int + 1)),
            lcg_next(rng),
            (i - 1) as nat,
        ),
{
    reveal(fisher_yates);
}

proof fn lemma_fy_zero<T>(s: Seq<T>, rng: u64)
    ensures
        fisher_yates(s, rng, 0) == s,
{
    reveal(fisher_yates);
}

proof fn lemma_fisher_yates_multiset<T>(s: Seq<T>, rng: u64, i: nat)
    requires
        i < s.len(),
    ensures
        fisher_yates(s, rng, i).to_multiset() == s.to_multiset(),
        fisher_yates(s, rng, i).len() == s.len(),
    decreases i,
{
    reveal(fisher_yates);
    if i > 0 {
        let r = lcg_next(rng);
        let j = ((r >> 33u64) as int) % (i as int + 1);
        lemma_swap_multiset(s, i as int, j);
        lemma_fisher_yates_multiset(swap_spec(s, i as int, j), r, (i - 1) as nat);
    }
}

proof fn lemma_first_index(s: Seq<Seq<char>>, x: Seq<char>)
    ensures
        match first_index(s, x) {
            Some(p) => 0 <= p < s.len() && s[p] == x && forall|k: int| 0 <= k < p ==> s[k] != x,
            None => forall|k: int| 0 <= k < s.len() ==> s[k] != x,
        },
    decreases s.len(),
{
    if s.len() > 0 {
        lemma_first_index(s.drop_last(), x);
        assert forall|k: int| 0 <= k < s.len() - 1 implies s[k] == s.drop_last()[k] by {}
    }
}

/// Fisher–Yates over the whole list, the generator starting at `rng`.
fn fisher_yates_exec(items: &mut Vec<String>, rng0: u64)
    requires
        old(items)@.len() >= 1,
    ensures
        string_views(final(items)@) == fisher_yates(
            string_views(old(items)@),
            rng0,
            (old(items)@.len() - 1) as nat,
        ),
{
    let ghost s0 = string_views(items@);
    let mut rng = rng0;
    let mut i: usize = items.len() - 1;
    while i > 0
        invariant
            items@.len() == s0.len(),
            i < items@.len(),
            i < items.len(),
            fisher_yates(string_views(items@), rng, i as nat) == fisher_yates(
                s0,
                rng0,
                (s0.len() - 1) as nat,
            ),
        decreases i,
    {
        let ghost old_rng = rng;
        let ghost before = string_views(items@);
        rng = lcg_step(rng);
        let j = draw(rng, i);
        swap_items(items, i, j);
        proof {
            lemma_fy_step(before, old_rng, i as nat);
        }
        i -= 1;
    }
    proof {
        lemma_fy_zero(string_views(items@), rng);
    }
}

fn lcg_step(r: u64) -> (n: u64)
    ensures
        n == lcg_next(r),
{
    reveal(lcg_next);
    r.wrapping_mul(6364136223846793005).wrapping_add(1442695040888963407)
}

/// The shuffle's draw for position `i`: the generator's high bits modulo
/// `i + 1`.
fn draw(r: u64, i: usize) -> (j: usize)
    requires
        i < usize::MAX,
    ensures
        j == ((r >> 33u64) as int) % (i as int + 1),
        j <= i,
{
    let hi: u64 = r >> 33u64;
    assert(hi <= 0x7FFF_FFFF) by (bit_vector)
        requires
            hi == r >> 33u64,
    ;
    (hi as usize) % (i + 1)
}

fn swap_items(items: &mut Vec<String>, i: usize, j: usize)
    requires
        i < old(items)@.len(),
        j < old(items)@.len(),
    ensures
        string_views(final(items)@) == swap_spec(string_views(old(items)@), i as int, j as int),
        final(items)@.len() == old(items)@.len(),
{
    let a = items[i].clone();
    let b = items[j].clone();
    items.set(i, b);
    items.set(j, a);
    assert(string_views(items@) =~= swap_spec(string_views(old(items)@), i as int, j as int));
}

/// Index of the first string in `items` equal to `item`.
fn find_first(items: &Vec<String>, item: &str) -> (r: Option<usize>)
    ensures
        r is Some <==> first_index(string_views(items@), item@) is Some,
        r is Some ==> r->0 == first_index(string_views(items@), item@)->0,
        r is Some ==> r->0 < items@.len(),
{
    let ghost s = string_views(items@);
    proof {
        lemma_first_index(s, item@);
    }
    let mut i: usize = 0;
    while i < items.len()
        invariant
            s == string_views(items@),
            i <= items@.len(),
            forall|k: int| 0 <= k < i ==> s[k] != item@,
        decreases items@.len() - i,
    {
        if str_eq(items[i].as_str(), item) {
            proof {
                assert(s[i as int] == items@[i as int]@);
                lemma_first_index(s, item@);
                if first_index(s, item@) is None {
                    assert(s[i as int] != item@);
                }
                let p = first_index(s, item@)->0;
                assert(p >= i) by {
                    if p < i {
                        assert(s[p] != item@);
                    }
                }
                assert(p <= i) by {
                    if p > i {
                        assert(s[i as int] != item@);
                    }
                }
            }
            return Some(i);
        }
        i += 1;
    }
    None
}

impl View for Playlist {
    type V = (Seq<Seq<char>>, nat);

    /// The entries and the play index.
    closed spec fn view(&self) -> (Seq<Seq<char>>, nat) {
        (string_views(self.items@), self.idx as nat)
    }
}

impl Playlist {
    #[verifier::type_invariant]
    spec fn inv(self) -> bool {
        if self.items@.len() == 0 {
            self.idx == 0
        } else {
            self.idx < self.items@.len()
        }
    }

    /// An empty queue.
    pub fn new() -> (p: Playlist)
        ensures
            p@.0.len() == 0,
            p@.1 == 0,
    {
        Playlist { items: Vec::new(), idx: 0 }
    }

    /// A queue holding `items` with entry `idx` playing; an index outside
    /// the list selects the first entry.
    pub fn from_items(items: Vec<String>, idx: usize) -> (p: Playlist)
        ensures
            p@.0 == string_views(items@),
            p@.1 == if idx < items@.len() { idx as nat } else { 0 },
    {
        let i = if idx < items.len() {
            idx
        } else {
            0
        };
        Playlist { items, idx: i }
    }

    /// The entries, in order.
    pub fn items(&self) -> (r: &Vec<String>)
        ensures
            string_views(r@) == self@.0,
    {
        &self.items
    }

    /// Number of entries.
    pub fn len(&self) -> (r: usize)
        ensures
            r == self@.0.len(),
    {
        self.items.len()
    }

    /// Index of the entry being played: inside the list, or 0 when the
    /// list is empty.
    pub fn current_index(&self) -> (r: usize)
        ensures
            r == self@.1,
            self@.0.len() == 0 ==> r == 0,
            self@.0.len() > 0 ==> r < self@.0.len(),
    {
        proof {
            use_type_invariant(self);
        }
        self.idx
    }

    /// The entry being played, if the queue is not empty.
    pub fn current(&self) -> (r: Option<String>)
        ensures
            self@.0.len() == 0 ==> r is None,
            self@.0.len() > 0 ==> r is Some && r->0@ == self@.0[self@.1 as int],
    {
        proof {
            use_type_invariant(self);
        }
        if self.items.len() == 0 {
            None
        } else {
            Some(self.items[self.idx].clone())
        }
    }

    /// Plays entry `i`, if there is one; gives the entry to open.
    pub fn jump(&mut self, i: usize) -> (r: Option<String>)
        ensures
            final(self)@.0 == old(self)@.0,
            i < old(self)@.0.len() ==> final(self)@.1 == i && r is Some && r->0@ == old(self)@.0[i as int],
            i >= old(self)@.0.len() ==> final(self)@ == old(self)@ && r is None,
    {
        if i < self.items.len() {
            self.idx = i;
            Some(self.items[i].clone())
        } else {
            None
        }
    }

    /// Moves to the next entry, if there is one; gives the entry to open.
    pub fn next(&mut self) -> (r: Option<String>)
        ensures
            final(self)@.0 == old(self)@.0,
            old(self)@.1 + 1 < old(self)@.0.len() ==> final(self)@.1 == old(self)@.1 + 1 && r is Some
                && r->0@ == old(self)@.0[old(self)@.1 as int + 1],
            old(self)@.1 + 1 >= old(self)@.0.len() ==> final(self)@ == old(self)@ && r is None,
    {
        if self.items.len() > 0 && self.idx < self.items.len() - 1 {
            self.idx = self.idx + 1;
            Some(self.items[self.idx].clone())
        } else {
            None
        }
    }

    /// Moves to the previous entry, if there is one; gives the entry to open.
    pub fn prev(&mut self) -> (r: Option<String>)
        ensures
            final(self)@.0 == old(self)@.0,
            old(self)@.1 > 0 ==> final(self)@.1 == old(self)@.1 - 1 && r is Some && r->0@ == old(
                self,
            )@.0[old(self)@.1 - 1],
            old(self)@.1 == 0 ==> final(self)@ == old(self)@ && r is None,
    {
        proof {
            use_type_invariant(&*self);
        }
        if self.idx > 0 {
            self.idx = self.idx - 1;
            Some(self.items[self.idx].clone())
        } else {
            None
        }
    }

    /// The entry "next chapter" opens when the file has no chapters: the
    /// following entry, or the last one at the end of the list. The play
    /// index is left as it is.
    pub fn next_chapter_target(&self) -> (r: String)
        requires
            self@.0.len() > 0,
        ensures
            r@ == self@.0[if self@.1 + 1 < self@.0.len() { self@.1 as int + 1 } else { self@.0.len() - 1 }],
    {
        proof {
            use_type_invariant(self);
        }
        let last = self.items.len() - 1;
        let i = if self.idx + 1 < self.items.len() {
            self.idx + 1
        } else {
            last
        };
        self.items[i].clone()
    }

    /// Replaces the whole queue (a loaded playlist or a folder's files),
    /// playing entry `idx`; an index outside the list selects the first.
    pub fn replace(&mut self, items: Vec<String>, idx: usize)
        ensures
            final(self)@.0 == string_views(items@),
            final(self)@.1 == if idx < items@.len() { idx as nat } else { 0 },
    {
        let i = if idx < items.len() {
            idx
        } else {
            0
        };
        *self = Playlist { items, idx: i };
    }

    /// Appends an entry; an empty queue starts playing it.
    pub fn push(&mut self, item: &str)
        ensures
            final(self)@.0 == old(self)@.0.push(item@),
            final(self)@.1 == old(self)@.1,
    {
        proof {
            use_type_invariant(&*self);
        }
        let mut items = self.items.clone();
        assert(string_views(items@) =~= string_views(self.items@));
        items.push(string_of(item));
        assert(string_views(items@) =~= string_views(self.items@).push(item@));
        *self = Playlist { items, idx: self.idx };
    }

    /// Whether an entry equal to `item` is queued.
    pub fn contains(&self, item: &str) -> (r: bool)
        ensures
            r == self@.0.contains(item@),
    {
        let mut i: usize = 0;
        while i < self.items.len()
            invariant
                i <= self.items@.len(),
                forall|k: int| 0 <= k < i ==> self@.0[k] != item@,
            decreases self.items@.len() - i,
        {
            if str_eq(self.items[i].as_str(), item) {
                assert(self@.0[i as int] == item@);
                return true;
            }
            i += 1;
        }
        false
    }

    /// Appends `item` unless it is already queued; tells whether it was
    /// added.
    pub fn append_unique(&mut self, item: &str) -> (added: bool)
        ensures
            added == !old(self)@.0.contains(item@),
            added ==> final(self)@.0 == old(self)@.0.push(item@),
            !added ==> final(self)@.0 == old(self)@.0,
            final(self)@.1 == old(self)@.1,
    {
        if self.contains(item) {
            false
        } else {
            self.push(item);
            true
        }
    }

    /// Appends each of `items` that is not queued yet (counting those
    /// appended before it); gives how many were appended.
    pub fn append_missing(&mut self, items: &Vec<String>) -> (added: usize)
        ensures
            final(self)@.0 == append_all(old(self)@.0, string_views(items@)),
            final(self)@.1 == old(self)@.1,
            added == final(self)@.0.len() - old(self)@.0.len(),
    {
        let ghost start = self@;
        let mut added: usize = 0;
        let mut i: usize = 0;
        while i < items.len()
            invariant
                i <= items@.len(),
                self@.0 == append_all(start.0, string_views(items@).take(i as int)),
                self@.1 == start.1,
                added == self@.0.len() - start.0.len(),
                added <= i,
            decreases items@.len() - i,
        {
            let ghost vs = string_views(items@);
            proof {
                assert(vs.take(i + 1).drop_last() =~= vs.take(i as int));
                assert(vs.take(i + 1).last() == items@[i as int]@);
            }
            if self.append_unique(items[i].as_str()) {
                added += 1;
            }
            i += 1;
        }
        assert(string_views(items@).take(items@.len() as int) =~= string_views(items@));
        added
    }

    /// Index of the first entry equal to `item`.
    pub fn position(&self, item: &str) -> (r: Option<usize>)
        ensures
            r is Some <==> first_index(self@.0, item@) is Some,
            r is Some ==> r->0 == first_index(self@.0, item@)->0,
    {
        find_first(&self.items, item)
    }

    /// After the list was re-sorted, points the play index at the first
    /// entry equal to the one that was playing; unchanged when it is gone.
    pub fn reselect(&mut self, current: &str)
        ensures
            final(self)@.0 == old(self)@.0,
            first_index(old(self)@.0, current@) is Some ==> final(self)@.1 == first_index(
                old(self)@.0,
                current@,
            )->0,
            first_index(old(self)@.0, current@) is None ==> final(self)@.1 == old(self)@.1,
    {
        proof {
            lemma_first_index(self@.0, current@);
        }
        match self.position(current) {
            Some(p) => {
                self.idx = p;
            },
            None => {},
        }
    }

    /// Removes entry `i`; the play index stays on the same file when
    /// another entry goes, and on the entry now in its place (or the last
    /// one) when the playing entry goes.
    pub fn remove(&mut self, i: usize)
        ensures
            i < old(self)@.0.len() ==> final(self)@.0 == old(self)@.0.remove(i as int)
                && final(self)@.1 == index_after_remove(
                old(self)@.0.len(),
                old(self)@.1,
                i as nat,
            ),
            i >= old(self)@.0.len() ==> final(self)@ == old(self)@,
    {
        proof {
            use_type_invariant(&*self);
        }
        if i < self.items.len() {
            let mut items = self.items.clone();
            assert(string_views(items@) =~= string_views(self.items@));
            items.remove(i);
            assert(string_views(items@) =~= string_views(self.items@).remove(i as int));
            let n = items.len();
            let new_idx = if n == 0 {
                0
            } else if self.idx >= n {
                n - 1
            } else if i < self.idx {
                self.idx - 1
            } else {
                self.idx
            };
            *self = Playlist { items, idx: new_idx };
        }
    }

    /// Puts the entries in the order in which `order` lists their old
    /// positions, and plays the first copy of the file that was playing.
    fn apply_order(&mut self, order: &Vec<usize>)
        requires
            order@.len() == old(self)@.0.len(),
            forall|k: int| 0 <= k < order@.len() ==> order@[k] < order@.len(),
            old(self)@.0.len() > 0 ==> exists|p: int|
                0 <= p < order@.len() && order@[p] == old(self)@.1,
        ensures
            final(self)@.0 == Seq::new(order@.len(), |k: int| old(self)@.0[order@[k] as int]),
            old(self)@.0.len() > 0 ==> first_index(
                final(self)@.0,
                old(self)@.0[old(self)@.1 as int],
            ) is Some && final(self)@.1 == first_index(
                final(self)@.0,
                old(self)@.0[old(self)@.1 as int],
            )->0,
            old(self)@.0.len() == 0 ==> final(self)@.1 == 0,
    {
        proof {
            use_type_invariant(&*self);
        }
        let n = self.items.len();
        if n == 0 {
            return;
        }
        let ghost s0 = string_views(self.items@);
        let ghost c = self.idx as int;
        let current = self.items[self.idx].clone();
        let mut out: Vec<String> = Vec::new();
        let mut k: usize = 0;
        while k < n
            invariant
                n == self.items@.len(),
                n == order@.len(),
                s0 == string_views(self.items@),
                forall|q: int| 0 <= q < order@.len() ==> order@[q] < order@.len(),
                k <= n,
                string_views(out@) == Seq::new(k as nat, |q: int| s0[order@[q] as int]),
            decreases n - k,
        {
            let x = self.items[order[k]].clone();
            proof {
                assert(s0[order@[k as int] as int] == self.items@[order@[k as int] as int]@);
                assert(x@ == s0[order@[k as int] as int]);
            }
            let ghost before = string_views(out@);
            out.push(x);
            proof {
                assert(string_views(out@) =~= before.push(x@));
                assert(string_views(out@) =~= Seq::new((k + 1) as nat, |q: int| s0[order@[q] as int]));
            }
            k += 1;
        }
        let ghost t = string_views(out@);
        proof {
            let p = choose|p: int| 0 <= p < order@.len() && order@[p] == c;
            assert(t[p] == s0[c]);
            lemma_first_index(t, s0[c]);
            assert(current@ == s0[c]);
        }
        *self = Playlist { items: out, idx: 0 };
        self.reselect(current.as_str());
    }

    /// Sorts the queue by file name, ascending or descending; `names[i]`
    /// is the name of entry `i`, if it has one (a missing name sorts
    /// first). Entries whose names are equal keep their order, and the
    /// same file stays playing.
    pub fn sort_by_name(&mut self, names: &Vec<Option<String>>, desc: bool)
        requires
            names@.len() == old(self)@.0.len(),
        ensures
            final(self)@.0 == arrange(
                old(self)@.0,
                stable_sort(ranked(name_views(names@)), by_name(desc)),
            ),
            old(self)@.0.len() > 0 ==> first_index(
                final(self)@.0,
                old(self)@.0[old(self)@.1 as int],
            ) is Some && final(self)@.1 == first_index(
                final(self)@.0,
                old(self)@.0[old(self)@.1 as int],
            )->0,
            old(self)@.0.len() == 0 ==> final(self)@.1 == 0,
    {
        let order = name_order(names, desc);
        let ghost keys = name_views(names@);
        let ghost sorted = stable_sort(ranked(keys), by_name(desc));
        proof {
            use_type_invariant(&*self);
            lemma_by_name_strict_weak(desc);
            lemma_stable_sort(ranked(keys), by_name(desc));
            if self@.0.len() > 0 {
                lemma_order_covers(keys, sorted, order@, self@.1 as int);
            }
        }
        self.apply_order(&order);
        proof {
            assert(final(self)@.0 =~= arrange(old(self)@.0, sorted));
        }
    }

    /// Sorts the queue by a number per entry (its size, or when it was
    /// modified), ascending or descending; `keys[i]` belongs to entry `i`.
    /// Entries whose numbers are equal keep their order, and the same file
    /// stays playing.
    pub fn sort_by_number(&mut self, keys: &Vec<i128>, desc: bool)
        requires
            keys@.len() == old(self)@.0.len(),
        ensures
            final(self)@.0 == arrange(
                old(self)@.0,
                stable_sort(ranked(number_views(keys@)), by_number(desc)),
            ),
            old(self)@.0.len() > 0 ==> first_index(
                final(self)@.0,
                old(self)@.0[old(self)@.1 as int],
            ) is Some && final(self)@.1 == first_index(
                final(self)@.0,
                old(self)@.0[old(self)@.1 as int],
            )->0,
            old(self)@.0.len() == 0 ==> final(self)@.1 == 0,
    {
        let order = number_order(keys, desc);
        let ghost ks = number_views(keys@);
        let ghost sorted = stable_sort(ranked(ks), by_number(desc));
        proof {
            use_type_invariant(&*self);
            lemma_by_number_strict_weak(desc);
            lemma_stable_sort(ranked(ks), by_number(desc));
            if self@.0.len() > 0 {
                lemma_order_covers(ks, sorted, order@, self@.1 as int);
            }
        }
        self.apply_order(&order);
        proof {
            assert(final(self)@.0 =~= arrange(old(self)@.0, sorted));
        }
    }

    /// Shuffles the queue with the generator seeded by `seed`, then puts
    /// the entry that was playing first and plays it.
    pub fn shuffle_with_seed(&mut self, seed: u64)
        ensures
            old(self)@.0.len() > 1 ==> final(self)@.0 == shuffle_spec(
                old(self)@.0,
                old(self)@.0[old(self)@.1 as int],
                seed,
            ) && final(self)@.1 == 0,
            old(self)@.0.len() <= 1 ==> final(self)@ == old(self)@,
    {
        proof {
            use_type_invariant(&*self);
        }
        if self.items.len() > 1 {
            let current = self.items[self.idx].clone();
            let mut items = self.items.clone();
            let ghost s0 = string_views(self.items@);
            assert(string_views(items@) =~= s0);
            fisher_yates_exec(&mut items, seed.wrapping_add(0xdeadbeef));
            let ghost f = string_views(items@);
            proof {
                assert(current@ == s0[self.idx as int]);
            }
            match find_first(&items, current.as_str()) {
                Some(k) => {
                    swap_items(&mut items, 0, k);
                },
                None => {},
            }
            *self = Playlist { items, idx: 0 };
        }
    }

    /// Shuffles the queue, seeding the generator from the clock, and puts
    /// the entry that was playing first.
    pub fn shuffle(&mut self)
        ensures
            old(self)@.0.len() > 1 ==> exists|seed: u64| #[trigger]
                shuffle_spec(old(self)@.0, old(self)@.0[old(self)@.1 as int], seed)
                    == final(self)@.0,
            old(self)@.0.len() > 1 ==> final(self)@.1 == 0,
            old(self)@.0.len() <= 1 ==> final(self)@ == old(self)@,
    {
        let seed = clock_subsec_nanos() as u64;
        self.shuffle_with_seed(seed);
    }
}

/// A sorted order of all positions lists every position.
proof fn lemma_order_covers<K>(keys: Seq<K>, sorted: Seq<(int, K)>, order: Seq<usize>, c: int)
    requires
        sorted.to_multiset() == ranked(keys).to_multiset(),
        tagged(order, keys) == sorted,
        0 <= c < keys.len(),
    ensures
        exists|p: int| 0 <= p < order.len() && order[p] == c,
{
    broadcast use vstd::seq_lib::group_to_multiset_ensures;

    let src = ranked(keys);
    assert(src[c] == (c, keys[c]));
    assert(src.contains(src[c]));
    assert(sorted.to_multiset().count(src[c]) > 0);
    assert(sorted.contains(src[c]));
    let p = choose|p: int| 0 <= p < sorted.len() && sorted[p] == src[c];
    assert(tagged(order, keys)[p] == sorted[p]);
    assert(order[p] == c);
}

/// Sorting the queue, by whatever keys and order, keeps every entry, as
/// many times as before.
pub proof fn lemma_sort_keeps_entries<K>(
    items: Seq<Seq<char>>,
    keys: Seq<K>,
    lt: spec_fn((int, K), (int, K)) -> bool,
)
    requires
        items.len() == keys.len(),
    ensures
        arrange(items, stable_sort(ranked(keys), lt)).to_multiset() == items.to_multiset(),
{
    let f = |p: (int, K)| items[p.0];
    lemma_stable_sort_map(ranked(keys), lt, f);
    assert(arrange(items, stable_sort(ranked(keys), lt)) =~= stable_sort(ranked(keys), lt).map_values(
        f,
    ));
    assert(ranked(keys).map_values(f) =~= items);
}

/// Appending what is missing keeps the queue as it was at the front, ends
/// with every appended item queued, and adds no second copy of anything.
pub proof fn lemma_append_all(s: Seq<Seq<char>>, items: Seq<Seq<char>>)
    ensures
        append_all(s, items).len() >= s.len(),
        append_all(s, items).take(s.len() as int) == s,
        forall|k: int| 0 <= k < items.len() ==> append_all(s, items).contains(#[trigger] items[k]),
        s.no_duplicates() ==> append_all(s, items).no_duplicates(),
    decreases items.len(),
{
    if items.len() > 0 {
        let d = items.drop_last();
        let t = append_all(s, d);
        lemma_append_all(s, d);
        assert forall|k: int| 0 <= k < items.len() implies append_all(s, items).contains(
            #[trigger] items[k],
        ) by {
            if k < items.len() - 1 {
                assert(items[k] == d[k]);
                let j = choose|j: int| 0 <= j < t.len() && t[j] == d[k];
                if !t.contains(items.last()) {
                    assert(t.push(items.last())[j] == t[j]);
                }
            } else if !t.contains(items.last()) {
                assert(t.push(items.last())[t.len() as int] == items.last());
            }
        }
        if !t.contains(items.last()) {
            assert(t.push(items.last()).take(s.len() as int) =~= t.take(s.len() as int));
        }
    }
}

/// A shuffle keeps every entry (as many times as before), and the entry
/// that was playing ends up first.
pub proof fn lemma_shuffle_permutes(s: Seq<Seq<char>>, cur: int, seed: u64)
    requires
        s.len() > 1,
        0 <= cur < s.len(),
    ensures
        shuffle_spec(s, s[cur], seed).to_multiset() == s.to_multiset(),
        shuffle_spec(s, s[cur], seed).len() == s.len(),
        shuffle_spec(s, s[cur], seed)[0] == s[cur],
{
    broadcast use vstd::seq_lib::group_to_multiset_ensures;

    let f = fisher_yates(s, seed.wrapping_add(0xdeadbeef), (s.len() - 1) as nat);
    lemma_fisher_yates_multiset(s, seed.wrapping_add(0xdeadbeef), (s.len() - 1) as nat);
    lemma_first_index(f, s[cur]);
    assert(s.to_multiset().count(s[cur]) > 0);
    assert(f.contains(s[cur]));
    let p = first_index(f, s[cur])->0;
    lemma_swap_multiset(f, 0, p);
}

/// Removing an entry other than the one playing keeps the same file
/// playing.
pub proof fn lemma_remove_keeps_current(s: Seq<Seq<char>>, cur: nat, i: nat)
    requires
        cur < s.len(),
        i < s.len(),
        i != cur,
    ensures
        s.remove(i as int)[index_after_remove(s.len(), cur, i) as int] == s[cur as int],
{
}

} // verus!
