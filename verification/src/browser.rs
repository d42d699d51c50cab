//! The file browser panel: where it is, where it has been, and what a
//! directory listing shows.

use vstd::prelude::*;
use crate::text::{
    ascii_lower_seq, chars_eq, from_chars, lower_chars, push_chars, str_eq, string_of, string_views,
    to_chars,
};

verus! {

// ---------------------------------------------------------------------------
// Navigation history
// ---------------------------------------------------------------------------

/// Most locations the back list keeps.
pub const MAX_BACK_STACK: usize = 50;

pub open spec fn loc_view(l: Option<String>) -> Option<Seq<char>> {
    match l {
        Some(s) => Some(s@),
        None => None,
    }
}

pub open spec fn locs_view(v: Seq<Option<String>>) -> Seq<Option<Seq<char>>> {
    v.map_values(|l: Option<String>| loc_view(l))
}

/// Where the browser is (`None`: the list of drives or roots), with the
/// locations Back and Forward return to, most recent last.
pub struct BrowserHistory {
    location: Option<String>,
    back: Vec<Option<String>>,
    forward: Vec<Option<String>>,
}

/// The browser's state as plain values: location, back list, forward list.
pub struct HistoryView {
    pub location: Option<Seq<char>>,
    pub back: Seq<Option<Seq<char>>>,
    pub forward: Seq<Option<Seq<char>>>,
}

/// The state after navigating to `target`: a move to the current location
/// changes nothing; otherwise the old location is remembered for Back (the
/// oldest dropped past `MAX_BACK_STACK`) and Forward is cleared.
pub open spec fn go_spec(h: HistoryView, target: Option<Seq<char>>) -> HistoryView {
    if target == h.location {
        h
    } else {
        let pushed = h.back.push(h.location);
        HistoryView {
            location: target,
            back: if pushed.len() > MAX_BACK_STACK {
                pushed.drop_first()
            } else {
                pushed
            },
            forward: Seq::empty(),
        }
    }
}

/// The state after Back: the last remembered location becomes current and
/// the one left goes onto Forward; nothing happens with no history.
pub open spec fn back_spec(h: HistoryView) -> HistoryView {
    if h.back.len() == 0 {
        h
    } else {
        HistoryView {
            location: h.back.last(),
            back: h.back.drop_last(),
            forward: h.forward.push(h.location),
        }
    }
}

/// The state after Forward, the mirror of Back.
pub open spec fn forward_spec(h: HistoryView) -> HistoryView {
    if h.forward.len() == 0 {
        h
    } else {
        HistoryView {
            location: h.forward.last(),
            back: h.back.push(h.location),
            forward: h.forward.drop_last(),
        }
    }
}

fn clone_loc(l: &Option<String>) -> (r: Option<String>)
    ensures
        loc_view(r) == loc_view(*l),
{
    match l {
        Some(s) => Some(s.clone()),
        None => None,
    }
}

fn loc_eq(a: &Option<String>, b: &Option<String>) -> (r: bool)
    ensures
        r == (loc_view(*a) == loc_view(*b)),
{
    match (a, b) {
        (Some(x), Some(y)) => str_eq(x.as_str(), y.as_str()),
        (None, None) => true,
        _ => false,
    }
}

impl View for BrowserHistory {
    type V = HistoryView;

    closed spec fn view(&self) -> HistoryView {
        HistoryView {
            location: loc_view(self.location),
            back: locs_view(self.back@),
            forward: locs_view(self.forward@),
        }
    }
}

impl BrowserHistory {
    /// At the drives list, with no history.
    pub fn new() -> (h: BrowserHistory)
        ensures
            h@.location is None,
            h@.back.len() == 0,
            h@.forward.len() == 0,
    {
        BrowserHistory { location: None, back: Vec::new(), forward: Vec::new() }
    }

    /// The current location.
    pub fn location(&self) -> (r: Option<String>)
        ensures
            loc_view(r) == self@.location,
    {
        clone_loc(&self.location)
    }

    /// Whether Back has somewhere to go.
    pub fn can_go_back(&self) -> (r: bool)
        ensures
            r == (self@.back.len() > 0),
    {
        self.back.len() > 0
    }

    /// Whether Forward has somewhere to go.
    pub fn can_go_forward(&self) -> (r: bool)
        ensures
            r == (self@.forward.len() > 0),
    {
        self.forward.len() > 0
    }

    /// Navigates to `target`; tells whether the location changed, in which
    /// case the listing has to be read again.
    pub fn go(&mut self, target: Option<String>) -> (moved: bool)
        ensures
            final(self)@ == go_spec(old(self)@, loc_view(target)),
            moved == (loc_view(target) != old(self)@.location),
    {
        if loc_eq(&target, &self.location) {
            return false;
        }
        let ghost old_back = locs_view(self.back@);
        let cur = clone_loc(&self.location);
        self.back.push(cur);
        proof {
            assert(locs_view(self.back@) =~= old_back.push(loc_view(self.location)));
        }
        if self.back.len() > MAX_BACK_STACK {
            let ghost pushed = locs_view(self.back@);
            self.back.remove(0);
            proof {
                assert(locs_view(self.back@) =~= pushed.drop_first());
            }
        }
        self.forward = Vec::new();
        proof {
            assert(locs_view(self.forward@) =~= Seq::<Option<Seq<char>>>::empty());
        }
        self.location = target;
        true
    }

    /// Goes back one step, if there is history; tells whether it moved.
    pub fn back(&mut self) -> (moved: bool)
        ensures
            final(self)@ == back_spec(old(self)@),
            moved == (old(self)@.back.len() > 0),
    {
        match self.back.pop() {
            Some(target) => {
                let ghost old_fwd = locs_view(self.forward@);
                let cur = clone_loc(&self.location);
                self.forward.push(cur);
                proof {
                    assert(locs_view(self.forward@) =~= old_fwd.push(loc_view(self.location)));
                    assert(locs_view(self.back@) =~= locs_view(old(self).back@).drop_last());
                }
                self.location = target;
                true
            },
            None => false,
        }
    }

    /// Goes forward one step, if Back was used; tells whether it moved.
    pub fn forward(&mut self) -> (moved: bool)
        ensures
            final(self)@ == forward_spec(old(self)@),
            moved == (old(self)@.forward.len() > 0),
    {
        match self.forward.pop() {
            Some(target) => {
                let ghost old_back = locs_view(self.back@);
                let cur = clone_loc(&self.location);
                self.back.push(cur);
                proof {
                    assert(locs_view(self.back@) =~= old_back.push(loc_view(self.location)));
                    assert(locs_view(self.forward@) =~= locs_view(old(self).forward@).drop_last());
                }
                self.location = target;
                true
            },
            None => false,
        }
    }
}

/// Back undoes a navigation that moved, and Forward then redoes it.
pub proof fn lemma_back_undoes_go(h: HistoryView, target: Option<Seq<char>>)
    requires
        target != h.location,
        h.back.len() < MAX_BACK_STACK,
    ensures
        back_spec(go_spec(h, target)).location == h.location,
        back_spec(go_spec(h, target)).back == h.back,
        forward_spec(back_spec(go_spec(h, target))).location == target,
{
    assert(h.back.push(h.location).drop_last() =~= h.back);
}

// ---------------------------------------------------------------------------
// Media files
// ---------------------------------------------------------------------------

/// The extensions the player lists and queues, in lower case.
pub open spec fn media_exts() -> Seq<Seq<char>> {
    seq![
        "mp4"@, "mkv"@, "avi"@, "mov"@, "webm"@, "m4v"@, "flv"@, "wmv"@, "ts"@,
        "mp3"@, "flac"@, "ogg"@, "wav"@, "aac"@, "opus"@,
    ]
}

pub open spec fn is_media_ext_spec(ext: Seq<char>) -> bool {
    media_exts().contains(ascii_lower_seq(ext))
}

/// Whether a file extension (any case) is one the player handles.
pub fn is_media_ext(ext: &str) -> (r: bool)
    ensures
        r == is_media_ext_spec(ext@),
{
    let v = to_chars(ext);
    let low = lower_chars(v.as_slice());
    let exts: [&str; 15] = [
        "mp4", "mkv", "avi", "mov", "webm", "m4v", "flv", "wmv", "ts",
        "mp3", "flac", "ogg", "wav", "aac", "opus",
    ];
    let ghost all = media_exts();
    assert(exts@.map_values(|s: &str| s@) =~= all);
    let mut i: usize = 0;
    while i < 15
        invariant
            i <= 15,
            all == media_exts(),
            exts@.map_values(|s: &str| s@) == all,
            low@ == ascii_lower_seq(ext@),
            forall|k: int| 0 <= k < i ==> all[k] != low@,
        decreases 15 - i,
    {
        let e = to_chars(exts[i]);
        assert(exts@.map_values(|s: &str| s@)[i as int] == exts@[i as int]@);
        if chars_eq(low.as_slice(), e.as_slice()) {
            assert(all[i as int] == low@);
            return true;
        }
        i += 1;
    }
    false
}

/// An extension is a media one exactly when, ASCII-lowercased, it is one
/// of the video extensions mp4, mkv, avi, mov, webm, m4v, flv, wmv, ts or
/// the audio extensions mp3, flac, ogg, wav, aac, opus.
pub proof fn lemma_media_exts(ext: Seq<char>)
    ensures
        is_media_ext_spec(ext) <==> {
            let low = ascii_lower_seq(ext);
            low == "mp4"@
            || low == "mkv"@
            || low == "avi"@
            || low == "mov"@
            || low == "webm"@
            || low == "m4v"@
            || low == "flv"@
            || low == "wmv"@
            || low == "ts"@
            || low == "mp3"@
            || low == "flac"@
            || low == "ogg"@
            || low == "wav"@
            || low == "aac"@
            || low == "opus"@
        },
{
    let low = ascii_lower_seq(ext);
    let m = media_exts();
    assert(m[0] == "mp4"@);
    assert(m[1] == "mkv"@);
    assert(m[2] == "avi"@);
    assert(m[3] == "mov"@);
    assert(m[4] == "webm"@);
    assert(m[5] == "m4v"@);
    assert(m[6] == "flv"@);
    assert(m[7] == "wmv"@);
    assert(m[8] == "ts"@);
    assert(m[9] == "mp3"@);
    assert(m[10] == "flac"@);
    assert(m[11] == "ogg"@);
    assert(m[12] == "wav"@);
    assert(m[13] == "aac"@);
    assert(m[14] == "opus"@);
    if m.contains(low) {
        let i = choose|i: int| 0 <= i < m.len() && m[i] == low;
        assert(0 <= i < 15);
    }
}

/// Index of the last `.` in `s`, if any.
pub open spec fn last_dot(s: Seq<char>) -> Option<int>
    decreases s.len(),
{
    if s.len() == 0 {
        None
    } else if s.last() == '.' {
        Some(s.len() - 1)
    } else {
        last_dot(s.drop_last())
    }
}

/// A file name's extension (`Path::extension`): what follows the last
/// `.`, unless there is none or the only one starts the name.
pub open spec fn extension(name: Seq<char>) -> Option<Seq<char>> {
    match last_dot(name) {
        Some(d) => if d == 0 {
            None
        } else {
            Some(name.subrange(d + 1, name.len() as int))
        },
        None => None,
    }
}

pub open spec fn is_media_name_spec(name: Seq<char>) -> bool {
    match extension(name) {
        Some(e) => is_media_ext_spec(e),
        None => false,
    }
}

proof fn lemma_last_dot(s: Seq<char>, i: int)
    requires
        0 <= i <= s.len(),
        forall|k: int| i <= k < s.len() ==> s[k] != '.',
    ensures
        last_dot(s) == last_dot(s.take(i)),
    decreases s.len() - i,
{
    if i < s.len() {
        assert(s.last() != '.');
        assert(s.drop_last().take(i) =~= s.take(i));
        lemma_last_dot(s.drop_last(), i);
    } else {
        assert(s.take(i) =~= s);
    }
}

/// Whether a file name has a media extension.
pub fn is_media_name(name: &str) -> (r: bool)
    ensures
        r == is_media_name_spec(name@),
{
    let v = to_chars(name);
    let mut i = v.len();
    while i > 0 && v[i - 1] != '.'
        invariant
            i <= v@.len(),
            v@ == name@,
            forall|k: int| i <= k < v@.len() ==> v@[k] != '.',
        decreases i,
    {
        i -= 1;
    }
    proof {
        lemma_last_dot(v@, i as int);
        if i > 0 {
            assert(v@.take(i as int).last() == '.');
        } else {
            assert(v@.take(0) =~= Seq::<char>::empty());
        }
    }
    if i <= 1 {
        return false;
    }
    let mut ext = String::new();
    push_chars(&mut ext, v.as_slice(), i, v.len());
    is_media_ext(ext.as_str())
}

// ---------------------------------------------------------------------------
// Listings
// ---------------------------------------------------------------------------

/// One entry of the browser's listing.
pub struct BrowserEntry {
    pub name: String,
    pub path: String,
    pub is_dir: bool,
}

/// What reading a directory reports about one of its entries.
pub struct DirItem {
    pub name: String,
    pub path: String,
    pub is_dir: bool,
    pub is_file: bool,
}

pub open spec fn entry_view(e: BrowserEntry) -> (Seq<char>, Seq<char>, bool) {
    (e.name@, e.path@, e.is_dir)
}

pub open spec fn entries_view(v: Seq<BrowserEntry>) -> Seq<(Seq<char>, Seq<char>, bool)> {
    v.map_values(|e: BrowserEntry| entry_view(e))
}

/// Text order of two character sequences (what `str`'s `<` gives).
pub open spec fn lex_lt(a: Seq<char>, b: Seq<char>) -> bool
    decreases a.len(),
{
    if a.len() == 0 {
        b.len() > 0
    } else if b.len() == 0 {
        false
    } else if a[0] != b[0] {
        a[0] < b[0]
    } else {
        lex_lt(a.drop_first(), b.drop_first())
    }
}

/// Text order (what `str`'s `<` gives): the empty text comes before every
/// other, a proper prefix comes before the longer text, a common prefix
/// does not decide, and the first differing characters decide.
pub proof fn lemma_text_order(a: Seq<char>, b: Seq<char>, c: Seq<char>)
    ensures
        lex_lt(Seq::empty(), b) <==> b.len() > 0,
        b.len() > 0 ==> lex_lt(a, a + b) && !lex_lt(a + b, a),
        lex_lt(a + b, a + c) == lex_lt(b, c),
        b.len() > 0 && c.len() > 0 && b[0] != c[0] ==> (lex_lt(b, c) <==> b[0] < c[0]),
        !lex_lt(a, a),
    decreases a.len(),
{
    lemma_lex_irreflexive(a);
    if a.len() > 0 {
        lemma_text_order(a.drop_first(), b, c);
        assert((a + b).drop_first() =~= a.drop_first() + b);
        assert((a + c).drop_first() =~= a.drop_first() + c);
        assert((a + b)[0] == a[0]);
        assert((a + c)[0] == a[0]);
    } else {
        assert(a + b =~= b);
        assert(a + c =~= c);
        lemma_lex_irreflexive(b);
        if b.len() > 0 {
            assert(lex_lt(a, b));
            assert(!lex_lt(b, a));
        }
    }
}

/// Inserts `e` after every entry whose key is not greater than its own.
pub open spec fn insert_by_key(
    s: Seq<(Seq<char>, Seq<char>, bool)>,
    e: (Seq<char>, Seq<char>, bool),
    lower: bool,
) -> Seq<(Seq<char>, Seq<char>, bool)>
    decreases s.len(),
{
    if s.len() == 0 || !lex_lt(sort_key(e, lower), sort_key(s.last(), lower)) {
        s.push(e)
    } else {
        insert_by_key(s.drop_last(), e, lower).push(s.last())
    }
}

/// An entry's sort key: its name, ASCII-lowercased when `lower`.
pub open spec fn sort_key(e: (Seq<char>, Seq<char>, bool), lower: bool) -> Seq<char> {
    if lower {
        ascii_lower_seq(e.0)
    } else {
        e.0
    }
}

/// The entries sorted by key; entries with equal keys keep their order.
pub open spec fn sort_by_key_spec(s: Seq<(Seq<char>, Seq<char>, bool)>, lower: bool) -> Seq<
    (Seq<char>, Seq<char>, bool),
>
    decreases s.len(),
{
    if s.len() == 0 {
        s
    } else {
        insert_by_key(sort_by_key_spec(s.drop_last(), lower), s.last(), lower)
    }
}

pub(crate) fn lex_lt_exec(a: &[char], b: &[char]) -> (r: bool)
    ensures
        r == lex_lt(a@, b@),
{
    let mut i: usize = 0;
    assert(a@.skip(0) =~= a@);
    assert(b@.skip(0) =~= b@);
    while i < a.len() && i < b.len() && a[i] == b[i]
        invariant
            i <= a@.len(),
            i <= b@.len(),
            lex_lt(a@, b@) == lex_lt(a@.skip(i as int), b@.skip(i as int)),
        decreases a@.len() - i,
    {
        proof {
            assert(a@.skip(i as int).drop_first() =~= a@.skip(i + 1));
            assert(b@.skip(i as int).drop_first() =~= b@.skip(i + 1));
        }
        i += 1;
    }
    proof {
        if i < a@.len() && i < b@.len() {
            assert(a@.skip(i as int)[0] == a@[i as int]);
            assert(b@.skip(i as int)[0] == b@[i as int]);
        }
    }
    if i >= a.len() {
        i < b.len()
    } else if i >= b.len() {
        false
    } else {
        a[i] < b[i]
    }
}

fn key_of(e: &BrowserEntry, lower: bool) -> (k: Vec<char>)
    ensures
        k@ == sort_key(entry_view(*e), lower),
{
    let v = to_chars(e.name.as_str());
    if lower {
        lower_chars(v.as_slice())
    } else {
        v
    }
}

proof fn lemma_insert_key_at(
    s: Seq<(Seq<char>, Seq<char>, bool)>,
    e: (Seq<char>, Seq<char>, bool),
    lower: bool,
    j: int,
)
    requires
        0 <= j <= s.len(),
        forall|k: int| j <= k < s.len() ==> lex_lt(sort_key(e, lower), #[trigger] sort_key(s[k], lower)),
        j == 0 || !lex_lt(sort_key(e, lower), sort_key(s[j - 1], lower)),
    ensures
        insert_by_key(s, e, lower) == s.insert(j, e),
    decreases s.len(),
{
    if s.len() == 0 {
        assert(s.insert(j, e) =~= s.push(e));
    } else if !lex_lt(sort_key(e, lower), sort_key(s.last(), lower)) {
        if j < s.len() {
            assert(lex_lt(sort_key(e, lower), sort_key(s[s.len() - 1], lower)));
        }
        assert(s.insert(j, e) =~= s.push(e));
    } else {
        assert(j < s.len());
        let d = s.drop_last();
        assert forall|k: int| j <= k < d.len() implies lex_lt(
            sort_key(e, lower),
            #[trigger] sort_key(d[k], lower),
        ) by {
            assert(d[k] == s[k]);
        }
        if j > 0 {
            assert(d[j - 1] == s[j - 1]);
        }
        lemma_insert_key_at(d, e, lower, j);
        assert(d.insert(j, e).push(s.last()) =~= s.insert(j, e));
    }
}

fn clone_entry(e: &BrowserEntry) -> (r: BrowserEntry)
    ensures
        entry_view(r) == entry_view(*e),
{
    BrowserEntry { name: e.name.clone(), path: e.path.clone(), is_dir: e.is_dir }
}

/// Sorts entries by name (ASCII-lowercased when `lower`), keeping the
/// order of entries whose keys are equal.
pub fn sort_entries(v: &Vec<BrowserEntry>, lower: bool) -> (r: Vec<BrowserEntry>)
    ensures
        entries_view(r@) == sort_by_key_spec(entries_view(v@), lower),
{
    let ghost src = entries_view(v@);
    let mut out: Vec<BrowserEntry> = Vec::new();
    let mut i: usize = 0;
    while i < v.len()
        invariant
            src == entries_view(v@),
            i <= v@.len(),
            entries_view(out@) == sort_by_key_spec(src.take(i as int), lower),
        decreases v@.len() - i,
    {
        let e = clone_entry(&v[i]);
        let ghost ev = entry_view(e);
        let ghost sorted = entries_view(out@);
        proof {
            assert(ev == src[i as int]);
            assert(src.take(i + 1).drop_last() =~= src.take(i as int));
            assert(src.take(i + 1).last() == src[i as int]);
        }
        let ke = key_of(&e, lower);
        let mut j = out.len();
        loop
            invariant
                j <= out@.len(),
                sorted == entries_view(out@),
                ke@ == sort_key(ev, lower),
                forall|k: int|
                    j <= k < out@.len() ==> lex_lt(
                        sort_key(ev, lower),
                        #[trigger] sort_key(sorted[k], lower),
                    ),
            ensures
                j <= out@.len(),
                forall|k: int|
                    j <= k < out@.len() ==> lex_lt(
                        sort_key(ev, lower),
                        #[trigger] sort_key(sorted[k], lower),
                    ),
                j == 0 || !lex_lt(sort_key(ev, lower), sort_key(sorted[j - 1], lower)),
            decreases j,
        {
            if j == 0 {
                break;
            }
            let kp = key_of(&out[j - 1], lower);
            assert(sorted[j - 1] == entry_view(out@[j - 1]));
            if !lex_lt_exec(ke.as_slice(), kp.as_slice()) {
                break;
            }
            j -= 1;
        }
        proof {
            lemma_insert_key_at(sorted, ev, lower, j as int);
        }
        out.insert(j, e);
        proof {
            assert(entries_view(out@) =~= sorted.insert(j as int, ev));
        }
        i += 1;
    }
    assert(src.take(v@.len() as int) =~= src);
    out
}

pub(crate) proof fn lemma_lex_irreflexive(a: Seq<char>)
    ensures
        !lex_lt(a, a),
    decreases a.len(),
{
    if a.len() > 0 {
        lemma_lex_irreflexive(a.drop_first());
    }
}

proof fn lemma_lex_asymmetric(a: Seq<char>, b: Seq<char>)
    ensures
        lex_lt(a, b) ==> !lex_lt(b, a),
    decreases a.len(),
{
    if a.len() > 0 && b.len() > 0 && a[0] == b[0] {
        lemma_lex_asymmetric(a.drop_first(), b.drop_first());
    }
}

proof fn lemma_lex_total(a: Seq<char>, b: Seq<char>)
    ensures
        a != b ==> lex_lt(a, b) || lex_lt(b, a),
    decreases a.len(),
{
    if a.len() > 0 && b.len() > 0 && a[0] == b[0] {
        lemma_lex_total(a.drop_first(), b.drop_first());
        if a.drop_first() == b.drop_first() {
            assert(a =~= seq![a[0]] + a.drop_first());
            assert(b =~= seq![b[0]] + b.drop_first());
        }
    } else if a.len() == 0 && b.len() == 0 {
        assert(a =~= b);
    }
}

pub(crate) proof fn lemma_lex_transitive(a: Seq<char>, b: Seq<char>, c: Seq<char>)
    ensures
        lex_lt(a, b) && lex_lt(b, c) ==> lex_lt(a, c),
    decreases a.len(),
{
    if a.len() > 0 && b.len() > 0 && c.len() > 0 && a[0] == b[0] && b[0] == c[0] {
        lemma_lex_transitive(a.drop_first(), b.drop_first(), c.drop_first());
    }
}

/// "Not after" is transitive.
pub(crate) proof fn lemma_lex_le_transitive(a: Seq<char>, b: Seq<char>, c: Seq<char>)
    ensures
        !lex_lt(b, a) && !lex_lt(c, b) ==> !lex_lt(c, a),
{
    if !lex_lt(b, a) && !lex_lt(c, b) && lex_lt(c, a) {
        lemma_lex_total(a, b);
        if a == b {
        } else if lex_lt(a, b) {
            lemma_lex_transitive(c, a, b);
        }
    }
}

/// Sorted by key: no entry's key comes before an earlier entry's.
pub open spec fn sorted_by_key(s: Seq<(Seq<char>, Seq<char>, bool)>, lower: bool) -> bool {
    forall|i: int, j: int| 0 <= i < j < s.len() ==> !lex_lt(sort_key(s[j], lower), sort_key(s[i], lower))
}

pub open spec fn key_is(k: Seq<char>, lower: bool) -> spec_fn((Seq<char>, Seq<char>, bool)) -> bool {
    |e: (Seq<char>, Seq<char>, bool)| sort_key(e, lower) == k
}

proof fn lemma_insert_key_members(
    t: Seq<(Seq<char>, Seq<char>, bool)>,
    e: (Seq<char>, Seq<char>, bool),
    lower: bool,
)
    ensures
        insert_by_key(t, e, lower).len() == t.len() + 1,
        forall|i: int|
            0 <= i < insert_by_key(t, e, lower).len() ==> #[trigger] insert_by_key(t, e, lower)[i] == e
                || t.contains(insert_by_key(t, e, lower)[i]),
    decreases t.len(),
{
    if t.len() > 0 && lex_lt(sort_key(e, lower), sort_key(t.last(), lower)) {
        let d = t.drop_last();
        lemma_insert_key_members(d, e, lower);
        let r = insert_by_key(t, e, lower);
        assert forall|i: int| 0 <= i < r.len() implies #[trigger] r[i] == e || t.contains(r[i]) by {
            if i < r.len() - 1 {
                let x = insert_by_key(d, e, lower)[i];
                assert(r[i] == x);
                if x != e {
                    let j = choose|j: int| 0 <= j < d.len() && d[j] == x;
                    assert(t[j] == x);
                }
            } else {
                assert(r[i] == t[t.len() - 1]);
            }
        }
    } else {
        let r = insert_by_key(t, e, lower);
        assert forall|i: int| 0 <= i < r.len() implies #[trigger] r[i] == e || t.contains(r[i]) by {
            if i < t.len() {
                assert(r[i] == t[i]);
            }
        }
    }
}

proof fn lemma_insert_key_sorted(
    t: Seq<(Seq<char>, Seq<char>, bool)>,
    e: (Seq<char>, Seq<char>, bool),
    lower: bool,
)
    requires
        sorted_by_key(t, lower),
    ensures
        sorted_by_key(insert_by_key(t, e, lower), lower),
        forall|k: Seq<char>|
            #[trigger] insert_by_key(t, e, lower).filter(key_is(k, lower)) == if sort_key(e, lower)
                == k {
                t.filter(key_is(k, lower)).push(e)
            } else {
                t.filter(key_is(k, lower))
            },
    decreases t.len(),
{
    if t.len() == 0 || !lex_lt(sort_key(e, lower), sort_key(t.last(), lower)) {
        let r = t.push(e);
        assert forall|i: int, j: int| 0 <= i < j < r.len() implies !lex_lt(
            sort_key(r[j], lower),
            sort_key(r[i], lower),
        ) by {
            if j == t.len() && i < t.len() - 1 {
                lemma_lex_le_transitive(
                    sort_key(t[i], lower),
                    sort_key(t[t.len() - 1], lower),
                    sort_key(e, lower),
                );
            }
        }
        assert forall|k: Seq<char>| #[trigger] insert_by_key(t, e, lower).filter(key_is(k, lower))
            == if sort_key(e, lower) == k {
            t.filter(key_is(k, lower)).push(e)
        } else {
            t.filter(key_is(k, lower))
        } by {
            t.lemma_filter_push(e, key_is(k, lower));
        }
    } else {
        let d = t.drop_last();
        let l = t.last();
        assert(sorted_by_key(d, lower)) by {
            assert forall|i: int, j: int| 0 <= i < j < d.len() implies !lex_lt(
                sort_key(d[j], lower),
                sort_key(d[i], lower),
            ) by {
                assert(d[i] == t[i] && d[j] == t[j]);
            }
        }
        lemma_insert_key_sorted(d, e, lower);
        lemma_insert_key_members(d, e, lower);
        lemma_lex_asymmetric(sort_key(e, lower), sort_key(l, lower));
        let m = insert_by_key(d, e, lower);
        let r = m.push(l);
        assert forall|i: int, j: int| 0 <= i < j < r.len() implies !lex_lt(
            sort_key(r[j], lower),
            sort_key(r[i], lower),
        ) by {
            if j == m.len() {
                assert(r[i] == m[i]);
                if m[i] != e {
                    let q = choose|q: int| 0 <= q < d.len() && d[q] == m[i];
                    assert(t[q] == d[q]);
                }
            } else {
                assert(r[i] == m[i] && r[j] == m[j]);
            }
        }
        assert forall|k: Seq<char>| #[trigger] insert_by_key(t, e, lower).filter(key_is(k, lower))
            == if sort_key(e, lower) == k {
            t.filter(key_is(k, lower)).push(e)
        } else {
            t.filter(key_is(k, lower))
        } by {
            m.lemma_filter_push(l, key_is(k, lower));
            d.lemma_filter_push(l, key_is(k, lower));
            assert(d.push(l) =~= t);
            if sort_key(e, lower) == k && sort_key(l, lower) == k {
                lemma_lex_irreflexive(k);
            }
        }
    }
}

/// The browser's order: sorted by name (ASCII-lowercased when `lower`),
/// and entries whose keys are equal in the order they were read.
pub proof fn lemma_listing_order(s: Seq<(Seq<char>, Seq<char>, bool)>, lower: bool)
    ensures
        sorted_by_key(sort_by_key_spec(s, lower), lower),
        forall|k: Seq<char>|
            #[trigger] sort_by_key_spec(s, lower).filter(key_is(k, lower)) == s.filter(
                key_is(k, lower),
            ),
    decreases s.len(),
{
    if s.len() > 0 {
        let d = s.drop_last();
        let e = s.last();
        lemma_listing_order(d, lower);
        lemma_insert_key_sorted(sort_by_key_spec(d, lower), e, lower);
        assert forall|k: Seq<char>| #[trigger] sort_by_key_spec(s, lower).filter(key_is(k, lower))
            == s.filter(key_is(k, lower)) by {
            d.lemma_filter_push(e, key_is(k, lower));
            assert(d.push(e) =~= s);
        }
    }
}

pub open spec fn hidden(name: Seq<char>) -> bool {
    name.len() > 0 && name[0] == '.'
}

/// The folders of a directory listing, in the order they were read.
pub open spec fn dir_entries(s: Seq<DirItem>) -> Seq<(Seq<char>, Seq<char>, bool)>
    decreases s.len(),
{
    if s.len() == 0 {
        Seq::empty()
    } else {
        let p = dir_entries(s.drop_last());
        let d = s.last();
        if !hidden(d.name@) && d.is_dir {
            p.push((d.name@, d.path@, true))
        } else {
            p
        }
    }
}

/// The media files of a directory listing, in the order they were read.
pub open spec fn file_entries(s: Seq<DirItem>) -> Seq<(Seq<char>, Seq<char>, bool)>
    decreases s.len(),
{
    if s.len() == 0 {
        Seq::empty()
    } else {
        let p = file_entries(s.drop_last());
        let d = s.last();
        if !hidden(d.name@) && !d.is_dir && d.is_file && is_media_name_spec(d.name@) {
            p.push((d.name@, d.path@, false))
        } else {
            p
        }
    }
}

/// What the browser lists for a directory: folders, then media files,
/// each group in case-insensitive name order; hidden entries and other
/// files are left out.
pub open spec fn listing_spec(s: Seq<DirItem>) -> Seq<(Seq<char>, Seq<char>, bool)> {
    sort_by_key_spec(dir_entries(s), true) + sort_by_key_spec(file_entries(s), true)
}

/// Builds the browser's listing from what reading a directory gave.
pub fn browser_listing(items: &Vec<DirItem>) -> (r: Vec<BrowserEntry>)
    ensures
        entries_view(r@) == listing_spec(items@),
{
    let mut dirs: Vec<BrowserEntry> = Vec::new();
    let mut files: Vec<BrowserEntry> = Vec::new();
    let mut i: usize = 0;
    while i < items.len()
        invariant
            i <= items@.len(),
            entries_view(dirs@) == dir_entries(items@.take(i as int)),
            entries_view(files@) == file_entries(items@.take(i as int)),
        decreases items@.len() - i,
    {
        let d = &items[i];
        proof {
            assert(items@.take(i + 1).drop_last() =~= items@.take(i as int));
            assert(items@.take(i + 1).last() == items@[i as int]);
        }
        let hid = d.name.unicode_len() > 0 && d.name.get_char(0) == '.';
        if !hid {
            if d.is_dir {
                let ghost before = entries_view(dirs@);
                dirs.push(BrowserEntry { name: d.name.clone(), path: d.path.clone(), is_dir: true });
                assert(entries_view(dirs@) =~= before.push((d.name@, d.path@, true)));
            } else if d.is_file && is_media_name(d.name.as_str()) {
                let ghost before = entries_view(files@);
                files.push(BrowserEntry { name: d.name.clone(), path: d.path.clone(), is_dir: false });
                assert(entries_view(files@) =~= before.push((d.name@, d.path@, false)));
            }
        }
        i += 1;
    }
    assert(items@.take(items@.len() as int) =~= items@);
    let mut out = sort_entries(&dirs, true);
    let sorted_files = sort_entries(&files, true);
    let ghost a = entries_view(out@);
    let mut k: usize = 0;
    while k < sorted_files.len()
        invariant
            k <= sorted_files@.len(),
            entries_view(out@) == a + entries_view(sorted_files@).take(k as int),
        decreases sorted_files@.len() - k,
    {
        let e = clone_entry(&sorted_files[k]);
        let ghost before = entries_view(out@);
        out.push(e);
        proof {
            assert(entries_view(out@) =~= before.push(entry_view(sorted_files@[k as int])));
            assert(entries_view(sorted_files@).take(k + 1) =~= entries_view(sorted_files@).take(
                k as int,
            ).push(entry_view(sorted_files@[k as int])));
        }
        k += 1;
    }
    assert(entries_view(sorted_files@).take(sorted_files@.len() as int) =~= entries_view(
        sorted_files@,
    ));
    out
}

pub open spec fn drive_name(i: int) -> Seq<char> {
    seq![(65 + i) as char, ':', '\\']
}

/// The browser's top level: the drives present (`Some`, one flag per
/// letter A to Z, on Windows) or the root directory elsewhere.
pub open spec fn drives_spec(present: Option<Seq<bool>>) -> Seq<(Seq<char>, Seq<char>, bool)> {
    match present {
        None => seq![("/"@, "/"@, true)],
        Some(flags) => Seq::new(26, |i: int| i).filter(|i: int| i < flags.len() && flags[i]).map_values(
            |i: int| (drive_name(i), drive_name(i), true),
        ),
    }
}

/// The entries of the browser's top level: each drive letter reported
/// present, as `X:\`, or `/` where there are no drive letters.
pub fn browser_drives(present: Option<Vec<bool>>) -> (r: Vec<BrowserEntry>)
    ensures
        entries_view(r@) == drives_spec(
            match present {
                Some(v) => Some(v@),
                None => None,
            },
        ),
{
    match present {
        None => {
            let r = vec![BrowserEntry { name: string_of("/"), path: string_of("/"), is_dir: true }];
            assert(entries_view(r@) =~= seq![("/"@, "/"@, true)]);
            r
        },
        Some(flags) => {
            let ghost keep = |i: int| i < flags@.len() && flags@[i];
            let ghost mk = |i: int| (drive_name(i), drive_name(i), true);
            let ghost all = Seq::new(26, |i: int| i);
            let mut out: Vec<BrowserEntry> = Vec::new();
            let mut i: usize = 0;
            proof {
                assert(all.take(0).filter(keep) =~= Seq::<int>::empty()) by {
                    reveal(Seq::filter);
                }
            }
            while i < 26
                invariant
                    i <= 26,
                    all == Seq::new(26, |i: int| i),
                    keep == (|i: int| i < flags@.len() && flags@[i]),
                    mk == (|i: int| (drive_name(i), drive_name(i), true)),
                    entries_view(out@) == all.take(i as int).filter(keep).map_values(mk),
                decreases 26 - i,
            {
                proof {
                    assert(all.take(i + 1) =~= all.take(i as int).push(i as int));
                    all.take(i as int).lemma_filter_push(i as int, keep);
                }
                if i < flags.len() && flags[i] {
                    let letter = ((65 + i) as u8) as char;
                    let mut name = String::new();
                    crate::text::push_char(&mut name, letter);
                    crate::text::push_char(&mut name, ':');
                    crate::text::push_char(&mut name, '\\');
                    assert(name@ =~= drive_name(i as int));
                    let ghost before = entries_view(out@);
                    let path = name.clone();
                    out.push(BrowserEntry { name, path, is_dir: true });
                    proof {
                        let pre = all.take(i as int).filter(keep);
                        assert(entries_view(out@) =~= before.push(mk(i as int)));
                        assert(pre.push(i as int).map_values(mk) =~= pre.map_values(mk).push(
                            mk(i as int),
                        ));
                    }
                }
                i += 1;
            }
            assert(all.take(26) =~= all);
            out
        },
    }
}

// ---------------------------------------------------------------------------
// Queueing a folder
// ---------------------------------------------------------------------------

/// The media files among a directory's entries, in the order read.
pub open spec fn folder_files(s: Seq<DirItem>) -> Seq<(Seq<char>, Seq<char>, bool)>
    decreases s.len(),
{
    if s.len() == 0 {
        Seq::empty()
    } else {
        let p = folder_files(s.drop_last());
        let d = s.last();
        if d.is_file && is_media_name_spec(d.name@) {
            p.push((d.name@, d.path@, false))
        } else {
            p
        }
    }
}

/// Index of the first entry named `name`, if any.
pub open spec fn name_index(s: Seq<(Seq<char>, Seq<char>, bool)>, name: Seq<char>) -> Option<int>
    decreases s.len(),
{
    if s.len() == 0 {
        None
    } else {
        match name_index(s.drop_last(), name) {
            Some(i) => Some(i),
            None => if s.last().0 == name {
                Some(s.len() - 1)
            } else {
                None
            },
        }
    }
}

pub open spec fn entry_paths(s: Seq<(Seq<char>, Seq<char>, bool)>) -> Seq<Seq<char>> {
    s.map_values(|e: (Seq<char>, Seq<char>, bool)| e.1)
}

/// The queue opening a file builds from its folder: the folder's media
/// files in name order with the opened one selected, or just the opened
/// file when the folder has none.
pub open spec fn folder_playlist_spec(
    current_path: Seq<char>,
    current_name: Seq<char>,
    siblings: Seq<DirItem>,
) -> (Seq<Seq<char>>, int) {
    let sorted = sort_by_key_spec(folder_files(siblings), false);
    if sorted.len() == 0 {
        (seq![current_path], 0)
    } else {
        (
            entry_paths(sorted),
            match name_index(sorted, current_name) {
                Some(i) => i,
                None => 0,
            },
        )
    }
}

proof fn lemma_name_index(s: Seq<(Seq<char>, Seq<char>, bool)>, name: Seq<char>)
    ensures
        match name_index(s, name) {
            Some(p) => 0 <= p < s.len() && s[p].0 == name && forall|k: int| 0 <= k < p ==> s[k].0 != name,
            None => forall|k: int| 0 <= k < s.len() ==> s[k].0 != name,
        },
    decreases s.len(),
{
    if s.len() > 0 {
        lemma_name_index(s.drop_last(), name);
        assert forall|k: int| 0 <= k < s.len() - 1 implies s[k] == s.drop_last()[k] by {}
    }
}

/// Builds the queue for opening `current_path` (named `current_name`) from
/// the entries of its folder.
pub fn folder_playlist(current_path: &str, current_name: &str, siblings: &Vec<DirItem>) -> (r: (
    Vec<String>,
    usize,
))
    ensures
        string_views(r.0@) == folder_playlist_spec(current_path@, current_name@, siblings@).0,
        r.1 as int == folder_playlist_spec(current_path@, current_name@, siblings@).1,
{
    let mut files: Vec<BrowserEntry> = Vec::new();
    let mut i: usize = 0;
    while i < siblings.len()
        invariant
            i <= siblings@.len(),
            entries_view(files@) == folder_files(siblings@.take(i as int)),
        decreases siblings@.len() - i,
    {
        let d = &siblings[i];
        proof {
            assert(siblings@.take(i + 1).drop_last() =~= siblings@.take(i as int));
            assert(siblings@.take(i + 1).last() == siblings@[i as int]);
        }
        if d.is_file && is_media_name(d.name.as_str()) {
            let ghost before = entries_view(files@);
            files.push(BrowserEntry { name: d.name.clone(), path: d.path.clone(), is_dir: false });
            assert(entries_view(files@) =~= before.push((d.name@, d.path@, false)));
        }
        i += 1;
    }
    assert(siblings@.take(siblings@.len() as int) =~= siblings@);
    let sorted = sort_entries(&files, false);
    let ghost sv = entries_view(sorted@);
    if sorted.len() == 0 {
        let v = vec![string_of(current_path)];
        assert(string_views(v@) =~= seq![current_path@]);
        return (v, 0);
    }
    let mut paths: Vec<String> = Vec::new();
    let mut idx: usize = 0;
    let mut found = false;
    let mut k: usize = 0;
    proof {
        lemma_name_index(sv, current_name@);
    }
    while k < sorted.len()
        invariant
            sv == entries_view(sorted@),
            k <= sorted@.len(),
            string_views(paths@) == entry_paths(sv.take(k as int)),
            found ==> idx < k && sv[idx as int].0 == current_name@ && forall|t: int|
                0 <= t < idx ==> sv[t].0 != current_name@,
            !found ==> idx == 0 && forall|t: int| 0 <= t < k ==> sv[t].0 != current_name@,
        decreases sorted@.len() - k,
    {
        let e = &sorted[k];
        assert(sv[k as int] == entry_view(*e));
        if !found && str_eq(e.name.as_str(), current_name) {
            found = true;
            idx = k;
        }
        let ghost before = string_views(paths@);
        paths.push(e.path.clone());
        proof {
            assert(string_views(paths@) =~= before.push(e.path@));
            assert(sv.take(k + 1) =~= sv.take(k as int).push(sv[k as int]));
            assert(entry_paths(sv.take(k as int).push(sv[k as int])) =~= entry_paths(
                sv.take(k as int),
            ).push(sv[k as int].1));
        }
        k += 1;
    }
    proof {
        assert(sv.take(sv.len() as int) =~= sv);
        lemma_name_index(sv, current_name@);
        if found {
            let p = name_index(sv, current_name@);
            if p is None {
                assert(sv[idx as int].0 != current_name@);
            }
            let q = p->0;
            assert(q == idx) by {
                if q < idx {
                    assert(sv[q].0 != current_name@);
                }
                if q > idx {
                    assert(sv[idx as int].0 != current_name@);
                }
            }
        } else {
            if name_index(sv, current_name@) is Some {
                let q = name_index(sv, current_name@)->0;
                assert(sv[q].0 != current_name@);
            }
        }
    }
    (paths, idx)
}

} // verus!
