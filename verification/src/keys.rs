//! Keyboard and mouse bindings: the rebindable key slots, the user's
//! overrides of their keys, and the mouse action presets.

use vstd::prelude::*;
use crate::text::{ascii_lower_seq, lower_chars, from_chars, str_eq, string_of, to_chars};

verus! {

/// Number of rebindable key slots.
pub const SLOT_COUNT: usize = 24;

/// One rebindable key action: the stable id it is saved under, the label
/// the settings page shows, and the key it has by default.
#[derive(Clone, Copy)]
pub struct KeySlot {
    pub id: &'static str,
    pub label: &'static str,
    pub default_key: &'static str,
}

pub open spec fn slot_ids() -> Seq<Seq<char>> {
    seq![
        "toggle_pause"@,
        "seek_back"@,
        "seek_fwd"@,
        "volume_up"@,
        "volume_down"@,
        "prev_file"@,
        "next_file"@,
        "toggle_mute"@,
        "toggle_fullscreen"@,
        "toggle_chrome"@,
        "cycle_subtitle"@,
        "cycle_audio"@,
        "speed_down"@,
        "speed_up"@,
        "speed_reset"@,
        "toggle_sub_visibility"@,
        "toggle_hwdec"@,
        "add_bookmark"@,
        "toggle_stats"@,
        "cycle_frame_mode"@,
        "frame_step_back"@,
        "frame_step_fwd"@,
        "sub_seek_prev"@,
        "sub_seek_next"@,
    ]
}

pub open spec fn slot_labels() -> Seq<Seq<char>> {
    seq![
        "Play / pause"@,
        "Seek back (step)"@,
        "Seek forward (step)"@,
        "Volume up"@,
        "Volume down"@,
        "Previous file"@,
        "Next file"@,
        "Mute"@,
        "Fullscreen"@,
        "Focus mode"@,
        "Cycle subtitle track"@,
        "Cycle audio track"@,
        "Speed down (step)"@,
        "Speed up (step)"@,
        "Reset speed"@,
        "Toggle subtitles"@,
        "Toggle hardware decode"@,
        "Add bookmark"@,
        "Stats overlay"@,
        "Cycle frame fit"@,
        "Step back one frame"@,
        "Step forward one frame"@,
        "Previous subtitle"@,
        "Next subtitle"@,
    ]
}

pub open spec fn slot_defaults() -> Seq<Seq<char>> {
    seq![
        "space"@,
        "left"@,
        "right"@,
        "up"@,
        "down"@,
        "pageup"@,
        "pagedown"@,
        "m"@,
        "f"@,
        "h"@,
        "j"@,
        "#"@,
        "["@,
        "]"@,
        "\\"@,
        "v"@,
        "i"@,
        "b"@,
        "s"@,
        "z"@,
        ","@,
        "."@,
        "p"@,
        "n"@,
    ]
}

/// The rebindable key slots, in the order the settings page lists them.
pub fn key_slots() -> (r: Vec<KeySlot>)
    ensures
        r@.len() == SLOT_COUNT,
        forall|i: int|
            0 <= i < SLOT_COUNT ==> (#[trigger] r@[i]).id@ == slot_ids()[i] && r@[i].label@
                == slot_labels()[i] && r@[i].default_key@ == slot_defaults()[i],
{
    let r = vec![
        KeySlot { id: "toggle_pause", label: "Play / pause", default_key: "space" },
        KeySlot { id: "seek_back", label: "Seek back (step)", default_key: "left" },
        KeySlot { id: "seek_fwd", label: "Seek forward (step)", default_key: "right" },
        KeySlot { id: "volume_up", label: "Volume up", default_key: "up" },
        KeySlot { id: "volume_down", label: "Volume down", default_key: "down" },
        KeySlot { id: "prev_file", label: "Previous file", default_key: "pageup" },
        KeySlot { id: "next_file", label: "Next file", default_key: "pagedown" },
        KeySlot { id: "toggle_mute", label: "Mute", default_key: "m" },
        KeySlot { id: "toggle_fullscreen", label: "Fullscreen", default_key: "f" },
        KeySlot { id: "toggle_chrome", label: "Focus mode", default_key: "h" },
        KeySlot { id: "cycle_subtitle", label: "Cycle subtitle track", default_key: "j" },
        KeySlot { id: "cycle_audio", label: "Cycle audio track", default_key: "#" },
        KeySlot { id: "speed_down", label: "Speed down (step)", default_key: "[" },
        KeySlot { id: "speed_up", label: "Speed up (step)", default_key: "]" },
        KeySlot { id: "speed_reset", label: "Reset speed", default_key: "\\" },
        KeySlot { id: "toggle_sub_visibility", label: "Toggle subtitles", default_key: "v" },
        KeySlot { id: "toggle_hwdec", label: "Toggle hardware decode", default_key: "i" },
        KeySlot { id: "add_bookmark", label: "Add bookmark", default_key: "b" },
        KeySlot { id: "toggle_stats", label: "Stats overlay", default_key: "s" },
        KeySlot { id: "cycle_frame_mode", label: "Cycle frame fit", default_key: "z" },
        KeySlot { id: "frame_step_back", label: "Step back one frame", default_key: "," },
        KeySlot { id: "frame_step_fwd", label: "Step forward one frame", default_key: "." },
        KeySlot { id: "sub_seek_prev", label: "Previous subtitle", default_key: "p" },
        KeySlot { id: "sub_seek_next", label: "Next subtitle", default_key: "n" },
    ];
    assert(r@.map_values(|s: KeySlot| s.id@) =~= slot_ids());
    assert(r@.map_values(|s: KeySlot| s.label@) =~= slot_labels());
    assert(r@.map_values(|s: KeySlot| s.default_key@) =~= slot_defaults());
    assert forall|i: int| 0 <= i < SLOT_COUNT implies (#[trigger] r@[i]).id@ == slot_ids()[i]
        && r@[i].label@ == slot_labels()[i] && r@[i].default_key@ == slot_defaults()[i] by {
        assert(r@.map_values(|s: KeySlot| s.id@)[i] == r@[i].id@);
        assert(r@.map_values(|s: KeySlot| s.label@)[i] == r@[i].label@);
        assert(r@.map_values(|s: KeySlot| s.default_key@)[i] == r@[i].default_key@);
    }
    r
}

/// One choice offered for a mouse trigger: its stable id and its label.
#[derive(Clone, Copy)]
pub struct MousePreset {
    pub id: &'static str,
    pub label: &'static str,
}

pub open spec fn preset_ids() -> Seq<Seq<char>> {
    seq![
        "none"@,
        "toggle_pause"@,
        "toggle_mute"@,
        "toggle_fullscreen"@,
        "toggle_chrome"@,
        "volume_up_2"@,
        "volume_down_2"@,
        "volume_up_5"@,
        "volume_down_5"@,
        "seek_fwd_5"@,
        "seek_back_5"@,
        "seek_fwd_10"@,
        "seek_back_10"@,
        "next_file"@,
        "prev_file"@,
        "cycle_subtitle"@,
        "cycle_audio"@,
        "toggle_stats"@,
    ]
}

pub open spec fn preset_labels() -> Seq<Seq<char>> {
    seq![
        "Unbound"@,
        "Play / pause"@,
        "Mute"@,
        "Fullscreen"@,
        "Focus mode"@,
        "Volume +2"@,
        "Volume -2"@,
        "Volume +5"@,
        "Volume -5"@,
        "Seek +5s"@,
        "Seek -5s"@,
        "Seek +10s"@,
        "Seek -10s"@,
        "Next file"@,
        "Previous file"@,
        "Cycle subtitle"@,
        "Cycle audio"@,
        "Stats overlay"@,
    ]
}

/// The actions a mouse trigger can be set to, in the order offered.
pub fn mouse_presets() -> (r: Vec<MousePreset>)
    ensures
        r@.len() == preset_ids().len(),
        forall|i: int|
            0 <= i < r@.len() ==> (#[trigger] r@[i]).id@ == preset_ids()[i] && r@[i].label@
                == preset_labels()[i],
{
    let r = vec![
        MousePreset { id: "none", label: "Unbound" },
        MousePreset { id: "toggle_pause", label: "Play / pause" },
        MousePreset { id: "toggle_mute", label: "Mute" },
        MousePreset { id: "toggle_fullscreen", label: "Fullscreen" },
        MousePreset { id: "toggle_chrome", label: "Focus mode" },
        MousePreset { id: "volume_up_2", label: "Volume +2" },
        MousePreset { id: "volume_down_2", label: "Volume -2" },
        MousePreset { id: "volume_up_5", label: "Volume +5" },
        MousePreset { id: "volume_down_5", label: "Volume -5" },
        MousePreset { id: "seek_fwd_5", label: "Seek +5s" },
        MousePreset { id: "seek_back_5", label: "Seek -5s" },
        MousePreset { id: "seek_fwd_10", label: "Seek +10s" },
        MousePreset { id: "seek_back_10", label: "Seek -10s" },
        MousePreset { id: "next_file", label: "Next file" },
        MousePreset { id: "prev_file", label: "Previous file" },
        MousePreset { id: "cycle_subtitle", label: "Cycle subtitle" },
        MousePreset { id: "cycle_audio", label: "Cycle audio" },
        MousePreset { id: "toggle_stats", label: "Stats overlay" },
    ];
    assert(r@.map_values(|s: MousePreset| s.id@) =~= preset_ids());
    assert(r@.map_values(|s: MousePreset| s.label@) =~= preset_labels());
    assert forall|i: int| 0 <= i < r@.len() implies (#[trigger] r@[i]).id@ == preset_ids()[i]
        && r@[i].label@ == preset_labels()[i] by {
        assert(r@.map_values(|s: MousePreset| s.id@)[i] == r@[i].id@);
        assert(r@.map_values(|s: MousePreset| s.label@)[i] == r@[i].label@);
    }
    r
}

// ---------------------------------------------------------------------------
// Key overrides
// ---------------------------------------------------------------------------

/// The value stored for `id`, if any.
pub open spec fn ov_get(s: Seq<(Seq<char>, Seq<char>)>, id: Seq<char>) -> Option<Seq<char>>
    decreases s.len(),
{
    if s.len() == 0 {
        None
    } else if s.last().0 == id {
        Some(s.last().1)
    } else {
        ov_get(s.drop_last(), id)
    }
}

pub open spec fn not_id(id: Seq<char>) -> spec_fn((Seq<char>, Seq<char>)) -> bool {
    |e: (Seq<char>, Seq<char>)| e.0 != id
}

/// The table after storing `value` under `id`.
pub open spec fn ov_insert(s: Seq<(Seq<char>, Seq<char>)>, id: Seq<char>, value: Seq<char>) -> Seq<
    (Seq<char>, Seq<char>),
> {
    s.filter(not_id(id)).push((id, value))
}

/// The table without an entry for `id`.
pub open spec fn ov_remove(s: Seq<(Seq<char>, Seq<char>)>, id: Seq<char>) -> Seq<
    (Seq<char>, Seq<char>),
> {
    s.filter(not_id(id))
}

/// The user's key choices: slot id to key name, where an empty key name
/// means the slot was cleared on purpose (bound to nothing, not even its
/// default). Each slot id occurs at most once.
pub struct KeyOverrides {
    entries: Vec<(String, String)>,
}

pub open spec fn pair_view(p: (String, String)) -> (Seq<char>, Seq<char>) {
    (p.0@, p.1@)
}

pub open spec fn pairs_view(v: Seq<(String, String)>) -> Seq<(Seq<char>, Seq<char>)> {
    v.map_values(|p: (String, String)| pair_view(p))
}

proof fn lemma_ov_get_filter(s: Seq<(Seq<char>, Seq<char>)>, id: Seq<char>, other: Seq<char>)
    ensures
        ov_get(s.filter(not_id(id)), other) == if other == id {
            None
        } else {
            ov_get(s, other)
        },
    decreases s.len(),
{
    let f = not_id(id);
    if s.len() == 0 {
        assert(s.filter(f) =~= s) by {
            reveal(Seq::filter);
        }
    } else {
        let d = s.drop_last();
        let x = s.last();
        lemma_ov_get_filter(d, id, other);
        assert(s =~= d.push(x));
        d.lemma_filter_push(x, f);
        if f(x) {
            let fd = d.filter(f);
            assert(fd.push(x).last() == x);
            assert(fd.push(x).drop_last() =~= fd);
        }
    }
}

/// Storing a value makes it the one read back for that id and leaves every
/// other id's value alone.
pub proof fn lemma_ov_insert_get(
    s: Seq<(Seq<char>, Seq<char>)>,
    id: Seq<char>,
    value: Seq<char>,
    other: Seq<char>,
)
    ensures
        ov_get(ov_insert(s, id, value), other) == if other == id {
            Some(value)
        } else {
            ov_get(s, other)
        },
{
    lemma_ov_get_filter(s, id, other);
    assert(ov_insert(s, id, value).drop_last() =~= s.filter(not_id(id)));
}

impl View for KeyOverrides {
    type V = Seq<(Seq<char>, Seq<char>)>;

    closed spec fn view(&self) -> Seq<(Seq<char>, Seq<char>)> {
        pairs_view(self.entries@)
    }
}

impl KeyOverrides {
    /// No overrides: every slot has its default key.
    pub fn new() -> (r: KeyOverrides)
        ensures
            r@.len() == 0,
    {
        KeyOverrides { entries: Vec::new() }
    }

    /// The value stored for slot `id`.
    pub fn get(&self, id: &str) -> (r: Option<String>)
        ensures
            match r {
                Some(v) => ov_get(self@, id@) == Some(v@),
                None => ov_get(self@, id@) is None,
            },
    {
        let mut i = self.entries.len();
        assert(self@.take(i as int) =~= self@);
        while i > 0
            invariant
                i <= self.entries@.len(),
                ov_get(self@, id@) == ov_get(self@.take(i as int), id@),
            decreases i,
        {
            let ghost t = self@.take(i as int);
            assert(t.last() == pair_view(self.entries@[i - 1]));
            assert(t.drop_last() =~= self@.take(i - 1));
            if str_eq(self.entries[i - 1].0.as_str(), id) {
                return Some(self.entries[i - 1].1.clone());
            }
            i -= 1;
        }
        None
    }

    /// Stores `value` for slot `id`, replacing what was there.
    pub fn insert(&mut self, id: &str, value: &str)
        ensures
            final(self)@ == ov_insert(old(self)@, id@, value@),
    {
        self.remove(id);
        let ghost before = self@;
        self.entries.push((string_of(id), string_of(value)));
        assert(self@ =~= before.push((id@, value@)));
    }

    /// Drops what is stored for slot `id` (back to its default key).
    pub fn remove(&mut self, id: &str)
        ensures
            final(self)@ == ov_remove(old(self)@, id@),
    {
        let ghost f = not_id(id@);
        let ghost src = self@;
        let mut out: Vec<(String, String)> = Vec::new();
        let mut i: usize = 0;
        proof {
            assert(src.take(0).filter(f) =~= Seq::<(Seq<char>, Seq<char>)>::empty()) by {
                reveal(Seq::filter);
            }
        }
        while i < self.entries.len()
            invariant
                src == self@,
                f == (not_id(id@)),
                i <= self.entries@.len(),
                pairs_view(out@) == src.take(i as int).filter(f),
            decreases self.entries@.len() - i,
        {
            proof {
                assert(src.take(i + 1) =~= src.take(i as int).push(src[i as int]));
                src.take(i as int).lemma_filter_push(src[i as int], f);
                assert(src[i as int] == pair_view(self.entries@[i as int]));
            }
            if !str_eq(self.entries[i].0.as_str(), id) {
                let ghost before = pairs_view(out@);
                let k = self.entries[i].0.clone();
                let v = self.entries[i].1.clone();
                out.push((k, v));
                assert(pairs_view(out@) =~= before.push(src[i as int]));
            }
            i += 1;
        }
        assert(src.take(src.len() as int) =~= src);
        self.entries = out;
    }

    /// Drops every override.
    pub fn clear(&mut self)
        ensures
            final(self)@.len() == 0,
    {
        self.entries = Vec::new();
    }

    /// Every stored (slot id, key) pair, for saving.
    pub fn pairs(&self) -> (r: Vec<(String, String)>)
        ensures
            pairs_view(r@) == self@,
    {
        let mut out: Vec<(String, String)> = Vec::new();
        let mut i: usize = 0;
        while i < self.entries.len()
            invariant
                i <= self.entries@.len(),
                pairs_view(out@) == self@.take(i as int),
            decreases self.entries@.len() - i,
        {
            let ghost before = pairs_view(out@);
            out.push((self.entries[i].0.clone(), self.entries[i].1.clone()));
            assert(pairs_view(out@) =~= before.push(self@[i as int]));
            assert(self@.take(i + 1) =~= self@.take(i as int).push(self@[i as int]));
            i += 1;
        }
        assert(self@.take(self@.len() as int) =~= self@);
        out
    }
}

// ---------------------------------------------------------------------------
// Resolving and rebinding
// ---------------------------------------------------------------------------

/// The key slot `j` answers to: its override, none when cleared, else its
/// default.
pub open spec fn slot_key(ov: Seq<(Seq<char>, Seq<char>)>, j: int) -> Option<Seq<char>> {
    match ov_get(ov, slot_ids()[j]) {
        Some(k) => if k.len() == 0 {
            None
        } else {
            Some(k)
        },
        None => Some(slot_defaults()[j]),
    }
}

/// No two slots share an id.
pub proof fn lemma_slot_ids_distinct()
    ensures
        forall|i: int, j: int|
            0 <= i < SLOT_COUNT && 0 <= j < SLOT_COUNT && i != j ==> slot_ids()[i] != slot_ids()[j],
{
    reveal_strlit("toggle_pause");
    reveal_strlit("seek_back");
    reveal_strlit("seek_fwd");
    reveal_strlit("volume_up");
    reveal_strlit("volume_down");
    reveal_strlit("prev_file");
    reveal_strlit("next_file");
    reveal_strlit("toggle_mute");
    reveal_strlit("toggle_fullscreen");
    reveal_strlit("toggle_chrome");
    reveal_strlit("cycle_subtitle");
    reveal_strlit("cycle_audio");
    reveal_strlit("speed_down");
    reveal_strlit("speed_up");
    reveal_strlit("speed_reset");
    reveal_strlit("toggle_sub_visibility");
    reveal_strlit("toggle_hwdec");
    reveal_strlit("add_bookmark");
    reveal_strlit("toggle_stats");
    reveal_strlit("cycle_frame_mode");
    reveal_strlit("frame_step_back");
    reveal_strlit("frame_step_fwd");
    reveal_strlit("sub_seek_prev");
    reveal_strlit("sub_seek_next");
    let s = slot_ids();
    assert forall|i: int, j: int|
        0 <= i < SLOT_COUNT && 0 <= j < SLOT_COUNT && i != j implies s[i] != s[j] by {
        if s[i] == s[j] {
            assert(s[i].len() == s[j].len());
            assert(s[i][0] == s[j][0]);
            assert(s[i][s[i].len() - 1] == s[j][s[j].len() - 1]);
            assert(s[i][5] == s[j][5]);
            assert(s[i][7] == s[j][7]);
        }
    }
}

/// Index of the first slot at or after `k` with id `id`, if any.
pub open spec fn slot_index_from(id: Seq<char>, k: int) -> Option<int>
    decreases SLOT_COUNT - k,
{
    if k < 0 || k >= SLOT_COUNT {
        None
    } else if slot_ids()[k] == id {
        Some(k)
    } else {
        slot_index_from(id, k + 1)
    }
}

/// Index of the slot with id `id`, if any.
pub open spec fn slot_index(id: Seq<char>) -> Option<int> {
    slot_index_from(id, 0)
}

proof fn lemma_slot_index(id: Seq<char>, k: int)
    ensures
        slot_index_from(id, k) matches Some(j) ==> 0 <= j < SLOT_COUNT && slot_ids()[j] == id,
    decreases SLOT_COUNT - k,
{
    if 0 <= k < SLOT_COUNT && slot_ids()[k] != id {
        lemma_slot_index(id, k + 1);
    }
}

fn find_slot(slots: &Vec<KeySlot>, id: &str) -> (r: Option<usize>)
    requires
        slots@.len() == SLOT_COUNT,
        forall|i: int| 0 <= i < SLOT_COUNT ==> (#[trigger] slots@[i]).id@ == slot_ids()[i],
    ensures
        match r {
            Some(j) => slot_index(id@) == Some(j as int) && j < SLOT_COUNT,
            None => slot_index(id@) is None,
        },
{
    let mut i: usize = 0;
    while i < slots.len()
        invariant
            i <= SLOT_COUNT,
            slot_index(id@) == slot_index_from(id@, i as int),
            slots@.len() == SLOT_COUNT,
            forall|k: int| 0 <= k < SLOT_COUNT ==> (#[trigger] slots@[k]).id@ == slot_ids()[k],
            forall|k: int| 0 <= k < i ==> slot_ids()[k] != id@,
        decreases SLOT_COUNT - i,
    {
        if str_eq(slots[i].id, id) {
            return Some(i);
        }
        i += 1;
    }
    None
}

/// The key bound to slot `id`: `None` for an unknown slot or one the user
/// cleared.
pub fn resolved_key_for_slot(ov: &KeyOverrides, slot_id: &str) -> (r: Option<String>)
    ensures
        match slot_index(slot_id@) {
            Some(j) => match r {
                Some(k) => slot_key(ov@, j) == Some(k@),
                None => slot_key(ov@, j) is None,
            },
            None => r is None,
        },
{
    let slots = key_slots();
    match find_slot(&slots, slot_id) {
        None => None,
        Some(i) => {
            assert(slots@[i as int].default_key@ == slot_defaults()[i as int]);
            assert(slot_ids()[i as int] == slot_id@) by {
                lemma_slot_index(slot_id@, 0);
            }
            match ov.get(slot_id) {
                Some(k) => if k.unicode_len() == 0 {
                    None
                } else {
                    Some(k)
                },
                None => Some(string_of(slots[i].default_key)),
            }
        },
    }
}

/// The key slot `j` holds as far as stealing goes: its override (empty
/// when cleared) or its default.
pub open spec fn held_key(ov: Seq<(Seq<char>, Seq<char>)>, j: int) -> Seq<char> {
    match ov_get(ov, slot_ids()[j]) {
        Some(k) => k,
        None => slot_defaults()[j],
    }
}

/// Clears, among the first `n` slots, every slot other than `slot_id`
/// that holds `key`, one after another.
pub open spec fn steal(ov: Seq<(Seq<char>, Seq<char>)>, slot_id: Seq<char>, key: Seq<char>, n: nat) -> Seq<
    (Seq<char>, Seq<char>),
>
    decreases n,
{
    if n == 0 {
        ov
    } else {
        let prev = steal(ov, slot_id, key, (n - 1) as nat);
        let j = n - 1;
        if slot_ids()[j] != slot_id && held_key(prev, j) == key {
            ov_insert(prev, slot_ids()[j], Seq::empty())
        } else {
            prev
        }
    }
}

/// The overrides after binding `key` to slot `slot_id`: any other slot
/// holding that key loses it (cleared, not returned to its default).
pub open spec fn rebind_spec(ov: Seq<(Seq<char>, Seq<char>)>, slot_id: Seq<char>, key: Seq<char>) -> Seq<
    (Seq<char>, Seq<char>),
> {
    ov_insert(steal(ov, slot_id, key, SLOT_COUNT as nat), slot_id, key)
}

/// Binds `key` to slot `slot_id`, taking it from whichever other slot held
/// it.
pub fn apply_key_rebind(ov: &mut KeyOverrides, slot_id: &str, key: &str)
    ensures
        final(ov)@ == rebind_spec(old(ov)@, slot_id@, key@),
{
    let slots = key_slots();
    let ghost start = ov@;
    let mut i: usize = 0;
    while i < SLOT_COUNT
        invariant
            i <= SLOT_COUNT,
            slots@.len() == SLOT_COUNT,
            forall|k: int|
                0 <= k < SLOT_COUNT ==> (#[trigger] slots@[k]).id@ == slot_ids()[k]
                    && slots@[k].default_key@ == slot_defaults()[k],
            ov@ == steal(start, slot_id@, key@, i as nat),
        decreases SLOT_COUNT - i,
    {
        let s = slots[i];
        if !str_eq(s.id, slot_id) {
            let held = match ov.get(s.id) {
                Some(k) => k,
                None => string_of(s.default_key),
            };
            if str_eq(held.as_str(), key) {
                ov.insert(s.id, "");
                proof {
                    reveal_strlit("");
                    assert(""@ =~= Seq::<char>::empty());
                }
            }
        }
        i += 1;
    }
    ov.insert(slot_id, key);
}

proof fn lemma_steal_clears(ov: Seq<(Seq<char>, Seq<char>)>, slot_id: Seq<char>, key: Seq<char>, n: nat)
    requires
        n <= SLOT_COUNT,
    ensures
        forall|j: int|
            0 <= j < n && slot_ids()[j] != slot_id ==> (#[trigger] held_key(steal(ov, slot_id, key, n), j)
                != key || ov_get(steal(ov, slot_id, key, n), slot_ids()[j]) == Some(
                Seq::<char>::empty(),
            )),
    decreases n,
{
    if n > 0 {
        let m = (n - 1) as nat;
        lemma_steal_clears(ov, slot_id, key, m);
        let prev = steal(ov, slot_id, key, m);
        let cur = steal(ov, slot_id, key, n);
        let j0 = n - 1;
        assert forall|j: int| 0 <= j < n && slot_ids()[j] != slot_id implies (#[trigger] held_key(
            cur,
            j,
        ) != key || ov_get(cur, slot_ids()[j]) == Some(Seq::<char>::empty())) by {
            if slot_ids()[j0] != slot_id && held_key(prev, j0) == key {
                lemma_ov_insert_get(prev, slot_ids()[j0], Seq::empty(), slot_ids()[j]);
                if slot_ids()[j] != slot_ids()[j0] {
                    assert(ov_get(cur, slot_ids()[j]) == ov_get(prev, slot_ids()[j]));
                    assert(held_key(cur, j) == held_key(prev, j));
                }
            }
        }
    }
}

/// After binding a key to a slot, that slot answers to the key and no
/// other slot does.
pub proof fn lemma_rebind_exclusive(
    ov: Seq<(Seq<char>, Seq<char>)>,
    slot_id: Seq<char>,
    key: Seq<char>,
    j: int,
)
    requires
        key.len() > 0,
        0 <= j < SLOT_COUNT,
    ensures
        slot_ids()[j] == slot_id ==> slot_key(rebind_spec(ov, slot_id, key), j) == Some(key),
        slot_ids()[j] != slot_id ==> slot_key(rebind_spec(ov, slot_id, key), j) != Some(key),
{
    let st = steal(ov, slot_id, key, SLOT_COUNT as nat);
    lemma_ov_insert_get(st, slot_id, key, slot_ids()[j]);
    if slot_ids()[j] != slot_id {
        lemma_steal_clears(ov, slot_id, key, SLOT_COUNT as nat);
        assert(held_key(st, j) != key || ov_get(st, slot_ids()[j]) == Some(Seq::<char>::empty()));
    }
}

proof fn lemma_steal_entries(
    ov: Seq<(Seq<char>, Seq<char>)>,
    slot_id: Seq<char>,
    key: Seq<char>,
    n: nat,
    id: Seq<char>,
)
    requires
        n <= SLOT_COUNT,
    ensures
        ov_get(steal(ov, slot_id, key, n), id) == ov_get(ov, id) || ov_get(
            steal(ov, slot_id, key, n),
            id,
        ) == Some(Seq::<char>::empty()),
    decreases n,
{
    if n > 0 {
        let m = (n - 1) as nat;
        lemma_steal_entries(ov, slot_id, key, m, id);
        let prev = steal(ov, slot_id, key, m);
        let j0 = n - 1;
        if slot_ids()[j0] != slot_id && held_key(prev, j0) == key {
            lemma_ov_insert_get(prev, slot_ids()[j0], Seq::empty(), id);
        }
    }
}

proof fn lemma_steal_keeps(
    ov: Seq<(Seq<char>, Seq<char>)>,
    slot_id: Seq<char>,
    key: Seq<char>,
    n: nat,
    j: int,
)
    requires
        n <= SLOT_COUNT,
        key.len() > 0,
        0 <= j < SLOT_COUNT,
        slot_ids()[j] != slot_id,
        slot_key(ov, j) != Some(key),
    ensures
        ov_get(steal(ov, slot_id, key, n), slot_ids()[j]) == ov_get(ov, slot_ids()[j]),
    decreases n,
{
    if n > 0 {
        let m = (n - 1) as nat;
        lemma_steal_keeps(ov, slot_id, key, m, j);
        let prev = steal(ov, slot_id, key, m);
        let j0 = n - 1;
        if slot_ids()[j0] != slot_id && held_key(prev, j0) == key {
            lemma_ov_insert_get(prev, slot_ids()[j0], Seq::empty(), slot_ids()[j]);
            if slot_ids()[j0] == slot_ids()[j] {
                lemma_slot_ids_distinct();
                assert(j0 == j);
                assert(held_key(ov, j) == key);
            }
        }
    }
}

/// Binding a key to a slot leaves every other slot that did not hold the
/// key with the key it had, and leaves every other slot that did hold it
/// with no key at all.
pub proof fn lemma_rebind_others(
    ov: Seq<(Seq<char>, Seq<char>)>,
    slot_id: Seq<char>,
    key: Seq<char>,
    j: int,
)
    requires
        key.len() > 0,
        0 <= j < SLOT_COUNT,
        slot_ids()[j] != slot_id,
    ensures
        slot_key(ov, j) != Some(key) ==> slot_key(rebind_spec(ov, slot_id, key), j) == slot_key(
            ov,
            j,
        ),
        slot_key(ov, j) == Some(key) ==> slot_key(rebind_spec(ov, slot_id, key), j) is None,
{
    let st = steal(ov, slot_id, key, SLOT_COUNT as nat);
    lemma_ov_insert_get(st, slot_id, key, slot_ids()[j]);
    if slot_key(ov, j) != Some(key) {
        lemma_steal_keeps(ov, slot_id, key, SLOT_COUNT as nat, j);
    } else {
        lemma_steal_clears(ov, slot_id, key, SLOT_COUNT as nat);
        lemma_steal_entries(ov, slot_id, key, SLOT_COUNT as nat, slot_ids()[j]);
        assert(held_key(st, j) != key || ov_get(st, slot_ids()[j]) == Some(Seq::<char>::empty()));
    }
}

/// No key is bound to two slots.
pub open spec fn keys_unique(ov: Seq<(Seq<char>, Seq<char>)>) -> bool {
    forall|i: int, j: int|
        0 <= i < SLOT_COUNT && 0 <= j < SLOT_COUNT && i != j && #[trigger] slot_key(ov, i) is Some
            ==> slot_key(ov, i) != #[trigger] slot_key(ov, j)
}

/// Binding a key to a slot keeps every key bound to one slot at most.
pub proof fn lemma_rebind_keeps_unique(
    ov: Seq<(Seq<char>, Seq<char>)>,
    slot_id: Seq<char>,
    key: Seq<char>,
)
    requires
        key.len() > 0,
        keys_unique(ov),
    ensures
        keys_unique(rebind_spec(ov, slot_id, key)),
{
    let rb = rebind_spec(ov, slot_id, key);
    assert forall|i: int, j: int|
        0 <= i < SLOT_COUNT && 0 <= j < SLOT_COUNT && i != j && #[trigger] slot_key(rb, i) is Some
            implies slot_key(rb, i) != #[trigger] slot_key(rb, j) by {
        lemma_rebind_exclusive(ov, slot_id, key, i);
        lemma_rebind_exclusive(ov, slot_id, key, j);
        if slot_ids()[i] == slot_id || slot_ids()[j] == slot_id {
            lemma_slot_ids_distinct();
        } else {
            lemma_rebind_others(ov, slot_id, key, i);
            lemma_rebind_others(ov, slot_id, key, j);
            if slot_key(rb, i) == slot_key(rb, j) {
                assert(slot_key(ov, i) is Some);
                assert(slot_key(ov, i) != slot_key(ov, j));
            }
        }
    }
}

// ---------------------------------------------------------------------------
// Looking a key up
// ---------------------------------------------------------------------------

/// The last of the first `n` slots that answers to `key`: binding keys in
/// slot order, a later slot replaces an earlier one on the same key.
pub open spec fn last_slot_with(ov: Seq<(Seq<char>, Seq<char>)>, key: Seq<char>, n: int) -> Option<int>
    decreases n,
{
    if n <= 0 {
        None
    } else if slot_key(ov, n - 1) == Some(key) {
        Some(n - 1)
    } else {
        last_slot_with(ov, key, n - 1)
    }
}

/// The slot a key press triggers, if any.
pub fn slot_for_key(ov: &KeyOverrides, key: &str) -> (r: Option<usize>)
    ensures
        match r {
            Some(j) => last_slot_with(ov@, key@, SLOT_COUNT as int) == Some(j as int),
            None => last_slot_with(ov@, key@, SLOT_COUNT as int) is None,
        },
{
    let slots = key_slots();
    let mut n: usize = SLOT_COUNT;
    while n > 0
        invariant
            n <= SLOT_COUNT,
            slots@.len() == SLOT_COUNT,
            forall|k: int|
                0 <= k < SLOT_COUNT ==> (#[trigger] slots@[k]).id@ == slot_ids()[k]
                    && slots@[k].default_key@ == slot_defaults()[k],
            last_slot_with(ov@, key@, SLOT_COUNT as int) == last_slot_with(ov@, key@, n as int),
        decreases n,
    {
        let s = slots[n - 1];
        let hit = match ov.get(s.id) {
            Some(k) => k.unicode_len() > 0 && str_eq(k.as_str(), key),
            None => str_eq(s.default_key, key),
        };
        if hit {
            return Some(n - 1);
        }
        n -= 1;
    }
    None
}

/// Every bound key with the slot it triggers, in slot order: the pairs the
/// key map is built from.
pub open spec fn bindings_spec(ov: Seq<(Seq<char>, Seq<char>)>, n: int) -> Seq<(Seq<char>, int)>
    decreases n,
{
    if n <= 0 {
        Seq::empty()
    } else {
        let p = bindings_spec(ov, n - 1);
        match slot_key(ov, n - 1) {
            Some(k) => p.push((k, n - 1)),
            None => p,
        }
    }
}

pub open spec fn binding_view(b: (String, usize)) -> (Seq<char>, int) {
    (b.0@, b.1 as int)
}

/// Each bound key and the slot it belongs to, in slot order.
pub fn key_bindings(ov: &KeyOverrides) -> (r: Vec<(String, usize)>)
    ensures
        r@.map_values(|b: (String, usize)| binding_view(b)) == bindings_spec(ov@, SLOT_COUNT as int),
{
    let slots = key_slots();
    let mut out: Vec<(String, usize)> = Vec::new();
    let mut n: usize = 0;
    while n < SLOT_COUNT
        invariant
            n <= SLOT_COUNT,
            slots@.len() == SLOT_COUNT,
            forall|k: int|
                0 <= k < SLOT_COUNT ==> (#[trigger] slots@[k]).id@ == slot_ids()[k]
                    && slots@[k].default_key@ == slot_defaults()[k],
            out@.map_values(|b: (String, usize)| binding_view(b)) == bindings_spec(ov@, n as int),
        decreases SLOT_COUNT - n,
    {
        let s = slots[n];
        let key = match ov.get(s.id) {
            Some(k) => if k.unicode_len() > 0 {
                Some(k)
            } else {
                None
            },
            None => Some(string_of(s.default_key)),
        };
        match key {
            Some(k) => {
                let ghost before = out@.map_values(|b: (String, usize)| binding_view(b));
                let ghost kv = k@;
                out.push((k, n));
                assert(out@.map_values(|b: (String, usize)| binding_view(b)) =~= before.push(
                    (kv, n as int),
                ));
            },
            None => {},
        }
        n += 1;
    }
    out
}

proof fn lemma_last_slot_owner(ov: Seq<(Seq<char>, Seq<char>)>, slot_id: Seq<char>, key: Seq<char>, n: int)
    requires
        0 <= n <= SLOT_COUNT,
        forall|j: int|
            0 <= j < SLOT_COUNT ==> (slot_ids()[j] == slot_id <==> #[trigger] slot_key(ov, j) == Some(
                key,
            )),
    ensures
        match last_slot_with(ov, key, n) {
            Some(j) => 0 <= j < n && slot_ids()[j] == slot_id,
            None => forall|j: int| 0 <= j < n ==> slot_ids()[j] != slot_id,
        },
    decreases n,
{
    if n > 0 {
        lemma_last_slot_owner(ov, slot_id, key, n - 1);
        assert(slot_ids()[n - 1] == slot_id <==> slot_key(ov, n - 1) == Some(key));
    }
}

/// After binding a key to a known slot, pressing that key triggers that
/// slot.
pub proof fn lemma_rebind_then_press(ov: Seq<(Seq<char>, Seq<char>)>, slot_id: Seq<char>, key: Seq<char>)
    requires
        key.len() > 0,
        slot_index(slot_id) is Some,
    ensures
        last_slot_with(rebind_spec(ov, slot_id, key), key, SLOT_COUNT as int) matches Some(j)
            && slot_ids()[j] == slot_id,
{
    let rb = rebind_spec(ov, slot_id, key);
    assert forall|j: int| 0 <= j < SLOT_COUNT implies (slot_ids()[j] == slot_id
        <==> #[trigger] slot_key(rb, j) == Some(key)) by {
        lemma_rebind_exclusive(ov, slot_id, key, j);
    }
    lemma_last_slot_owner(rb, slot_id, key, SLOT_COUNT as int);
    lemma_slot_index(slot_id, 0);
    let i = slot_index(slot_id)->0;
    if last_slot_with(rb, key, SLOT_COUNT as int) is None {
        assert(slot_ids()[i] != slot_id);
    }
}

/// The name a typed character key is bound under: itself in ASCII lower
/// case (a backslash stays a backslash).
pub fn key_char_name(s: &str) -> (r: String)
    ensures
        r@ == if s@ == "\\"@ { s@ } else { ascii_lower_seq(s@) },
{
    if str_eq(s, "\\") {
        return string_of(s);
    }
    let v = to_chars(s);
    let low = lower_chars(v.as_slice());
    from_chars(low.as_slice())
}

// ---------------------------------------------------------------------------
// Mouse triggers
// ---------------------------------------------------------------------------

/// Index of the first preset with id `id`, at or after `k`.
pub open spec fn preset_index_from(id: Seq<char>, k: int) -> Option<int>
    decreases preset_ids().len() - k,
{
    if k < 0 || k >= preset_ids().len() {
        None
    } else if preset_ids()[k] == id {
        Some(k)
    } else {
        preset_index_from(id, k + 1)
    }
}

/// The preset a saved mouse choice names, if it is a known one.
pub fn resolve_mouse_preset(id: &str) -> (r: Option<usize>)
    ensures
        match r {
            Some(i) => preset_index_from(id@, 0) == Some(i as int),
            None => preset_index_from(id@, 0) is None,
        },
{
    let presets = mouse_presets();
    let mut i: usize = 0;
    while i < presets.len()
        invariant
            i <= presets@.len(),
            presets@.len() == preset_ids().len(),
            forall|k: int| 0 <= k < presets@.len() ==> (#[trigger] presets@[k]).id@ == preset_ids()[k],
            preset_index_from(id@, 0) == preset_index_from(id@, i as int),
        decreases presets@.len() - i,
    {
        if str_eq(presets[i].id, id) {
            return Some(i);
        }
        i += 1;
    }
    None
}

/// The preset chosen for each of the four mouse triggers.
pub struct MouseBindingIds {
    pub single_click: String,
    pub double_click: String,
    pub scroll_up: String,
    pub scroll_down: String,
}

impl MouseBindingIds {
    /// Single click unbound, double click toggles fullscreen, the wheel
    /// changes the volume by 2.
    pub fn defaults() -> (r: MouseBindingIds)
        ensures
            r.single_click@ == "none"@,
            r.double_click@ == "toggle_fullscreen"@,
            r.scroll_up@ == "volume_up_2"@,
            r.scroll_down@ == "volume_down_2"@,
    {
        MouseBindingIds {
            single_click: string_of("none"),
            double_click: string_of("toggle_fullscreen"),
            scroll_up: string_of("volume_up_2"),
            scroll_down: string_of("volume_down_2"),
        }
    }
}

} // verus!
