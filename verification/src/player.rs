//! What the player hands to and reads from mpv: track lists and labels,
//! property values, the video filter chain (rotation, flips), and the
//! bounds of the tunable settings.

use vstd::prelude::*;
use crate::text::{
    dec_int, join, join_strings, parse_i64, parse_i64_spec, push_dec_i64, str_eq, string_of,
    string_views,
};

verus! {

// ---------------------------------------------------------------------------
// Tracks
// ---------------------------------------------------------------------------

/// One subtitle track; id 0 is the "Off" entry heading the list.
pub struct SubTrack {
    pub id: i64,
    pub label: String,
}

/// One audio track; id 0 is the "Off" entry heading the list.
pub struct AudioTrack {
    pub id: i64,
    pub label: String,
}

/// What mpv reports for one entry of `track-list`.
pub struct TrackInfo {
    pub kind: Option<String>,
    pub id: i64,
    pub lang: Option<String>,
    pub title: Option<String>,
}

pub open spec fn opt_view(o: Option<String>) -> Option<Seq<char>> {
    match o {
        Some(s) => Some(s@),
        None => None,
    }
}

/// A track's label: language and title, either one alone, or its number.
pub open spec fn track_label_spec(id: int, lang: Option<Seq<char>>, title: Option<Seq<char>>) -> Seq<
    char,
> {
    match (lang, title) {
        (Some(l), Some(t)) => l + "  ("@ + t + ")"@,
        (Some(l), None) => l,
        (None, Some(t)) => t,
        (None, None) => "Track "@ + dec_int(id),
    }
}

/// The label the track menus show for a track.
pub fn track_label(id: i64, lang: &Option<String>, title: &Option<String>) -> (r: String)
    ensures
        r@ == track_label_spec(id as int, opt_view(*lang), opt_view(*title)),
{
    match (lang, title) {
        (Some(l), Some(t)) => {
            let mut s = l.clone();
            s.append("  (");
            s.append(t.as_str());
            s.append(")");
            s
        },
        (Some(l), None) => l.clone(),
        (None, Some(t)) => t.clone(),
        (None, None) => {
            let mut s = string_of("Track ");
            push_dec_i64(&mut s, id);
            s
        },
    }
}

/// The tracks of one kind (`"sub"` or `"audio"`) as (id, label), after an
/// "Off" entry with id 0.
pub open spec fn track_list_spec(list: Seq<TrackInfo>, kind: Seq<char>) -> Seq<(int, Seq<char>)>
    decreases list.len(),
{
    if list.len() == 0 {
        seq![(0int, "Off"@)]
    } else {
        let p = track_list_spec(list.drop_last(), kind);
        let t = list.last();
        if opt_view(t.kind) == Some(kind) {
            p.push((t.id as int, track_label_spec(t.id as int, opt_view(t.lang), opt_view(t.title))))
        } else {
            p
        }
    }
}

/// The entries of one kind from `track-list`, headed by "Off", as
/// (id, label) pairs.
fn track_list(list: &Vec<TrackInfo>, kind: &str) -> (r: Vec<(i64, String)>)
    ensures
        r@.map_values(|p: (i64, String)| (p.0 as int, p.1@)) == track_list_spec(list@, kind@),
{
    let mut out: Vec<(i64, String)> = Vec::new();
    out.push((0, string_of("Off")));
    assert(out@.map_values(|p: (i64, String)| (p.0 as int, p.1@)) =~= seq![(0int, "Off"@)]);
    let mut i: usize = 0;
    while i < list.len()
        invariant
            i <= list@.len(),
            out@.map_values(|p: (i64, String)| (p.0 as int, p.1@)) == track_list_spec(
                list@.take(i as int),
                kind@,
            ),
        decreases list@.len() - i,
    {
        let t = &list[i];
        proof {
            assert(list@.take(i + 1).drop_last() =~= list@.take(i as int));
            assert(list@.take(i + 1).last() == list@[i as int]);
        }
        let matches = match &t.kind {
            Some(k) => str_eq(k.as_str(), kind),
            None => false,
        };
        if matches {
            let label = track_label(t.id, &t.lang, &t.title);
            let ghost before = out@.map_values(|p: (i64, String)| (p.0 as int, p.1@));
            let ghost lv = label@;
            out.push((t.id, label));
            assert(out@.map_values(|p: (i64, String)| (p.0 as int, p.1@)) =~= before.push(
                (t.id as int, lv),
            ));
        }
        i += 1;
    }
    assert(list@.take(list@.len() as int) =~= list@);
    out
}

pub open spec fn sub_view(v: Seq<SubTrack>) -> Seq<(int, Seq<char>)> {
    v.map_values(|t: SubTrack| (t.id as int, t.label@))
}

pub open spec fn audio_view(v: Seq<AudioTrack>) -> Seq<(int, Seq<char>)> {
    v.map_values(|t: AudioTrack| (t.id as int, t.label@))
}

/// The subtitle menu: "Off", then every subtitle track in `track-list`
/// order.
pub fn sub_tracks(list: &Vec<TrackInfo>) -> (r: Vec<SubTrack>)
    ensures
        sub_view(r@) == track_list_spec(list@, "sub"@),
{
    let pairs = track_list(list, "sub");
    let ghost pv = pairs@.map_values(|p: (i64, String)| (p.0 as int, p.1@));
    let mut out: Vec<SubTrack> = Vec::new();
    let mut i: usize = 0;
    while i < pairs.len()
        invariant
            i <= pairs@.len(),
            pv == pairs@.map_values(|p: (i64, String)| (p.0 as int, p.1@)),
            sub_view(out@) == pv.take(i as int),
        decreases pairs@.len() - i,
    {
        let ghost before = sub_view(out@);
        out.push(SubTrack { id: pairs[i].0, label: pairs[i].1.clone() });
        assert(sub_view(out@) =~= before.push(pv[i as int]));
        assert(pv.take(i + 1) =~= pv.take(i as int).push(pv[i as int]));
        i += 1;
    }
    assert(pv.take(pv.len() as int) =~= pv);
    out
}

/// The audio menu: "Off", then every audio track in `track-list` order.
pub fn audio_tracks(list: &Vec<TrackInfo>) -> (r: Vec<AudioTrack>)
    ensures
        audio_view(r@) == track_list_spec(list@, "audio"@),
{
    let pairs = track_list(list, "audio");
    let ghost pv = pairs@.map_values(|p: (i64, String)| (p.0 as int, p.1@));
    let mut out: Vec<AudioTrack> = Vec::new();
    let mut i: usize = 0;
    while i < pairs.len()
        invariant
            i <= pairs@.len(),
            pv == pairs@.map_values(|p: (i64, String)| (p.0 as int, p.1@)),
            audio_view(out@) == pv.take(i as int),
        decreases pairs@.len() - i,
    {
        let ghost before = audio_view(out@);
        out.push(AudioTrack { id: pairs[i].0, label: pairs[i].1.clone() });
        assert(audio_view(out@) =~= before.push(pv[i as int]));
        assert(pv.take(i + 1) =~= pv.take(i as int).push(pv[i as int]));
        i += 1;
    }
    assert(pv.take(pv.len() as int) =~= pv);
    out
}

// ---------------------------------------------------------------------------
// Property values
// ---------------------------------------------------------------------------

pub open spec fn track_id_value_spec(id: int) -> Seq<char> {
    if id <= 0 {
        "no"@
    } else {
        dec_int(id)
    }
}

/// The `sid`/`aid` value selecting track `id`: `no` for "off" (0 or
/// less), else the number.
pub fn track_id_value(id: i64) -> (r: String)
    ensures
        r@ == track_id_value_spec(id as int),
{
    if id <= 0 {
        string_of("no")
    } else {
        let mut s = String::new();
        push_dec_i64(&mut s, id);
        s
    }
}

pub open spec fn parse_track_id_spec(s: Option<Seq<char>>) -> i64 {
    match s {
        Some(t) => match parse_i64_spec(t) {
            Some(v) => v,
            None => 0,
        },
        None => 0,
    }
}

/// The track id a `sid`/`aid` value names; `no`, anything unparsable or a
/// missing value mean 0 (off).
pub fn parse_track_id(s: Option<&str>) -> (r: i64)
    ensures
        r == parse_track_id_spec(
            match s {
                Some(t) => Some(t@),
                None => None,
            },
        ),
{
    match s {
        Some(t) => match parse_i64(t) {
            Some(v) => v,
            None => 0,
        },
        None => 0,
    }
}

/// Whether a `loop-file`/`loop-playlist` value means looping: anything but
/// `no`; a missing value means off.
pub fn loop_flag(s: Option<&str>) -> (r: bool)
    ensures
        r == match s {
            Some(t) => t@ != "no"@,
            None => false,
        },
{
    match s {
        Some(t) => !str_eq(t, "no"),
        None => false,
    }
}

pub open spec fn hwdec_toggle_spec(current: Seq<char>) -> Seq<char> {
    if current == "no"@ || current.len() == 0 {
        "auto-copy-safe"@
    } else {
        "no"@
    }
}

/// The `hwdec` value that flips decoding: hardware when it is currently
/// software (`no`) or unknown, software otherwise.
pub fn hwdec_toggle_target(current: &str) -> (r: &'static str)
    ensures
        r@ == hwdec_toggle_spec(current@),
{
    if str_eq(current, "no") || current.unicode_len() == 0 {
        "auto-copy-safe"
    } else {
        "no"
    }
}

/// The `video-aspect-override` value: `-1` (automatic) for an empty ratio.
pub fn aspect_value(ratio: &str) -> (r: String)
    ensures
        r@ == if ratio@.len() == 0 { "-1"@ } else { ratio@ },
{
    if ratio.unicode_len() == 0 {
        string_of("-1")
    } else {
        string_of(ratio)
    }
}

// ---------------------------------------------------------------------------
// Rotation
// ---------------------------------------------------------------------------

/// What a rotation does to the filter chain.
pub enum RotateFilter {
    /// Leave the chain as it is.
    Keep,
    /// Drop the rotation filter.
    Clear,
    /// Install this rotation filter.
    Install(String),
}

pub open spec fn transpose_arg(deg: int) -> Option<Seq<char>> {
    if deg == 90 {
        Some("1"@)
    } else if deg == 180 {
        Some("1,transpose=1"@)
    } else if deg == 270 {
        Some("2"@)
    } else {
        None
    }
}

/// The filter for rotating by `degrees` clockwise (taken modulo a whole
/// turn): cleared for an upright picture (0, 360, -360, ...), a
/// `transpose` graph for a quarter, half or three-quarter turn, and no
/// change for an angle that is not a multiple of 90.
pub fn rotate_filter(degrees: i64) -> (r: RotateFilter)
    ensures
        degrees as int % 360 == 0 ==> r is Clear,
        degrees as int % 360 != 0 ==> match transpose_arg(degrees as int % 360) {
            Some(a) => r matches RotateFilter::Install(s) && s@ == "@mpvne_rotate:lavfi=[transpose="@ + a
                + "]"@,
            None => r is Keep,
        },
{
    let m = degrees % 360;
    let d = if m < 0 {
        m + 360
    } else {
        m
    };
    assert(d as int == degrees as int % 360);
    if d == 0 {
        return RotateFilter::Clear;
    }
    let arg = if d == 90 {
        "1"
    } else if d == 180 {
        "1,transpose=1"
    } else if d == 270 {
        "2"
    } else {
        return RotateFilter::Keep;
    };
    let mut s = string_of("@mpvne_rotate:lavfi=[transpose=");
    s.append(arg);
    s.append("]");
    RotateFilter::Install(s)
}

/// Rotation after turning a quarter clockwise, within 0..360.
pub fn rotate_cw(degrees: i64) -> (r: i64)
    requires
        degrees <= i64::MAX - 90,
    ensures
        r as int == (degrees + 90) % 360,
{
    let m = (degrees + 90) % 360;
    if m < 0 {
        m + 360
    } else {
        m
    }
}

/// Rotation after turning a quarter counter-clockwise, within 0..360.
pub fn rotate_ccw(degrees: i64) -> (r: i64)
    requires
        degrees >= i64::MIN + 90,
    ensures
        r as int == (degrees - 90) % 360,
{
    let m = (degrees - 90) % 360;
    if m < 0 {
        m + 360
    } else {
        m
    }
}

// ---------------------------------------------------------------------------
// The video filter chain
// ---------------------------------------------------------------------------

/// The video filters installed under labels (rotation, flips, equaliser),
/// each label at most once, in the order the labels were first installed.
pub struct VfChain {
    slots: Vec<(String, String)>,
}

pub open spec fn slot_views(v: Seq<(String, String)>) -> Seq<(Seq<char>, Seq<char>)> {
    v.map_values(|p: (String, String)| (p.0@, p.1@))
}

/// No label occurs twice.
pub open spec fn labels_unique(s: Seq<(Seq<char>, Seq<char>)>) -> bool {
    forall|i: int, j: int| 0 <= i < j < s.len() ==> s[i].0 != s[j].0
}

/// Where `label` is installed, if it is.
pub open spec fn label_index(s: Seq<(Seq<char>, Seq<char>)>, label: Seq<char>) -> Option<int>
    decreases s.len(),
{
    if s.len() == 0 {
        None
    } else {
        match label_index(s.drop_last(), label) {
            Some(i) => Some(i),
            None => if s.last().0 == label {
                Some(s.len() - 1)
            } else {
                None
            },
        }
    }
}

/// The chain after installing `spec` under `label` (in its old place if
/// the label is installed, else last), or removing the label for `None`.
pub open spec fn chain_set(
    s: Seq<(Seq<char>, Seq<char>)>,
    label: Seq<char>,
    spec: Option<Seq<char>>,
) -> Seq<(Seq<char>, Seq<char>)> {
    match (label_index(s, label), spec) {
        (Some(i), Some(x)) => s.update(i, (label, x)),
        (None, Some(x)) => s.push((label, x)),
        (Some(i), None) => s.remove(i),
        (None, None) => s,
    }
}

/// The filters of a chain, in order, joined by commas.
pub open spec fn chain_specs(s: Seq<(Seq<char>, Seq<char>)>) -> Seq<Seq<char>> {
    s.map_values(|p: (Seq<char>, Seq<char>)| p.1)
}

/// The player command that installs the chain: `vf clr` when it is empty.
pub open spec fn chain_command(s: Seq<(Seq<char>, Seq<char>)>) -> Seq<char> {
    if s.len() == 0 {
        "vf clr"@
    } else {
        "vf set "@ + join(chain_specs(s), ","@)
    }
}

proof fn lemma_label_index(s: Seq<(Seq<char>, Seq<char>)>, label: Seq<char>)
    ensures
        match label_index(s, label) {
            Some(p) => 0 <= p < s.len() && s[p].0 == label && forall|k: int|
                0 <= k < p ==> s[k].0 != label,
            None => forall|k: int| 0 <= k < s.len() ==> s[k].0 != label,
        },
    decreases s.len(),
{
    if s.len() > 0 {
        lemma_label_index(s.drop_last(), label);
        assert forall|k: int| 0 <= k < s.len() - 1 implies s[k] == s.drop_last()[k] by {}
    }
}

/// Copies of the chain's entries, leaving out entry `skip` if given.
fn copy_slots(v: &Vec<(String, String)>, skip: Option<usize>) -> (r: Vec<(String, String)>)
    ensures
        slot_views(r@) == match skip {
            Some(i) => if i < v@.len() {
                slot_views(v@).remove(i as int)
            } else {
                slot_views(v@)
            },
            None => slot_views(v@),
        },
{
    let ghost src = slot_views(v@);
    let mut out: Vec<(String, String)> = Vec::new();
    let mut k: usize = 0;
    while k < v.len()
        invariant
            k <= v@.len(),
            src == slot_views(v@),
            slot_views(out@) == match skip {
                Some(i) => if i < k {
                    src.take(k as int).remove(i as int)
                } else {
                    src.take(k as int)
                },
                None => src.take(k as int),
            },
        decreases v@.len() - k,
    {
        let ghost before = slot_views(out@);
        let keep = match skip {
            Some(i) => i != k,
            None => true,
        };
        if keep {
            let e = (v[k].0.clone(), v[k].1.clone());
            out.push(e);
            proof {
                assert(slot_views(out@) =~= before.push(src[k as int]));
            }
        }
        proof {
            match skip {
                Some(i) => {
                    if i < k {
                        assert(src.take(k + 1).remove(i as int) =~= src.take(k as int).remove(
                            i as int,
                        ).push(src[k as int]));
                    } else if i == k {
                        assert(src.take(k + 1).remove(i as int) =~= src.take(k as int));
                    } else {
                        assert(src.take(k + 1) =~= src.take(k as int).push(src[k as int]));
                    }
                },
                None => {
                    assert(src.take(k + 1) =~= src.take(k as int).push(src[k as int]));
                },
            }
        }
        k += 1;
    }
    assert(src.take(v@.len() as int) =~= src);
    out
}

impl View for VfChain {
    type V = Seq<(Seq<char>, Seq<char>)>;

    /// The labels and their filters, in chain order.
    closed spec fn view(&self) -> Seq<(Seq<char>, Seq<char>)> {
        slot_views(self.slots@)
    }
}

impl VfChain {
    #[verifier::type_invariant]
    closed spec fn wf(self) -> bool {
        labels_unique(slot_views(self.slots@))
    }

    /// An empty chain (a newly opened file starts with none).
    pub fn new() -> (c: VfChain)
        ensures
            c@.len() == 0,
            labels_unique(c@),
    {
        VfChain { slots: Vec::new() }
    }

    /// Installs `spec` under `label`, replacing what the label held, or
    /// removes the label for `None`.
    pub fn set(&mut self, label: &str, spec: Option<String>)
        ensures
            final(self)@ == chain_set(
                old(self)@,
                label@,
                match spec {
                    Some(x) => Some(x@),
                    None => None,
                },
            ),
            labels_unique(final(self)@),
    {
        proof {
            use_type_invariant(&*self);
        }
        let ghost s = self@;
        let mut found: Option<usize> = None;
        let mut i: usize = 0;
        while i < self.slots.len()
            invariant_except_break
                found is None,
                forall|k: int| 0 <= k < i ==> s[k].0 != label@,
            invariant
                i <= self.slots@.len(),
                s == slot_views(self.slots@),
            ensures
                i <= self.slots@.len(),
                found is Some ==> found->0 < s.len() && s[found->0 as int].0 == label@
                    && forall|k: int| 0 <= k < found->0 ==> s[k].0 != label@,
                found is None ==> forall|k: int| 0 <= k < s.len() ==> s[k].0 != label@,
            decreases self.slots@.len() - i,
        {
            if str_eq(self.slots[i].0.as_str(), label) {
                found = Some(i);
                break;
            }
            i += 1;
        }
        proof {
            lemma_label_index(s, label@);
            match label_index(s, label@) {
                Some(p) => {
                    if found is Some {
                        let f = found->0 as int;
                        if p < f {
                        } else if f < p {
                        }
                    }
                },
                None => {},
            }
        }
        match (found, spec) {
            (Some(p), Some(x)) => {
                let mut out = copy_slots(&self.slots, None);
                out.remove(p);
                out.insert(p, (string_of(label), x));
                proof {
                    assert(slot_views(out@) =~= s.update(p as int, (label@, x@)));
                }
                *self = VfChain { slots: out };
            },
            (None, Some(x)) => {
                let mut out = copy_slots(&self.slots, None);
                out.push((string_of(label), x));
                proof {
                    assert(slot_views(out@) =~= s.push((label@, x@)));
                }
                *self = VfChain { slots: out };
            },
            (Some(p), None) => {
                let out = copy_slots(&self.slots, Some(p));
                *self = VfChain { slots: out };
            },
            (None, None) => {},
        }
        proof {
            use_type_invariant(&*self);
        }
    }

    /// Drops every filter.
    pub fn clear(&mut self)
        ensures
            final(self)@.len() == 0,
    {
        *self = VfChain { slots: Vec::new() };
    }

    /// The player command that installs the chain.
    pub fn command(&self) -> (r: String)
        ensures
            r@ == chain_command(self@),
    {
        if self.slots.len() == 0 {
            return string_of("vf clr");
        }
        let mut specs: Vec<String> = Vec::new();
        let mut k: usize = 0;
        while k < self.slots.len()
            invariant
                k <= self.slots@.len(),
                string_views(specs@) == chain_specs(self@).take(k as int),
            decreases self.slots@.len() - k,
        {
            let ghost before = string_views(specs@);
            let f = self.slots[k].1.clone();
            proof {
                assert(chain_specs(self@)[k as int] == self.slots@[k as int].1@);
            }
            specs.push(f);
            proof {
                assert(string_views(specs@) =~= before.push(f@));
                assert(chain_specs(self@).take(k + 1) =~= chain_specs(self@).take(k as int).push(
                    chain_specs(self@)[k as int],
                ));
            }
            k += 1;
        }
        assert(chain_specs(self@).take(self.slots@.len() as int) =~= chain_specs(self@));
        let mut out = string_of("vf set ");
        let joined = join_strings(&specs, ",");
        out.append(joined.as_str());
        out
    }
}

/// The horizontal-flip filter while flipping is `on`.
pub fn hflip_filter(on: bool) -> (r: Option<String>)
    ensures
        on ==> r is Some && r->0@ == "@mpvne_hflip:lavfi=[hflip]"@,
        !on ==> r is None,
{
    if on {
        Some(string_of("@mpvne_hflip:lavfi=[hflip]"))
    } else {
        None
    }
}

/// The vertical-flip filter while flipping is `on`.
pub fn vflip_filter(on: bool) -> (r: Option<String>)
    ensures
        on ==> r is Some && r->0@ == "@mpvne_vflip:lavfi=[vflip]"@,
        !on ==> r is None,
{
    if on {
        Some(string_of("@mpvne_vflip:lavfi=[vflip]"))
    } else {
        None
    }
}

/// Installing a filter under a label makes it the label's filter and
/// leaves every other label's filter, and the order of the chain, as they
/// were; removing a label leaves no filter under it.
pub proof fn lemma_chain_set(
    s: Seq<(Seq<char>, Seq<char>)>,
    label: Seq<char>,
    spec: Option<Seq<char>>,
    other: Seq<char>,
)
    requires
        labels_unique(s),
        other != label,
    ensures
        labels_unique(chain_set(s, label, spec)),
        label_index(chain_set(s, label, spec), other) is Some <==> label_index(s, other) is Some,
        label_index(s, other) is Some ==> chain_set(s, label, spec)[label_index(
            chain_set(s, label, spec),
            other,
        )->0].1 == s[label_index(s, other)->0].1,
        match spec {
            Some(x) => label_index(chain_set(s, label, spec), label) is Some && chain_set(
                s,
                label,
                spec,
            )[label_index(chain_set(s, label, spec), label)->0].1 == x,
            None => label_index(chain_set(s, label, spec), label) is None,
        },
{
    let t = chain_set(s, label, spec);
    lemma_label_index(s, label);
    lemma_label_index(s, other);
    lemma_label_index(t, label);
    lemma_label_index(t, other);
    match label_index(s, label) {
        Some(i) => {
            match spec {
                Some(x) => {
                    assert(t[i].0 == label);
                },
                None => {},
            }
            match label_index(s, other) {
                Some(j) => {
                    assert(j != i);
                    match spec {
                        Some(x) => {
                            assert(t[j] == s[j]);
                        },
                        None => {
                            let jj = if j < i { j } else { j - 1 };
                            assert(t[jj] == s[j]);
                        },
                    }
                },
                None => {},
            }
        },
        None => {
            match label_index(s, other) {
                Some(j) => {
                    match spec {
                        Some(x) => {
                            assert(t[j] == s[j]);
                        },
                        None => {},
                    }
                },
                None => {},
            }
            match spec {
                Some(x) => {
                    assert(t[s.len() as int] == (label, x));
                },
                None => {},
            }
        },
    }
}

// ---------------------------------------------------------------------------
// Bounds
// ---------------------------------------------------------------------------

pub open spec fn clamp_spec(v: int, lo: int, hi: int) -> int {
    if v < lo {
        lo
    } else if v > hi {
        hi
    } else {
        v
    }
}

/// Subtitle font size, kept within 10 to 200.
pub fn clamp_sub_font_size(size: i64) -> (r: i64)
    ensures
        r == clamp_spec(size as int, 10, 200),
{
    if size < 10 {
        10
    } else if size > 200 {
        200
    } else {
        size
    }
}

/// Subtitle position, kept within 0 (top) to 150.
pub fn clamp_sub_pos(pos: i64) -> (r: i64)
    ensures
        r == clamp_spec(pos as int, 0, 150),
{
    if pos < 0 {
        0
    } else if pos > 150 {
        150
    } else {
        pos
    }
}

/// A video equaliser setting, kept within -100 to 100.
pub fn clamp_eq(v: i64) -> (r: i64)
    ensures
        r == clamp_spec(v as int, -100, 100),
{
    if v < -100 {
        -100
    } else if v > 100 {
        100
    } else {
        v
    }
}

/// Whether the equaliser is at its neutral setting, so no filter is needed.
pub fn eq_is_default(brightness: i64, contrast: i64, saturation: i64, hue: i64, gamma: i64) -> (r:
    bool)
    ensures
        r == (brightness == 0 && contrast == 0 && saturation == 0 && hue == 0 && gamma == 0),
{
    brightness == 0 && contrast == 0 && saturation == 0 && hue == 0 && gamma == 0
}

// ---------------------------------------------------------------------------
// Thumbnails
// ---------------------------------------------------------------------------

/// Strictly increasing.
pub open spec fn ascending(keys: Seq<u32>) -> bool {
    forall|i: int, j: int| 0 <= i < j < keys.len() ==> keys[i] < keys[j]
}

/// The key of the thumbnail to show at second `t`: the closest one, the
/// earlier on a tie; `None` when there are none.
pub fn nearest_thumbnail_key(keys: &Vec<u32>, t: u32) -> (r: Option<u32>)
    requires
        ascending(keys@),
    ensures
        keys@.len() == 0 <==> r is None,
        r matches Some(k) ==> keys@.contains(k),
        r matches Some(k) ==> forall|i: int|
            0 <= i < keys@.len() ==> (if k <= t { t - k } else { k - t }) <= (if keys@[i] <= t {
                t - keys@[i]
            } else {
                keys@[i] - t
            }),
        r matches Some(k) ==> forall|i: int|
            0 <= i < keys@.len() && keys@[i] < k ==> (if keys@[i] <= t { t - keys@[i] } else {
                keys@[i] - t
            }) > (if k <= t { t - k } else { k - t }),
{
    let n = keys.len();
    if n == 0 {
        return None;
    }
    let mut i: usize = 0;
    while i < n && keys[i] <= t
        invariant
            i <= n == keys@.len(),
            forall|k: int| 0 <= k < i ==> keys@[k] <= t,
        decreases n - i,
    {
        i += 1;
    }
    if i == 0 {
        let k = keys[0];
        assert(keys@[0] == k);
        assert forall|j: int| 0 <= j < keys@.len() implies k <= keys@[j] by {
            if j > 0 {
                assert(keys@[0] < keys@[j]);
            }
        }
        return Some(k);
    }
    let k1 = keys[i - 1];
    if k1 == t || i == n {
        assert forall|j: int| 0 <= j < keys@.len() implies keys@[j] <= k1 || k1 == t by {
            if j < i - 1 {
                assert(keys@[j] < keys@[i - 1]);
            }
        }
        assert(keys@[i - 1] == k1);
        return Some(k1);
    }
    let k2 = keys[i];
    assert(keys@[i - 1] == k1 && keys@[i as int] == k2);
    assert(k1 < t < k2);
    assert forall|j: int| 0 <= j < keys@.len() implies keys@[j] <= k1 || keys@[j] >= k2 by {
        if j < i - 1 {
            assert(keys@[j] < keys@[i - 1]);
        } else if j > i {
            assert(keys@[i as int] < keys@[j]);
        }
    }
    if t - k1 <= k2 - t {
        Some(k1)
    } else {
        Some(k2)
    }
}

} // verus!
