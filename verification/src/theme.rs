//! Colour themes: the built-in palettes, the user's custom palette and the
//! active-theme setting, with colours held as packed `0x00RRGGBB` words.

use vstd::prelude::*;
use crate::text::{nonempty, nonempty_pred, push_char, str_eq, to_chars, trim, trim_range};

verus! {

/// The selectable colour themes.
#[derive(Debug, Clone, Copy, PartialEq, Eq, Hash, Structural)]
pub enum Theme {
    /// Northern Lights: green, teal and purple on a cool near-black.
    Aurora,
    /// Deep sky and navy with the warm tan of the last light.
    PolarNight,
    /// A light theme: peach amber and coral on warm paper.
    MidnightSun,
    /// Light, clear teal and sea green.
    SeaBreeze,
    /// True black, phosphor teal and electric blue.
    Void,
    /// The user's own colours.
    Custom,
}

impl Default for Theme {
    fn default() -> (t: Theme)
        ensures
            t == Theme::Aurora,
    {
        Theme::Aurora
    }
}

/// Every theme, in the order the picker lists them.
pub open spec fn all_themes() -> Seq<Theme> {
    seq![
        Theme::Aurora,
        Theme::PolarNight,
        Theme::MidnightSun,
        Theme::SeaBreeze,
        Theme::Void,
        Theme::Custom,
    ]
}

pub open spec fn theme_label(t: Theme) -> Seq<char> {
    match t {
        Theme::Aurora => "Northern Lights"@,
        Theme::PolarNight => "Polar Night"@,
        Theme::MidnightSun => "Midnight Sun"@,
        Theme::SeaBreeze => "Sea Breeze"@,
        Theme::Void => "Void"@,
        Theme::Custom => "Custom"@,
    }
}

/// The stable name a theme is saved under.
pub open spec fn theme_id(t: Theme) -> Seq<char> {
    match t {
        Theme::Aurora => "aurora"@,
        Theme::PolarNight => "polar_night"@,
        Theme::MidnightSun => "midnight_sun"@,
        Theme::SeaBreeze => "sea_breeze"@,
        Theme::Void => "void"@,
        Theme::Custom => "custom"@,
    }
}

/// The theme a saved name stands for; anything unknown is Aurora.
pub open spec fn theme_from_id(s: Seq<char>) -> Theme {
    if s == "polar_night"@ {
        Theme::PolarNight
    } else if s == "midnight_sun"@ {
        Theme::MidnightSun
    } else if s == "sea_breeze"@ {
        Theme::SeaBreeze
    } else if s == "void"@ {
        Theme::Void
    } else if s == "custom"@ {
        Theme::Custom
    } else {
        Theme::Aurora
    }
}

impl Theme {
    /// Every theme, in picker order.
    pub fn all() -> (r: Vec<Theme>)
        ensures
            r@ == all_themes(),
    {
        let r = vec![
            Theme::Aurora,
            Theme::PolarNight,
            Theme::MidnightSun,
            Theme::SeaBreeze,
            Theme::Void,
            Theme::Custom,
        ];
        assert(r@ =~= all_themes());
        r
    }

    /// The name shown in the theme picker.
    pub fn label(self) -> (r: &'static str)
        ensures
            r@ == theme_label(self),
    {
        match self {
            Theme::Aurora => "Northern Lights",
            Theme::PolarNight => "Polar Night",
            Theme::MidnightSun => "Midnight Sun",
            Theme::SeaBreeze => "Sea Breeze",
            Theme::Void => "Void",
            Theme::Custom => "Custom",
        }
    }

    /// The stable name written to the settings file.
    pub fn id(self) -> (r: &'static str)
        ensures
            r@ == theme_id(self),
    {
        match self {
            Theme::Aurora => "aurora",
            Theme::PolarNight => "polar_night",
            Theme::MidnightSun => "midnight_sun",
            Theme::SeaBreeze => "sea_breeze",
            Theme::Void => "void",
            Theme::Custom => "custom",
        }
    }

    /// Reads a saved theme name back; unknown names fall back to Aurora.
    pub fn from_id(s: &str) -> (r: Theme)
        ensures
            r == theme_from_id(s@),
    {
        if str_eq(s, "polar_night") {
            Theme::PolarNight
        } else if str_eq(s, "midnight_sun") {
            Theme::MidnightSun
        } else if str_eq(s, "sea_breeze") {
            Theme::SeaBreeze
        } else if str_eq(s, "void") {
            Theme::Void
        } else if str_eq(s, "custom") {
            Theme::Custom
        } else {
            Theme::Aurora
        }
    }
}

/// A theme's saved name reads back as the same theme.
pub proof fn lemma_from_id_of_id(t: Theme)
    ensures
        theme_from_id(theme_id(t)) == t,
{
    reveal_strlit("aurora");
    reveal_strlit("polar_night");
    reveal_strlit("midnight_sun");
    reveal_strlit("sea_breeze");
    reveal_strlit("void");
    reveal_strlit("custom");
    assert("aurora"@.len() == 6 && "custom"@.len() == 6 && "aurora"@[0] != "custom"@[0]);
    assert("polar_night"@.len() == 11 && "midnight_sun"@.len() == 12);
    assert("sea_breeze"@.len() == 10 && "void"@.len() == 4);
}

// ---------------------------------------------------------------------------
// Palettes
// ---------------------------------------------------------------------------

/// One theme's colours, each packed as `0x00RRGGBB`.
#[derive(Debug, Clone, Copy)]
pub struct Palette {
    pub bg_deepest: u32,
    pub bg_surface: u32,
    pub bg_button: u32,
    pub bg_hover: u32,
    pub text_bright: u32,
    pub text_muted: u32,
    pub accent_green: u32,
    pub accent_teal: u32,
    pub accent_purple: u32,
    /// Button and interface glyphs.
    pub icon: u32,
    /// Outlines and dividers.
    pub border: u32,
    /// The logo gradient's three stops, in the artwork's order.
    pub logo: [u32; 3],
}

/// Number of editable colour slots in a palette.
pub const SLOT_COUNT: usize = 11;

pub open spec fn palette_of(t: Theme) -> Palette {
    match t {
        Theme::PolarNight => Palette {
            bg_deepest: 0x080810,
            bg_surface: 0x111528,
            bg_button: 0x151A2A,
            bg_hover: 0x1F2740,
            text_bright: 0xAFC2D8,
            text_muted: 0x7C90A8,
            accent_green: 0x6E9FD4,
            accent_teal: 0x8AA3C4,
            accent_purple: 0xD7A98F,
            icon: 0xAFC2D8,
            border: 0x263050,
            logo: [0xC4907A, 0x2A3F5C, 0x1E3A5F],
        },
        Theme::MidnightSun => Palette {
            bg_deepest: 0xFEF4E8,
            bg_surface: 0xF7E8CC,
            bg_button: 0xF2E2C2,
            bg_hover: 0xEDDCB8,
            text_bright: 0x2E1E0A,
            text_muted: 0x6E5228,
            accent_green: 0x8F4412,
            accent_teal: 0x8A3A18,
            accent_purple: 0x245C58,
            icon: 0x2E1E0A,
            border: 0xDCC79A,
            logo: [0x7BBCB8, 0xD4774A, 0xE89050],
        },
        Theme::SeaBreeze => Palette {
            bg_deepest: 0xF0F8FA,
            bg_surface: 0xE0F2F5,
            bg_button: 0xD6EEF2,
            bg_hover: 0xCDE9EF,
            text_bright: 0x1A3A42,
            text_muted: 0x3A6670,
            accent_green: 0x0F5A6E,
            accent_teal: 0x106044,
            accent_purple: 0x124F60,
            icon: 0x1A3A42,
            border: 0xB4DCE4,
            logo: [0x2A9BB5, 0x61DBA8, 0x52C7DC],
        },
        Theme::Void => Palette {
            bg_deepest: 0x000000,
            bg_surface: 0x141419,
            bg_button: 0x202028,
            bg_hover: 0x30303A,
            text_bright: 0xC8C8D8,
            text_muted: 0x9A9AB0,
            accent_green: 0x4ADFB8,
            accent_teal: 0x6BA5FF,
            accent_purple: 0xA8A8C0,
            icon: 0xC8C8D8,
            border: 0x2A2A33,
            logo: [0x111111, 0x2A6EE0, 0x4ADFB8],
        },
        Theme::Aurora | Theme::Custom => Palette {
            bg_deepest: 0x131620,
            bg_surface: 0x1B1E25,
            bg_button: 0x252930,
            bg_hover: 0x323740,
            text_bright: 0xC9D3DE,
            text_muted: 0x93A1B5,
            accent_green: 0x61DBA8,
            accent_teal: 0x52C7DC,
            accent_purple: 0xBB96EE,
            icon: 0xC9D3DE,
            border: 0x2C313B,
            logo: [0xB38CEB, 0x52C7DC, 0x61DBA8],
        },
    }
}

/// Colour `idx` of a palette, in editor order; indexes past the end give
/// the border colour.
pub open spec fn palette_slot_spec(p: Palette, idx: int) -> u32 {
    if idx == 0 {
        p.bg_deepest
    } else if idx == 1 {
        p.bg_surface
    } else if idx == 2 {
        p.bg_button
    } else if idx == 3 {
        p.bg_hover
    } else if idx == 4 {
        p.text_bright
    } else if idx == 5 {
        p.text_muted
    } else if idx == 6 {
        p.accent_green
    } else if idx == 7 {
        p.accent_teal
    } else if idx == 8 {
        p.accent_purple
    } else if idx == 9 {
        p.icon
    } else {
        p.border
    }
}

impl Theme {
    /// The built-in palette; the custom theme reports Aurora's as its seed.
    pub fn palette(self) -> (p: Palette)
        ensures
            p == palette_of(self),
    {
        match self {
            Theme::PolarNight => Palette {
                bg_deepest: 0x080810,
                bg_surface: 0x111528,
                bg_button: 0x151A2A,
                bg_hover: 0x1F2740,
                text_bright: 0xAFC2D8,
                text_muted: 0x7C90A8,
                accent_green: 0x6E9FD4,
                accent_teal: 0x8AA3C4,
                accent_purple: 0xD7A98F,
                icon: 0xAFC2D8,
                border: 0x263050,
                logo: [0xC4907A, 0x2A3F5C, 0x1E3A5F],
            },
            Theme::MidnightSun => Palette {
                bg_deepest: 0xFEF4E8,
                bg_surface: 0xF7E8CC,
                bg_button: 0xF2E2C2,
                bg_hover: 0xEDDCB8,
                text_bright: 0x2E1E0A,
                text_muted: 0x6E5228,
                accent_green: 0x8F4412,
                accent_teal: 0x8A3A18,
                accent_purple: 0x245C58,
                icon: 0x2E1E0A,
                border: 0xDCC79A,
                logo: [0x7BBCB8, 0xD4774A, 0xE89050],
            },
            Theme::SeaBreeze => Palette {
                bg_deepest: 0xF0F8FA,
                bg_surface: 0xE0F2F5,
                bg_button: 0xD6EEF2,
                bg_hover: 0xCDE9EF,
                text_bright: 0x1A3A42,
                text_muted: 0x3A6670,
                accent_green: 0x0F5A6E,
                accent_teal: 0x106044,
                accent_purple: 0x124F60,
                icon: 0x1A3A42,
                border: 0xB4DCE4,
                logo: [0x2A9BB5, 0x61DBA8, 0x52C7DC],
            },
            Theme::Void => Palette {
                bg_deepest: 0x000000,
                bg_surface: 0x141419,
                bg_button: 0x202028,
                bg_hover: 0x30303A,
                text_bright: 0xC8C8D8,
                text_muted: 0x9A9AB0,
                accent_green: 0x4ADFB8,
                accent_teal: 0x6BA5FF,
                accent_purple: 0xA8A8C0,
                icon: 0xC8C8D8,
                border: 0x2A2A33,
                logo: [0x111111, 0x2A6EE0, 0x4ADFB8],
            },
            Theme::Aurora | Theme::Custom => Palette {
                bg_deepest: 0x131620,
                bg_surface: 0x1B1E25,
                bg_button: 0x252930,
                bg_hover: 0x323740,
                text_bright: 0xC9D3DE,
                text_muted: 0x93A1B5,
                accent_green: 0x61DBA8,
                accent_teal: 0x52C7DC,
                accent_purple: 0xBB96EE,
                icon: 0xC9D3DE,
                border: 0x2C313B,
                logo: [0xB38CEB, 0x52C7DC, 0x61DBA8],
            },
        }
    }
}

/// One colour out of a palette by slot index, matching the editor's order.
pub fn palette_slot(p: &Palette, idx: usize) -> (c: u32)
    ensures
        c == palette_slot_spec(*p, idx as int),
{
    match idx {
        0 => p.bg_deepest,
        1 => p.bg_surface,
        2 => p.bg_button,
        3 => p.bg_hover,
        4 => p.text_bright,
        5 => p.text_muted,
        6 => p.accent_green,
        7 => p.accent_teal,
        8 => p.accent_purple,
        9 => p.icon,
        _ => p.border,
    }
}

/// The same slot taken from each built-in theme, in picker order.
pub fn theme_swatches(idx: usize) -> (r: Vec<u32>)
    ensures
        r@ == seq![
            palette_slot_spec(palette_of(Theme::Aurora), idx as int),
            palette_slot_spec(palette_of(Theme::PolarNight), idx as int),
            palette_slot_spec(palette_of(Theme::MidnightSun), idx as int),
            palette_slot_spec(palette_of(Theme::SeaBreeze), idx as int),
            palette_slot_spec(palette_of(Theme::Void), idx as int),
        ],
{
    let all = Theme::all();
    let mut r: Vec<u32> = Vec::new();
    let mut i: usize = 0;
    while i < all.len()
        invariant
            all@ == all_themes(),
            i <= all@.len(),
            r@ == all_themes().take(i as int).filter(|t: Theme| t != Theme::Custom).map_values(
                |t: Theme| palette_slot_spec(palette_of(t), idx as int),
            ),
        decreases all@.len() - i,
    {
        let t = all[i];
        proof {
            let f = |t: Theme| t != Theme::Custom;
            let g = |t: Theme| palette_slot_spec(palette_of(t), idx as int);
            all_themes().take(i as int).lemma_filter_push(t, f);
            assert(all_themes().take(i + 1) =~= all_themes().take(i as int).push(t));
        }
        if t != Theme::Custom {
            let p = t.palette();
            r.push(palette_slot(&p, idx));
        }
        proof {
            let f = |t: Theme| t != Theme::Custom;
            let g = |t: Theme| palette_slot_spec(palette_of(t), idx as int);
            let pre = all_themes().take(i as int).filter(f);
            if t != Theme::Custom {
                assert(pre.push(t).map_values(g) =~= pre.map_values(g).push(g(t)));
            }
        }
        i += 1;
    }
    proof {
        let f = |t: Theme| t != Theme::Custom;
        assert(all_themes().take(6) =~= all_themes());
        reveal_with_fuel(vstd::seq::Seq::filter, 7);
        assert(all_themes().filter(f) =~= seq![
            Theme::Aurora,
            Theme::PolarNight,
            Theme::MidnightSun,
            Theme::SeaBreeze,
            Theme::Void,
        ]);
    }
    r
}

// ---------------------------------------------------------------------------
// Active theme and custom colours
// ---------------------------------------------------------------------------

/// Marks a custom slot as written. Pure black is a legitimate colour, so a
/// zero word cannot mean "unset": the flag sits above the packed RGB.
pub const SET: u32 = 0x0100_0000;

/// Mask of the packed RGB bits.
pub const RGB_MASK: u32 = 0x00FF_FFFF;

pub open spec fn theme_code(t: Theme) -> u8 {
    match t {
        Theme::Aurora => 0,
        Theme::PolarNight => 1,
        Theme::MidnightSun => 2,
        Theme::SeaBreeze => 3,
        Theme::Void => 4,
        Theme::Custom => 5,
    }
}

pub open spec fn theme_of_code(c: u8) -> Theme {
    if c == 1 {
        Theme::PolarNight
    } else if c == 2 {
        Theme::MidnightSun
    } else if c == 3 {
        Theme::SeaBreeze
    } else if c == 4 {
        Theme::Void
    } else if c == 5 {
        Theme::Custom
    } else {
        Theme::Aurora
    }
}

/// The active theme and the custom theme's colours. The active theme is
/// kept as a small code and every custom slot as a packed word whose `SET`
/// bit says whether the user ever wrote it.
pub struct ThemeState {
    active: u8,
    custom: Vec<u32>,
}

impl ThemeState {
    #[verifier::type_invariant]
    spec fn inv(self) -> bool {
        self.custom@.len() == SLOT_COUNT
    }

    /// The theme in use.
    pub closed spec fn active_spec(self) -> Theme {
        theme_of_code(self.active)
    }

    /// The colour the user set for custom slot `idx`, if any.
    pub closed spec fn custom_color(self, idx: int) -> Option<u32> {
        if 0 <= idx < SLOT_COUNT && idx < self.custom@.len() && self.custom@[idx] & SET != 0 {
            Some(self.custom@[idx] & RGB_MASK)
        } else {
            None
        }
    }

    /// Aurora active, no custom colour set.
    pub fn new() -> (s: ThemeState)
        ensures
            s.active_spec() == Theme::Aurora,
            forall|i: int| #[trigger] s.custom_color(i) == None::<u32>,
    {
        let s = ThemeState { active: 0, custom: vec![0u32; SLOT_COUNT] };
        assert forall|i: int| #[trigger] s.custom_color(i) == None::<u32> by {
            if 0 <= i < SLOT_COUNT {
                assert(s.custom@[i] == 0);
                assert(0u32 & SET == 0) by (bit_vector);
            }
        }
        s
    }
}

/// Only the eleven custom slots can hold a colour: any other index reads
/// as never set.
pub proof fn lemma_no_custom_past_last(st: ThemeState, idx: int)
    requires
        idx < 0 || idx >= SLOT_COUNT,
    ensures
        st.custom_color(idx) is None,
{
}

/// Reading a custom slot after writing it: a slot below `SLOT_COUNT`
/// shows the written colour (its low 24 bits, so black reads back as
/// black, not as the fallback); a write past the last slot changes no
/// slot, and reading there gives Aurora's border; every other slot shows
/// what it showed before. A slot never written shows Aurora's colour.
/// The relation between `before` and `after` is what `set_custom_slot`
/// ensures.
pub proof fn lemma_custom_slot_write_read(before: ThemeState, after: ThemeState, idx: int, rgb: u32)
    requires
        forall|j: int|
            #[trigger] after.custom_color(j) == if j == idx && 0 <= idx < SLOT_COUNT {
                Some(rgb & RGB_MASK)
            } else {
                before.custom_color(j)
            },
    ensures
        0 <= idx < SLOT_COUNT ==> custom_slot_spec(after, idx) == rgb & RGB_MASK,
        idx >= SLOT_COUNT ==> custom_slot_spec(after, idx) == palette_of(Theme::Aurora).border,
        idx >= SLOT_COUNT ==> forall|j: int| #[trigger]
            after.custom_color(j) == before.custom_color(j),
        forall|j: int| j != idx ==> #[trigger] custom_slot_spec(after, j) == custom_slot_spec(before, j),
        forall|j: int|
            before.custom_color(j) is None && j != idx ==> #[trigger] custom_slot_spec(after, j)
                == palette_slot_spec(palette_of(Theme::Aurora), j),
{
    if idx >= SLOT_COUNT {
        lemma_no_custom_past_last(after, idx);
    }
    assert forall|j: int| j != idx implies #[trigger] custom_slot_spec(after, j) == custom_slot_spec(
        before,
        j,
    ) by {
        assert(after.custom_color(j) == before.custom_color(j));
    }
}

/// What a custom slot shows: the user's colour, or Aurora's for a slot
/// that was never set.
pub open spec fn custom_slot_spec(st: ThemeState, idx: int) -> u32 {
    match st.custom_color(idx) {
        Some(c) => c,
        None => palette_slot_spec(palette_of(Theme::Aurora), idx),
    }
}

/// The colour slot `idx` shows under the active theme.
pub open spec fn slot_spec(st: ThemeState, idx: int) -> u32 {
    if st.active_spec() == Theme::Custom {
        custom_slot_spec(st, idx)
    } else {
        palette_slot_spec(palette_of(st.active_spec()), idx)
    }
}

fn code_of(t: Theme) -> (c: u8)
    ensures
        c == theme_code(t),
{
    match t {
        Theme::Aurora => 0,
        Theme::PolarNight => 1,
        Theme::MidnightSun => 2,
        Theme::SeaBreeze => 3,
        Theme::Void => 4,
        Theme::Custom => 5,
    }
}

/// Decoding a theme's code gives the theme back.
pub proof fn lemma_code_round_trip(t: Theme)
    ensures
        theme_of_code(theme_code(t)) == t,
{
}

/// Makes `t` the active theme; the custom colours are untouched.
pub fn set_theme(st: &mut ThemeState, t: Theme)
    ensures
        final(st).active_spec() == t,
        forall|i: int| #[trigger] final(st).custom_color(i) == old(st).custom_color(i),
{
    proof {
        use_type_invariant(&*st);
    }
    st.active = code_of(t);
}

/// The theme in use.
pub fn active_theme(st: &ThemeState) -> (t: Theme)
    ensures
        t == st.active_spec(),
{
    match st.active {
        1 => Theme::PolarNight,
        2 => Theme::MidnightSun,
        3 => Theme::SeaBreeze,
        4 => Theme::Void,
        5 => Theme::Custom,
        _ => Theme::Aurora,
    }
}

proof fn lemma_set_word(rgb: u32)
    ensures
        ((rgb & RGB_MASK) | SET) & SET != 0,
        ((rgb & RGB_MASK) | SET) & RGB_MASK == rgb & RGB_MASK,
{
    assert(((rgb & 0x00FF_FFFF) | 0x0100_0000) & 0x0100_0000 != 0) by (bit_vector);
    assert(((rgb & 0x00FF_FFFF) | 0x0100_0000) & 0x00FF_FFFF == rgb & 0x00FF_FFFF) by (bit_vector);
}

/// Sets custom slot `idx` to the packed colour `rgb` (its low 24 bits);
/// an index past the last slot changes nothing.
pub fn set_custom_slot(st: &mut ThemeState, idx: usize, rgb: u32)
    ensures
        final(st).active_spec() == old(st).active_spec(),
        forall|j: int|
            #[trigger] final(st).custom_color(j) == if j == idx && idx < SLOT_COUNT {
                Some(rgb & RGB_MASK)
            } else {
                old(st).custom_color(j)
            },
{
    proof {
        use_type_invariant(&*st);
        lemma_set_word(rgb);
    }
    if idx < st.custom.len() {
        let mut words = st.custom.clone();
        assert(words@ =~= st.custom@);
        words.set(idx, (rgb & RGB_MASK) | SET);
        st.custom = words;
    }
}

/// A custom colour, falling back to Aurora's for a slot never set.
pub fn custom_slot(st: &ThemeState, idx: usize) -> (c: u32)
    ensures
        c == custom_slot_spec(*st, idx as int),
        idx >= SLOT_COUNT ==> c == palette_of(Theme::Aurora).border,
{
    proof {
        use_type_invariant(st);
        assert(0u32 & SET == 0) by (bit_vector);
    }
    let raw: u32 = if idx < st.custom.len() {
        st.custom[idx]
    } else {
        0
    };
    if raw & SET == 0 {
        let p = Theme::Aurora.palette();
        palette_slot(&p, idx)
    } else {
        raw & RGB_MASK
    }
}

/// The colour slot `idx` shows under the active theme.
pub fn slot(st: &ThemeState, idx: usize) -> (c: u32)
    ensures
        c == slot_spec(*st, idx as int),
{
    let t = active_theme(st);
    if t == Theme::Custom {
        custom_slot(st, idx)
    } else {
        let p = t.palette();
        palette_slot(&p, idx)
    }
}

/// Copies a palette's eleven colours into the custom slots.
pub fn set_custom_palette(st: &mut ThemeState, p: &Palette)
    ensures
        final(st).active_spec() == old(st).active_spec(),
        forall|j: int|
            0 <= j < SLOT_COUNT ==> #[trigger] final(st).custom_color(j) == Some(
                palette_slot_spec(*p, j) & RGB_MASK,
            ),
{
    let mut i: usize = 0;
    while i < SLOT_COUNT
        invariant
            i <= SLOT_COUNT,
            st.active_spec() == old(st).active_spec(),
            forall|j: int|
                0 <= j < i ==> #[trigger] st.custom_color(j) == Some(
                    palette_slot_spec(*p, j) & RGB_MASK,
                ),
        decreases SLOT_COUNT - i,
    {
        let c = palette_slot(p, i);
        set_custom_slot(st, i, c);
        i += 1;
    }
}

/// The logo gradient's stops for the active theme; the custom theme uses
/// its accent slots, last to first.
pub fn logo_stops(st: &ThemeState) -> (r: [u32; 3])
    ensures
        st.active_spec() == Theme::Custom ==> r@ == seq![
            custom_slot_spec(*st, 8),
            custom_slot_spec(*st, 7),
            custom_slot_spec(*st, 6),
        ],
        st.active_spec() != Theme::Custom ==> r == palette_of(st.active_spec()).logo,
{
    let t = active_theme(st);
    if t == Theme::Custom {
        let r = [custom_slot(st, 8), custom_slot(st, 7), custom_slot(st, 6)];
        assert(r@ =~= seq![
            custom_slot_spec(*st, 8),
            custom_slot_spec(*st, 7),
            custom_slot_spec(*st, 6),
        ]);
        r
    } else {
        t.palette().logo
    }
}

// ---------------------------------------------------------------------------
// Hex colour text
// ---------------------------------------------------------------------------

/// Upper-case hex digit for `d` in `0..16`.
pub open spec fn hex_digit_char(d: int) -> char {
    if d < 10 {
        (48 + d) as char
    } else {
        (55 + d) as char
    }
}

/// `#RRGGBB` for a packed colour, upper-case (`format!("#{:06X}")`).
pub open spec fn hex6(v: u32) -> Seq<char> {
    seq![
        '#',
        hex_digit_char(((v / 0x100000) % 16) as int),
        hex_digit_char(((v / 0x10000) % 16) as int),
        hex_digit_char(((v / 0x1000) % 16) as int),
        hex_digit_char(((v / 0x100) % 16) as int),
        hex_digit_char(((v / 0x10) % 16) as int),
        hex_digit_char((v % 16) as int),
    ]
}

pub open spec fn is_hex_digit(c: char) -> bool {
    ('0' <= c && c <= '9') || ('a' <= c && c <= 'f') || ('A' <= c && c <= 'F')
}

pub open spec fn hex_val(c: char) -> int {
    if c <= '9' {
        c as int - 48
    } else if c <= 'F' {
        c as int - 55
    } else {
        c as int - 87
    }
}

/// Value of a run of hex digits, most significant first.
pub open spec fn hex_value(s: Seq<char>) -> int
    decreases s.len(),
{
    if s.len() == 0 {
        0
    } else {
        hex_value(s.drop_last()) * 16 + hex_val(s.last())
    }
}

/// Index of the first character at or after `i` that is not `#`.
pub open spec fn skip_hashes(s: Seq<char>, i: int) -> int
    decreases s.len() - i,
{
    if 0 <= i < s.len() && s[i] == '#' {
        skip_hashes(s, i + 1)
    } else {
        i
    }
}

/// What `parse_hex` accepts: after trimming whitespace and any leading
/// `#`s, exactly six hex digits.
pub open spec fn parse_hex_spec(s: Seq<char>) -> Option<u32> {
    let t = trim(s);
    let h = t.subrange(skip_hashes(t, 0), t.len() as int);
    if h.len() == 6 && (forall|i: int| 0 <= i < 6 ==> is_hex_digit(#[trigger] h[i])) {
        Some(hex_value(h) as u32)
    } else {
        None
    }
}

fn hex_char(d: u32) -> (c: char)
    requires
        d < 16,
    ensures
        c == hex_digit_char(d as int),
{
    if d < 10 {
        let b: u8 = 48 + d as u8;
        b as char
    } else {
        let b: u8 = 55 + d as u8;
        b as char
    }
}

/// A packed colour as `#RRGGBB`.
pub fn to_hex(rgb: u32) -> (r: String)
    requires
        rgb <= RGB_MASK,
    ensures
        r@ == hex6(rgb),
{
    let mut s = String::new();
    push_char(&mut s, '#');
    push_char(&mut s, hex_char((rgb / 0x100000) % 16));
    push_char(&mut s, hex_char((rgb / 0x10000) % 16));
    push_char(&mut s, hex_char((rgb / 0x1000) % 16));
    push_char(&mut s, hex_char((rgb / 0x100) % 16));
    push_char(&mut s, hex_char((rgb / 0x10) % 16));
    push_char(&mut s, hex_char(rgb % 16));
    assert(s@ =~= hex6(rgb));
    s
}

proof fn lemma_hex_value_step(s: Seq<char>, k: int)
    requires
        0 <= k < s.len(),
    ensures
        hex_value(s.take(k + 1)) == hex_value(s.take(k)) * 16 + hex_val(s[k]),
{
    assert(s.take(k + 1).drop_last() =~= s.take(k));
}

/// Parses the colour in `v[a..b]` as `parse_hex_spec` says.
pub fn parse_hex_chars(v: &[char], a: usize, b: usize) -> (r: Option<u32>)
    requires
        a <= b <= v@.len(),
    ensures
        r == parse_hex_spec(v@.subrange(a as int, b as int)),
{
    let ghost s = v@.subrange(a as int, b as int);
    let (lo, hi) = trim_range(v, a, b);
    let ghost t = trim(s);
    let mut j = lo;
    while j < hi && v[j] == '#'
        invariant
            a <= lo <= j <= hi <= b <= v@.len(),
            t == v@.subrange(lo as int, hi as int),
            skip_hashes(t, 0) == skip_hashes(t, j - lo),
        decreases hi - j,
    {
        j += 1;
    }
    let ghost h = t.subrange(skip_hashes(t, 0), t.len() as int);
    proof {
        assert(skip_hashes(t, j - lo) == j - lo);
        assert(h =~= v@.subrange(j as int, hi as int));
    }
    if hi - j != 6 {
        return None;
    }
    let mut val: u32 = 0;
    let mut k: usize = 0;
    while k < 6
        invariant
            j + 6 == hi <= v@.len(),
            a <= b <= v@.len(),
            h == v@.subrange(j as int, hi as int),
            t == trim(v@.subrange(a as int, b as int)),
            h == t.subrange(skip_hashes(t, 0), t.len() as int),
            k <= 6,
            forall|i: int| 0 <= i < k ==> is_hex_digit(#[trigger] h[i]),
            val == hex_value(h.take(k as int)),
            val < 0x1000000,
            k <= 5 ==> val < 0x100000,
            k <= 4 ==> val < 0x10000,
            k <= 3 ==> val < 0x1000,
            k <= 2 ==> val < 0x100,
            k <= 1 ==> val < 0x10,
            k == 0 ==> val == 0,
        decreases 6 - k,
    {
        let c = v[j + k];
        assert(c == h[k as int]);
        let d: u32 = if '0' <= c && c <= '9' {
            (c as u32) - 48
        } else if 'A' <= c && c <= 'F' {
            (c as u32) - 55
        } else if 'a' <= c && c <= 'f' {
            (c as u32) - 87
        } else {
            assert(!is_hex_digit(h[k as int]));
            return None;
        };
        proof {
            lemma_hex_value_step(h, k as int);
        }
        val = val * 16 + d;
        k += 1;
    }
    assert(h.take(6) =~= h);
    Some(val)
}

/// Parses `#RRGGBB` or `RRGGBB`, with surrounding whitespace and any number
/// of leading `#`s allowed; anything else gives `None`.
pub fn parse_hex(s: &str) -> (r: Option<u32>)
    ensures
        r == parse_hex_spec(s@),
{
    let v = to_chars(s);
    assert(v@.subrange(0, v@.len() as int) =~= s@);
    parse_hex_chars(v.as_slice(), 0, v.len())
}

pub open spec fn slot_label_spec(idx: int) -> Seq<char> {
    if idx == 0 {
        "Background"@
    } else if idx == 1 {
        "Surface"@
    } else if idx == 2 {
        "Button"@
    } else if idx == 3 {
        "Hover"@
    } else if idx == 4 {
        "Text"@
    } else if idx == 5 {
        "Text (muted)"@
    } else if idx == 6 {
        "Accent 1"@
    } else if idx == 7 {
        "Accent 2"@
    } else if idx == 8 {
        "Accent 3"@
    } else if idx == 9 {
        "Icons"@
    } else if idx == 10 {
        "Border"@
    } else {
        ""@
    }
}

/// Label for one colour slot, as the editor shows it; empty past the end.
pub fn slot_label(idx: usize) -> (r: &'static str)
    ensures
        r@ == slot_label_spec(idx as int),
{
    match idx {
        0 => "Background",
        1 => "Surface",
        2 => "Button",
        3 => "Hover",
        4 => "Text",
        5 => "Text (muted)",
        6 => "Accent 1",
        7 => "Accent 2",
        8 => "Accent 3",
        9 => "Icons",
        10 => "Border",
        _ => "",
    }
}

proof fn lemma_hex_digit(d: int)
    requires
        0 <= d < 16,
    ensures
        is_hex_digit(hex_digit_char(d)),
        hex_val(hex_digit_char(d)) == d,
        !crate::text::is_ws(hex_digit_char(d)),
        hex_digit_char(d) != '#',
{
}

/// A colour written by `to_hex` parses back to itself.
pub proof fn lemma_parse_hex_of_hex6(v: u32)
    requires
        v <= RGB_MASK,
    ensures
        parse_hex_spec(hex6(v)) == Some(v),
{
    let s = hex6(v);
    let d5 = ((v / 0x100000) % 16) as int;
    let d4 = ((v / 0x10000) % 16) as int;
    let d3 = ((v / 0x1000) % 16) as int;
    let d2 = ((v / 0x100) % 16) as int;
    let d1 = ((v / 0x10) % 16) as int;
    let d0 = (v % 16) as int;
    lemma_hex_digit(d5);
    lemma_hex_digit(d4);
    lemma_hex_digit(d3);
    lemma_hex_digit(d2);
    lemma_hex_digit(d1);
    lemma_hex_digit(d0);
    assert(crate::text::trim_start_idx(s, 0) == 0);
    assert(crate::text::trim_end_idx(s, 0, 7) == 7);
    assert(trim(s) =~= s);
    assert(skip_hashes(s, 1) == 1);
    assert(skip_hashes(s, 0) == 1);
    let h = s.subrange(1, 7);
    assert(h =~= seq![
        hex_digit_char(d5),
        hex_digit_char(d4),
        hex_digit_char(d3),
        hex_digit_char(d2),
        hex_digit_char(d1),
        hex_digit_char(d0),
    ]);
    assert(h.drop_last().drop_last().drop_last().drop_last().drop_last().drop_last() =~= Seq::<
        char,
    >::empty());
    reveal_with_fuel(hex_value, 7);
    assert(hex_value(h) == ((((d5 * 16 + d4) * 16 + d3) * 16 + d2) * 16 + d1) * 16 + d0);
    assert(v <= 0xFFFFFF ==> v == ((v / 0x100000) % 16) * 0x100000 + ((v / 0x10000) % 16) * 0x10000
        + ((v / 0x1000) % 16) * 0x1000 + ((v / 0x100) % 16) * 0x100 + ((v / 0x10) % 16) * 0x10 + v
        % 16) by (bit_vector);
}

// ---------------------------------------------------------------------------
// Exporting and importing the custom palette
// ---------------------------------------------------------------------------

/// Separators between colours in an exported palette.
pub open spec fn is_sep(c: char) -> bool {
    c == ' ' || c == ',' || c == '\n' || c == '\t'
}

/// The pieces of `s` between separators, empty ones included
/// (`str::split` on the separators).
pub open spec fn split_pieces(s: Seq<char>) -> Seq<Seq<char>>
    decreases s.len(),
{
    if s.len() == 0 {
        seq![Seq::empty()]
    } else {
        let p = split_pieces(s.drop_last());
        if is_sep(s.last()) {
            p.push(Seq::empty())
        } else {
            p.update(p.len() - 1, p.last().push(s.last()))
        }
    }
}

/// The non-empty pieces of `s`.
pub open spec fn tokens(s: Seq<char>) -> Seq<Seq<char>> {
    split_pieces(s).filter(nonempty_pred())
}

/// Texts joined with single spaces.
pub open spec fn join_spaces(xs: Seq<Seq<char>>) -> Seq<char>
    decreases xs.len(),
{
    if xs.len() == 0 {
        Seq::empty()
    } else if xs.len() == 1 {
        xs[0]
    } else {
        join_spaces(xs.drop_last()) + seq![' '] + xs.last()
    }
}

/// The custom colours as the editor shows them, slot by slot.
pub open spec fn custom_colors(st: ThemeState) -> Seq<u32> {
    Seq::new(SLOT_COUNT as nat, |i: int| custom_slot_spec(st, i))
}

/// The exported palette: every custom colour as `#RRGGBB`, space separated.
pub open spec fn export_spec(st: ThemeState) -> Seq<char> {
    join_spaces(custom_colors(st).map_values(|c: u32| hex6(c)))
}

/// What `parse_custom_palette` gives for a text: all eleven colours, or
/// nothing when a colour is missing, extra or malformed.
pub open spec fn parse_palette_spec(s: Seq<char>) -> Option<Seq<u32>> {
    let toks = tokens(s);
    if toks.len() == SLOT_COUNT && (forall|i: int|
        0 <= i < toks.len() ==> #[trigger] parse_hex_spec(toks[i]) is Some) {
        Some(toks.map_values(|t: Seq<char>| parse_hex_spec(t)->0))
    } else {
        None
    }
}

proof fn lemma_custom_slot_rgb(st: ThemeState, i: int)
    ensures
        custom_slot_spec(st, i) <= RGB_MASK,
{
    if st.custom_color(i) is Some {
        let w = st.custom@[i];
        assert(w & 0x00FF_FFFF <= 0x00FF_FFFF) by (bit_vector);
    }
}

/// Every custom colour as `#RRGGBB`, space separated: the form the editor
/// exports and accepts back.
pub fn export_custom(st: &ThemeState) -> (r: String)
    ensures
        r@ == export_spec(*st),
{
    let ghost hexes = custom_colors(*st).map_values(|c: u32| hex6(c));
    let mut s = String::new();
    let mut i: usize = 0;
    while i < SLOT_COUNT
        invariant
            i <= SLOT_COUNT,
            hexes == custom_colors(*st).map_values(|c: u32| hex6(c)),
            s@ == join_spaces(hexes.take(i as int)),
        decreases SLOT_COUNT - i,
    {
        if i > 0 {
            push_char(&mut s, ' ');
        }
        proof {
            lemma_custom_slot_rgb(*st, i as int);
        }
        let h = to_hex(custom_slot(st, i));
        s.append(h.as_str());
        proof {
            assert(hexes.take(i + 1).drop_last() =~= hexes.take(i as int));
            if i == 0 {
                assert(hexes.take(1) =~= seq![hexes[0]]);
            }
        }
        i += 1;
    }
    assert(hexes.take(SLOT_COUNT as int) =~= hexes);
    s
}

proof fn lemma_split_len(s: Seq<char>)
    ensures
        split_pieces(s).len() >= 1,
    decreases s.len(),
{
    if s.len() > 0 {
        lemma_split_len(s.drop_last());
    }
}

proof fn lemma_split_step(s: Seq<char>, k: int)
    requires
        0 <= k < s.len(),
    ensures
        split_pieces(s.take(k + 1)) == if is_sep(s[k]) {
            split_pieces(s.take(k)).push(Seq::empty())
        } else {
            split_pieces(s.take(k)).update(
                split_pieces(s.take(k)).len() - 1,
                split_pieces(s.take(k)).last().push(s[k]),
            )
        },
{
    assert(s.take(k + 1).drop_last() =~= s.take(k));
}

proof fn lemma_filter_split_last(p: Seq<Seq<char>>)
    requires
        p.len() >= 1,
    ensures
        p.filter(nonempty_pred()) == if nonempty(p.last()) {
            p.drop_last().filter(nonempty_pred()).push(p.last())
        } else {
            p.drop_last().filter(nonempty_pred())
        },
{
    assert(p =~= p.drop_last().push(p.last()));
    p.drop_last().lemma_filter_push(p.last(), nonempty_pred());
}

/// Splits `v` into its tokens, as `(start, end)` ranges.
fn token_ranges(v: &[char]) -> (r: Vec<(usize, usize)>)
    ensures
        r@.len() == tokens(v@).len(),
        forall|k: int|
            #![trigger r@[k]]
            0 <= k < r@.len() ==> r@[k].0 <= r@[k].1 <= v@.len() && v@.subrange(
                r@[k].0 as int,
                r@[k].1 as int,
            ) == tokens(v@)[k],
{
    let ghost f = nonempty_pred();
    let mut r: Vec<(usize, usize)> = Vec::new();
    let mut start: usize = 0;
    let mut i: usize = 0;
    proof {
        assert(v@.take(0) =~= Seq::<char>::empty());
        assert(split_pieces(Seq::<char>::empty()).drop_last() =~= Seq::<Seq<char>>::empty());
        assert(Seq::<Seq<char>>::empty().filter(f) =~= Seq::<Seq<char>>::empty()) by {
            reveal(Seq::filter);
        }
    }
    while i < v.len()
        invariant
            f == nonempty_pred(),
            start <= i <= v@.len(),
            split_pieces(v@.take(i as int)).len() >= 1,
            v@.subrange(start as int, i as int) == split_pieces(v@.take(i as int)).last(),
            r@.len() == split_pieces(v@.take(i as int)).drop_last().filter(f).len(),
            forall|k: int|
                #![trigger r@[k]]
                0 <= k < r@.len() ==> r@[k].0 <= r@[k].1 <= i && v@.subrange(
                    r@[k].0 as int,
                    r@[k].1 as int,
                ) == split_pieces(v@.take(i as int)).drop_last().filter(f)[k],
        decreases v@.len() - i,
    {
        let ghost p = split_pieces(v@.take(i as int));
        let ghost old_r = r@;
        let c = v[i];
        proof {
            lemma_split_step(v@, i as int);
        }
        if c == ' ' || c == ',' || c == '\n' || c == '\t' {
            proof {
                assert(split_pieces(v@.take(i + 1)).drop_last() =~= p);
                lemma_filter_split_last(p);
            }
            if start < i {
                r.push((start, i));
                proof {
                    assert forall|k: int| #![trigger r@[k]] 0 <= k < r@.len() implies r@[k].0
                        <= r@[k].1 <= i + 1 && v@.subrange(r@[k].0 as int, r@[k].1 as int)
                        == split_pieces(v@.take(i + 1)).drop_last().filter(f)[k] by {
                        if k < old_r.len() {
                            assert(r@[k] == old_r[k]);
                        } else {
                            assert(r@[k] == (start, i));
                        }
                    }
                }
            }
            start = i + 1;
            proof {
                assert(split_pieces(v@.take(i + 1)).last() =~= Seq::<char>::empty());
                assert(v@.subrange(start as int, i + 1) =~= Seq::<char>::empty());
            }
        } else {
            proof {
                assert(split_pieces(v@.take(i + 1)).drop_last() =~= p.drop_last());
                assert(v@.subrange(start as int, i + 1) =~= v@.subrange(start as int, i as int).push(
                    c,
                ));
            }
        }
        i += 1;
    }
    let ghost p = split_pieces(v@.take(i as int));
    let ghost old_r = r@;
    proof {
        assert(v@.take(i as int) =~= v@);
        lemma_filter_split_last(p);
    }
    if start < i {
        r.push((start, i));
    }
    proof {
        assert forall|k: int| #![trigger r@[k]] 0 <= k < r@.len() implies r@[k].0 <= r@[k].1
            <= v@.len() && v@.subrange(r@[k].0 as int, r@[k].1 as int) == tokens(v@)[k] by {
            if k < old_r.len() {
                assert(r@[k] == old_r[k]);
            }
        }
    }
    r
}

/// Parses an exported palette. Every slot must be present and valid: a
/// partial line is more likely half-typed than meant.
pub fn parse_custom_palette(s: &str) -> (r: Option<Vec<u32>>)
    ensures
        match r {
            Some(cs) => parse_palette_spec(s@) == Some(cs@),
            None => parse_palette_spec(s@) is None,
        },
{
    let v = to_chars(s);
    let vs = v.as_slice();
    assert(vs@ == v@);
    let toks = token_ranges(vs);
    let ghost ts = tokens(s@);
    if toks.len() != SLOT_COUNT {
        return None;
    }
    let mut out: Vec<u32> = Vec::new();
    let mut k: usize = 0;
    while k < toks.len()
        invariant
            ts == tokens(v@),
            v@ == s@,
            vs@ == v@,
            toks@.len() == ts.len() == SLOT_COUNT,
            forall|j: int|
                #![trigger toks@[j]]
                0 <= j < toks@.len() ==> toks@[j].0 <= toks@[j].1 <= v@.len() && v@.subrange(
                    toks@[j].0 as int,
                    toks@[j].1 as int,
                ) == ts[j],
            k <= toks@.len(),
            out@.len() == k,
            forall|j: int|
                0 <= j < k ==> #[trigger] parse_hex_spec(ts[j]) == Some(out@[j]),
        decreases toks@.len() - k,
    {
        let (a, b) = toks[k];
        assert(toks@[k as int] == (a, b));
        match parse_hex_chars(vs, a, b) {
            Some(c) => out.push(c),
            None => {
                return None;
            },
        }
        k += 1;
    }
    assert(out@ =~= ts.map_values(|t: Seq<char>| parse_hex_spec(t)->0));
    Some(out)
}

proof fn lemma_split_append(a: Seq<char>, x: Seq<char>)
    requires
        forall|i: int| 0 <= i < x.len() ==> !is_sep(#[trigger] x[i]),
    ensures
        split_pieces(a + x) == split_pieces(a).update(
            split_pieces(a).len() - 1,
            split_pieces(a).last() + x,
        ),
    decreases x.len(),
{
    lemma_split_len(a);
    if x.len() == 0 {
        assert(a + x =~= a);
        assert(split_pieces(a).last() + x =~= split_pieces(a).last());
        assert(split_pieces(a).update(split_pieces(a).len() - 1, split_pieces(a).last())
            =~= split_pieces(a));
    } else {
        let y = x.drop_last();
        assert forall|i: int| 0 <= i < y.len() implies !is_sep(#[trigger] y[i]) by {
            assert(y[i] == x[i]);
        }
        lemma_split_append(a, y);
        assert(!is_sep(x[x.len() - 1]));
        assert((a + x).drop_last() =~= a + y);
        assert((a + x).last() == x.last());
        let q = split_pieces(a + y);
        assert(q.len() == split_pieces(a).len());
        assert(q.last() == split_pieces(a).last() + y);
        assert(split_pieces(a + x) == q.update(q.len() - 1, q.last().push(x.last())));
        assert((split_pieces(a).last() + y).push(x.last()) =~= split_pieces(a).last() + x);
        assert(q.update(q.len() - 1, q.last().push(x.last())) =~= split_pieces(a).update(
            split_pieces(a).len() - 1,
            split_pieces(a).last() + x,
        ));
    }
}

proof fn lemma_filter_all(p: Seq<Seq<char>>)
    requires
        forall|i: int| 0 <= i < p.len() ==> nonempty(#[trigger] p[i]),
    ensures
        p.filter(nonempty_pred()) == p,
    decreases p.len(),
{
    if p.len() == 0 {
        assert(p.filter(nonempty_pred()) =~= p) by {
            reveal(Seq::filter);
        }
    } else {
        lemma_filter_all(p.drop_last());
        lemma_filter_split_last(p);
        assert(p.drop_last().push(p.last()) =~= p);
    }
}

proof fn lemma_split_join(xs: Seq<Seq<char>>)
    requires
        xs.len() >= 1,
        forall|i: int, j: int| 0 <= i < xs.len() && 0 <= j < xs[i].len() ==> !is_sep(#[trigger] xs[i][j]),
    ensures
        split_pieces(join_spaces(xs)) == xs,
    decreases xs.len(),
{
    if xs.len() == 1 {
        lemma_split_append(Seq::empty(), xs[0]);
        assert(Seq::<char>::empty() + xs[0] =~= xs[0]);
        assert(split_pieces(Seq::<char>::empty()).update(0, Seq::<char>::empty() + xs[0]) =~= xs);
    } else {
        let init = xs.drop_last();
        let x = xs.last();
        lemma_split_join(init);
        let a = join_spaces(init) + seq![' '];
        assert(a.drop_last() =~= join_spaces(init));
        assert(split_pieces(a) == init.push(Seq::<char>::empty()));
        assert forall|j: int| 0 <= j < x.len() implies !is_sep(#[trigger] x[j]) by {
            assert(x[j] == xs[xs.len() - 1][j]);
        }
        lemma_split_append(a, x);
        assert(Seq::<char>::empty() + x =~= x);
        assert(init.push(Seq::<char>::empty()).update(init.len() as int, x) =~= xs);
    }
}

/// Exporting the custom palette and importing the text back gives the same
/// eleven colours.
pub proof fn lemma_export_parse_round_trip(st: ThemeState)
    ensures
        parse_palette_spec(export_spec(st)) == Some(custom_colors(st)),
{
    let cs = custom_colors(st);
    let hexes = cs.map_values(|c: u32| hex6(c));
    assert forall|i: int| 0 <= i < hexes.len() implies #[trigger] hexes[i] == hex6(cs[i]) && cs[i]
        <= RGB_MASK by {
        lemma_custom_slot_rgb(st, i);
    }
    assert forall|i: int, j: int| 0 <= i < hexes.len() && 0 <= j < hexes[i].len() implies !is_sep(
        #[trigger] hexes[i][j],
    ) by {
        let v = cs[i];
        lemma_hex_digit(((v / 0x100000) % 16) as int);
        lemma_hex_digit(((v / 0x10000) % 16) as int);
        lemma_hex_digit(((v / 0x1000) % 16) as int);
        lemma_hex_digit(((v / 0x100) % 16) as int);
        lemma_hex_digit(((v / 0x10) % 16) as int);
        lemma_hex_digit((v % 16) as int);
    }
    lemma_split_join(hexes);
    assert forall|i: int| 0 <= i < hexes.len() implies nonempty(#[trigger] hexes[i]) by {}
    lemma_filter_all(hexes);
    assert(tokens(export_spec(st)) == hexes);
    assert forall|i: int| 0 <= i < hexes.len() implies #[trigger] parse_hex_spec(hexes[i]) == Some(
        cs[i],
    ) by {
        lemma_custom_slot_rgb(st, i);
        lemma_parse_hex_of_hex6(cs[i]);
    }
    assert(hexes.map_values(|t: Seq<char>| parse_hex_spec(t)->0) =~= cs);
}

} // verus!
