//! Settings groups that hold no floating-point values, their defaults,
//! the upgrade from the old flat settings file, and the start-up switches
//! read by the window and render code.

use vstd::prelude::*;
use crate::text::{contains_chars, contains_seq, ascii_lower_seq, lower_chars, to_chars};

verus! {

/// Last window size and position, in logical pixels.
pub struct WindowSettings {
    pub w: Option<u32>,
    pub h: Option<u32>,
    pub x: Option<i32>,
    pub y: Option<i32>,
}

impl Default for WindowSettings {
    /// Nothing remembered yet.
    fn default() -> (r: WindowSettings)
        ensures
            r.w is None && r.h is None && r.x is None && r.y is None,
    {
        WindowSettings { w: None, h: None, x: None, y: None }
    }
}

impl WindowSettings {
    /// Window fields of an old flat settings file, whose integers are read
    /// as 64-bit and cut to the field's width.
    pub fn from_legacy(w: Option<i64>, h: Option<i64>, x: Option<i64>, y: Option<i64>) -> (r:
        WindowSettings)
        ensures
            r.w == match w {
                Some(v) => Some(v as u32),
                None => None::<u32>,
            },
            r.h == match h {
                Some(v) => Some(v as u32),
                None => None::<u32>,
            },
            r.x == match x {
                Some(v) => Some(v as i32),
                None => None::<i32>,
            },
            r.y == match y {
                Some(v) => Some(v as i32),
                None => None::<i32>,
            },
    {
        WindowSettings {
            w: match w {
                Some(v) => Some(v as u32),
                None => None,
            },
            h: match h {
                Some(v) => Some(v as u32),
                None => None,
            },
            x: match x {
                Some(v) => Some(v as i32),
                None => None,
            },
            y: match y {
                Some(v) => Some(v as i32),
                None => None,
            },
        }
    }
}

/// Preferred subtitle language (mpv's `slang`); empty for no preference.
pub struct SubtitleSettings {
    pub lang: String,
}

impl Default for SubtitleSettings {
    fn default() -> (r: SubtitleSettings)
        ensures
            r.lang@.len() == 0,
    {
        SubtitleSettings { lang: String::new() }
    }
}

/// Highest video height to fetch for network streams; 0 for no cap.
pub struct StreamingSettings {
    pub quality_height: u32,
}

impl Default for StreamingSettings {
    /// Capped at 1080 lines.
    fn default() -> (r: StreamingSettings)
        ensures
            r.quality_height == 1080,
    {
        StreamingSettings { quality_height: 1080 }
    }
}

impl StreamingSettings {
    /// The stream cap of an old flat settings file: its number cut to 32
    /// bits, or 1080 when absent.
    pub fn from_legacy(q: Option<i64>) -> (r: StreamingSettings)
        ensures
            r.quality_height == match q {
                Some(v) => v as u32,
                None => 1080u32,
            },
    {
        StreamingSettings {
            quality_height: match q {
                Some(v) => v as u32,
                None => 1080,
            },
        }
    }
}

/// Interface switches.
pub struct InterfaceSettings {
    pub snap_to_edge: bool,
    pub drag_anywhere: bool,
    pub custom_title_bar: bool,
    pub remember_window: bool,
    pub start_pinned: bool,
    pub osd_enabled: bool,
    pub thumbnail_preview: bool,
    pub auto_update_ytdlp: bool,
    pub hide_all_on_minimize: bool,
    pub pause_on_focus_lost: bool,
    pub pause_on_minimize: bool,
    pub auto_load_siblings: bool,
    pub single_instance: bool,
}

impl Default for InterfaceSettings {
    /// Snapping, dragging anywhere, our own title bar, remembering the
    /// window, notifications, thumbnails, hiding all windows together and
    /// queueing a folder's files are on; the rest are off.
    fn default() -> (r: InterfaceSettings)
        ensures
            r.snap_to_edge && r.drag_anywhere && r.custom_title_bar && r.remember_window,
            !r.start_pinned && r.osd_enabled && r.thumbnail_preview && !r.auto_update_ytdlp,
            r.hide_all_on_minimize && !r.pause_on_focus_lost && !r.pause_on_minimize,
            r.auto_load_siblings && !r.single_instance,
    {
        InterfaceSettings {
            snap_to_edge: true,
            drag_anywhere: true,
            custom_title_bar: true,
            remember_window: true,
            start_pinned: false,
            osd_enabled: true,
            thumbnail_preview: true,
            auto_update_ytdlp: false,
            hide_all_on_minimize: true,
            pause_on_focus_lost: false,
            pause_on_minimize: false,
            auto_load_siblings: true,
            single_instance: false,
        }
    }
}

// ---------------------------------------------------------------------------
// Start-up switches
// ---------------------------------------------------------------------------

/// Whether the window draws its own title bar; set once at start-up from
/// the settings (on until then).
pub struct TitleBarSetting {
    custom: bool,
}

impl TitleBarSetting {
    pub closed spec fn custom_spec(&self) -> bool {
        self.custom
    }

    /// Our own title bar, until the settings say otherwise.
    pub fn new() -> (r: TitleBarSetting)
        ensures
            r.custom_spec(),
    {
        TitleBarSetting { custom: true }
    }
}

/// Whether our own title bar replaces the system one.
pub fn use_custom_title_bar(s: &TitleBarSetting) -> (r: bool)
    ensures
        r == s.custom_spec(),
{
    s.custom
}

/// Chooses our own title bar (`true`) or the system one.
pub fn set_custom_title_bar(s: &mut TitleBarSetting, on: bool)
    ensures
        final(s).custom_spec() == on,
{
    s.custom = on;
}

/// The OpenGL render path's switches: whether the user asked for it, and
/// whether it already failed this run.
pub struct GlRenderFlags {
    enabled: bool,
    failed: bool,
}

impl GlRenderFlags {
    pub closed spec fn enabled_spec(&self) -> bool {
        self.enabled
    }

    pub closed spec fn failed_spec(&self) -> bool {
        self.failed
    }

    /// Off and not failed.
    pub fn new() -> (r: GlRenderFlags)
        ensures
            !r.enabled_spec(),
            !r.failed_spec(),
    {
        GlRenderFlags { enabled: false, failed: false }
    }

    /// Records that setting up or running the OpenGL path failed; it stays
    /// failed for the rest of the run.
    pub fn mark_failed(&mut self)
        ensures
            final(self).failed_spec(),
            final(self).enabled_spec() == old(self).enabled_spec(),
    {
        self.failed = true;
    }

    /// Whether newly opened streams should use the OpenGL path: asked for
    /// (by the setting, or forced for testing) and not failed before.
    pub fn gl_render_wanted(&self, forced: bool) -> (r: bool)
        ensures
            r == ((self.enabled_spec() || forced) && !self.failed_spec()),
    {
        (self.enabled || forced) && !self.failed
    }
}

/// Turns the user's OpenGL render setting on or off; a failure recorded
/// earlier stays recorded.
pub fn set_gl_render_enabled(f: &mut GlRenderFlags, on: bool)
    ensures
        final(f).enabled_spec() == on,
        final(f).failed_spec() == old(f).failed_spec(),
{
    f.enabled = on;
}

/// Whether an earlier attempt at the OpenGL path failed this run.
pub fn gl_render_unavailable(f: &GlRenderFlags) -> (r: bool)
    ensures
        r == f.failed_spec(),
{
    f.failed
}

/// Once the OpenGL path has failed, no setting brings it back this run.
pub proof fn lemma_failed_gl_not_wanted(f: GlRenderFlags, forced: bool)
    requires
        f.failed_spec(),
    ensures
        !((f.enabled_spec() || forced) && !f.failed_spec()),
{
}

// ---------------------------------------------------------------------------
// Stream links
// ---------------------------------------------------------------------------

/// Sites whose links need an extractor (yt-dlp) to become a stream.
pub open spec fn extractor_hosts() -> Seq<Seq<char>> {
    seq![
        "youtube.com"@, "youtu.be"@, "twitch.tv"@, "vimeo.com"@, "dailymotion.com"@,
        "twitter.com"@, "x.com"@, "tiktok.com"@, "facebook.com"@, "soundcloud.com"@,
        "reddit.com"@,
    ]
}

pub open spec fn needs_ytdl_spec(url: Seq<char>) -> bool {
    exists|i: int| 0 <= i < extractor_hosts().len() && contains_seq(
        ascii_lower_seq(url),
        #[trigger] extractor_hosts()[i],
    )
}

/// A link needs yt-dlp exactly when its text, ASCII-lowercased, mentions
/// one of the extractor sites: YouTube (`youtube.com`, `youtu.be`),
/// Twitch, Vimeo, Dailymotion, Twitter/X, TikTok, Facebook, SoundCloud or
/// Reddit.
pub proof fn lemma_needs_ytdl_sites(url: Seq<char>)
    ensures
        needs_ytdl_spec(url) <==> {
            let low = ascii_lower_seq(url);
            contains_seq(low, "youtube.com"@)
            || contains_seq(low, "youtu.be"@)
            || contains_seq(low, "twitch.tv"@)
            || contains_seq(low, "vimeo.com"@)
            || contains_seq(low, "dailymotion.com"@)
            || contains_seq(low, "twitter.com"@)
            || contains_seq(low, "x.com"@)
            || contains_seq(low, "tiktok.com"@)
            || contains_seq(low, "facebook.com"@)
            || contains_seq(low, "soundcloud.com"@)
            || contains_seq(low, "reddit.com"@)
        },
{
    let low = ascii_lower_seq(url);
    let h = extractor_hosts();
    assert(h[0] == "youtube.com"@);
    assert(h[1] == "youtu.be"@);
    assert(h[2] == "twitch.tv"@);
    assert(h[3] == "vimeo.com"@);
    assert(h[4] == "dailymotion.com"@);
    assert(h[5] == "twitter.com"@);
    assert(h[6] == "x.com"@);
    assert(h[7] == "tiktok.com"@);
    assert(h[8] == "facebook.com"@);
    assert(h[9] == "soundcloud.com"@);
    assert(h[10] == "reddit.com"@);
    if needs_ytdl_spec(url) {
        let i = choose|i: int| 0 <= i < h.len() && contains_seq(low, #[trigger] h[i]);
        assert(0 <= i < 11);
    }
}

/// Whether a link is to a site that needs yt-dlp to play, judged by the
/// host names it mentions (in any case).
pub fn needs_ytdl(url: &str) -> (r: bool)
    ensures
        r == needs_ytdl_spec(url@),
{
    let v = to_chars(url);
    let low = lower_chars(v.as_slice());
    let hosts: [&str; 11] = [
        "youtube.com", "youtu.be", "twitch.tv", "vimeo.com", "dailymotion.com",
        "twitter.com", "x.com", "tiktok.com", "facebook.com", "soundcloud.com",
        "reddit.com",
    ];
    let ghost all = extractor_hosts();
    assert(hosts@.map_values(|s: &str| s@) =~= all);
    let mut i: usize = 0;
    while i < 11
        invariant
            i <= 11,
            all == extractor_hosts(),
            hosts@.map_values(|s: &str| s@) == all,
            low@ == ascii_lower_seq(url@),
            forall|k: int| 0 <= k < i ==> !contains_seq(low@, #[trigger] all[k]),
        decreases 11 - i,
    {
        let h = to_chars(hosts[i]);
        assert(hosts@.map_values(|s: &str| s@)[i as int] == hosts@[i as int]@);
        if contains_chars(low.as_slice(), h.as_slice()) {
            assert(contains_seq(low@, all[i as int]));
            return true;
        }
        i += 1;
    }
    false
}

} // verus!
