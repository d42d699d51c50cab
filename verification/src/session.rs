//! Decisions of the player window that depend on no floating-point value:
//! the frame-fit cycle, the side panel, what happens when a file ends, and
//! what a key press does.

use vstd::prelude::*;
use crate::keys::{KeyOverrides, last_slot_with, slot_for_key, SLOT_COUNT};
use crate::playlist::Playlist;
use crate::settings::{needs_ytdl, needs_ytdl_spec};
use crate::text::{dec, push_dec, push_str, str_eq, string_of};

verus! {

// ---------------------------------------------------------------------------
// Small enums of the window state
// ---------------------------------------------------------------------------

/// How the video frame is fitted into the window.
#[derive(Debug, Clone, Copy, PartialEq, Eq, Hash, Structural)]
pub enum FrameMode {
    /// Whole frame visible, bars on the limiting axis.
    Fit,
    /// Scaled to cover the window, the overflow cropped.
    Fill,
    /// Stretched to the window, aspect ignored.
    Stretch,
}

impl Default for FrameMode {
    fn default() -> (m: FrameMode)
        ensures
            m == FrameMode::Fit,
    {
        FrameMode::Fit
    }
}

pub open spec fn frame_mode_next(m: FrameMode) -> FrameMode {
    match m {
        FrameMode::Fit => FrameMode::Fill,
        FrameMode::Fill => FrameMode::Stretch,
        FrameMode::Stretch => FrameMode::Fit,
    }
}

impl FrameMode {
    /// The mode the Z key switches to: Fit, Fill, Stretch, and round.
    pub fn next(self) -> (r: FrameMode)
        ensures
            r == frame_mode_next(self),
    {
        match self {
            FrameMode::Fit => FrameMode::Fill,
            FrameMode::Fill => FrameMode::Stretch,
            FrameMode::Stretch => FrameMode::Fit,
        }
    }

    /// The mode's name as the menus show it.
    pub fn label(self) -> (r: &'static str)
        ensures
            r@ == match self {
                FrameMode::Fit => "Fit"@,
                FrameMode::Fill => "Fill"@,
                FrameMode::Stretch => "Stretch"@,
            },
    {
        match self {
            FrameMode::Fit => "Fit",
            FrameMode::Fill => "Fill",
            FrameMode::Stretch => "Stretch",
        }
    }
}

/// Three presses of the frame-fit key return to the starting mode, and
/// fewer do not.
pub proof fn lemma_frame_mode_cycle(m: FrameMode)
    ensures
        frame_mode_next(frame_mode_next(frame_mode_next(m))) == m,
        frame_mode_next(m) != m,
        frame_mode_next(frame_mode_next(m)) != m,
{
}

/// What to do when a file plays to its end.
#[derive(Debug, Clone, Copy, PartialEq, Eq, Hash, Structural)]
pub enum AfterPlayback {
    DoNothing,
    NextFile,
    LoopFile,
    ClosePlayer,
}

impl Default for AfterPlayback {
    fn default() -> (a: AfterPlayback)
        ensures
            a == AfterPlayback::DoNothing,
    {
        AfterPlayback::DoNothing
    }
}

/// Orders the playlist can be sorted in.
#[derive(Debug, Clone, Copy, PartialEq, Eq, Structural)]
pub enum PlaylistSort {
    Name,
    NameDesc,
    Size,
    SizeDesc,
    Modified,
}

impl PlaylistSort {
    /// Whether this order compares file names (the others compare a
    /// number: the file's size, or when it was modified).
    pub fn compares_names(self) -> (r: bool)
        ensures
            r <==> (self == PlaylistSort::Name || self == PlaylistSort::NameDesc),
    {
        match self {
            PlaylistSort::Name | PlaylistSort::NameDesc => true,
            _ => false,
        }
    }

    /// Whether this order puts the greatest key first.
    pub fn is_descending(self) -> (r: bool)
        ensures
            r <==> (self == PlaylistSort::NameDesc || self == PlaylistSort::SizeDesc),
    {
        match self {
            PlaylistSort::NameDesc | PlaylistSort::SizeDesc => true,
            _ => false,
        }
    }
}

/// The side panel's tabs.
#[derive(Debug, Clone, Copy, PartialEq, Eq, Structural)]
pub enum PanelKind {
    Playlist,
    Browser,
    Recent,
    Settings,
}

/// Categories of the application settings window.
#[derive(Debug, Clone, Copy, PartialEq, Eq, Hash, Structural)]
pub enum AppSettingsCategory {
    Interface,
    Keyboard,
    Mouse,
}

impl Default for AppSettingsCategory {
    fn default() -> (c: AppSettingsCategory)
        ensures
            c == AppSettingsCategory::Interface,
    {
        AppSettingsCategory::Interface
    }
}

/// The four mouse triggers that can be bound.
#[derive(Debug, Clone, Copy, PartialEq, Eq, Structural)]
pub enum MouseTrigger {
    SingleClick,
    DoubleClick,
    ScrollUp,
    ScrollDown,
}

/// The dialogs that ask for a line of text.
#[derive(Debug, Clone, Copy, PartialEq, Eq, Structural)]
pub enum ModalKind {
    JumpToTime,
    OpenUrl,
    AddPlaylistUrl,
}

/// An open text dialog: its title, its prompt, what has been typed, and
/// what it is for.
pub struct ModalDialog {
    pub title: &'static str,
    pub prompt: &'static str,
    pub input: String,
    pub kind: ModalKind,
}

impl ModalDialog {
    /// The dialog of kind `kind`, empty.
    pub fn open(kind: ModalKind) -> (d: ModalDialog)
        ensures
            d.kind == kind,
            d.input@.len() == 0,
            d.title@ == match kind {
                ModalKind::JumpToTime => "Jump to time"@,
                ModalKind::OpenUrl => "Open URL / stream"@,
                ModalKind::AddPlaylistUrl => "Add URL to playlist"@,
            },
            d.prompt@ == match kind {
                ModalKind::JumpToTime => "Enter time (1:23:45 or seconds)"@,
                ModalKind::OpenUrl => "Enter URL or file path"@,
                ModalKind::AddPlaylistUrl => "Enter URL or file path"@,
            },
    {
        let (title, prompt) = match kind {
            ModalKind::JumpToTime => ("Jump to time", "Enter time (1:23:45 or seconds)"),
            ModalKind::OpenUrl => ("Open URL / stream", "Enter URL or file path"),
            ModalKind::AddPlaylistUrl => ("Add URL to playlist", "Enter URL or file path"),
        };
        ModalDialog { title, prompt, input: String::new(), kind }
    }
}

/// Whether the controls bar is drawn in the normal layout: not in
/// fullscreen and not hidden by the user.
pub fn chrome_visible(fullscreen: bool, chrome_force_hidden: bool) -> (r: bool)
    ensures
        r == (!fullscreen && !chrome_force_hidden),
{
    !fullscreen && !chrome_force_hidden
}

/// Whether the controls bar is drawn over the video while it is hidden
/// from the layout: while a menu or the side panel is open, or while the
/// cursor is in the bottom band of the window (`cursor_in_band`).
pub fn chrome_overlay_visible(
    fullscreen: bool,
    chrome_force_hidden: bool,
    menu_or_panel_open: bool,
    cursor_in_band: bool,
) -> (r: bool)
    ensures
        r == (!chrome_visible_spec(fullscreen, chrome_force_hidden) && (menu_or_panel_open
            || cursor_in_band)),
{
    if chrome_visible(fullscreen, chrome_force_hidden) {
        false
    } else {
        menu_or_panel_open || cursor_in_band
    }
}

pub open spec fn chrome_visible_spec(fullscreen: bool, chrome_force_hidden: bool) -> bool {
    !fullscreen && !chrome_force_hidden
}

pub open spec fn window_title_spec(private: bool, file_name: Option<Seq<char>>) -> Seq<char> {
    let prefix = if private {
        "[Private] "@
    } else {
        Seq::empty()
    };
    match file_name {
        Some(n) => prefix + "MPV-NE | "@ + n,
        None => prefix + "MPV-NE"@,
    }
}

/// The main window's title: the app's name and the playing file's name,
/// marked in a private session.
pub fn window_title(private: bool, file_name: Option<&str>) -> (r: String)
    ensures
        r@ == window_title_spec(
            private,
            match file_name {
                Some(n) => Some(n@),
                None => None,
            },
        ),
{
    let mut s = if private {
        string_of("[Private] ")
    } else {
        String::new()
    };
    match file_name {
        Some(n) => {
            s.append("MPV-NE | ");
            s.append(n);
        },
        None => {
            s.append("MPV-NE");
        },
    }
    s
}

// ---------------------------------------------------------------------------
// The side panel
// ---------------------------------------------------------------------------

/// Which tab the side panel shows (`None`: closed), and the tab the quick
/// toggle reopens.
pub struct PanelState {
    pub active: Option<PanelKind>,
    pub last: PanelKind,
}

/// What changed when the panel was toggled.
pub struct PanelChange {
    /// The panel went from closed to open.
    pub opened: bool,
    /// The panel went from open to closed.
    pub closed: bool,
    /// The browser was opened with nothing listed: list the drives.
    pub load_drives: bool,
}

/// The panel after pressing `kind`'s tab (`None`: close): the open tab's
/// own button closes it, another tab switches to it and becomes the one
/// the quick toggle reopens.
pub open spec fn toggle_spec(active: Option<PanelKind>, last: PanelKind, kind: Option<PanelKind>) -> (
    Option<PanelKind>,
    PanelKind,
) {
    match kind {
        Some(k) => if active == Some(k) {
            (None, last)
        } else {
            (Some(k), k)
        },
        None => (None, last),
    }
}

impl PanelState {
    /// Closed, the playlist being the tab to reopen.
    pub fn new() -> (s: PanelState)
        ensures
            s.active is None,
            s.last == PanelKind::Playlist,
    {
        PanelState { active: None, last: PanelKind::Playlist }
    }

    /// Presses `kind`'s tab (or closes the panel for `None`); tells what
    /// changed. `browser_empty` says whether the browser lists nothing yet.
    pub fn toggle(&mut self, kind: Option<PanelKind>, browser_empty: bool) -> (c: PanelChange)
        ensures
            (final(self).active, final(self).last) == toggle_spec(old(self).active, old(self).last, kind),
            c.opened == (old(self).active is None && final(self).active is Some),
            c.closed == (old(self).active is Some && final(self).active is None),
            c.load_drives == (kind == Some(PanelKind::Browser) && old(self).active != Some(
                PanelKind::Browser,
            ) && browser_empty),
    {
        let was_open = self.active.is_some();
        let mut load_drives = false;
        match kind {
            Some(k) => {
                let same = match self.active {
                    Some(a) => a == k,
                    None => false,
                };
                if same {
                    self.active = None;
                } else {
                    if k == PanelKind::Browser && browser_empty {
                        load_drives = true;
                    }
                    self.active = Some(k);
                    self.last = k;
                }
            },
            None => {
                self.active = None;
            },
        }
        let is_open = self.active.is_some();
        PanelChange { opened: !was_open && is_open, closed: was_open && !is_open, load_drives }
    }
}

/// The on-screen note after `n` dropped files were added to the queue.
pub open spec fn added_note_spec(n: nat) -> Option<Seq<char>> {
    if n == 0 {
        None
    } else {
        Some(
            "Added "@ + dec(n) + (if n == 1 {
                " file"@
            } else {
                " files"@
            }) + " to playlist"@,
        )
    }
}

/// The note shown after files dropped on the side panel were added to
/// the queue; none when nothing was added.
pub fn added_note(n: usize) -> (r: Option<String>)
    ensures
        match r {
            Some(t) => added_note_spec(n as nat) == Some(t@),
            None => added_note_spec(n as nat) is None,
        },
{
    if n == 0 {
        return None;
    }
    let mut s = string_of("Added ");
    push_dec(&mut s, n as u64);
    if n == 1 {
        push_str(&mut s, " file");
    } else {
        push_str(&mut s, " files");
    }
    push_str(&mut s, " to playlist");
    Some(s)
}

/// What confirming the "open URL or path" dialog does.
#[derive(Debug, Clone, Copy, PartialEq, Eq, Structural)]
pub enum OpenInput {
    /// Nothing was typed.
    Ignore,
    /// The text names an existing file: open it.
    LoadPath,
    /// A site that needs yt-dlp, which is missing: fetch it first.
    FetchYtdl,
    /// Hand the text to the player as a stream address.
    OpenUrl,
}

pub open spec fn open_input_spec(input: Seq<char>, exists: bool, ytdl_available: bool) -> OpenInput {
    if input.len() == 0 {
        OpenInput::Ignore
    } else if exists {
        OpenInput::LoadPath
    } else if needs_ytdl_spec(input) && !ytdl_available {
        OpenInput::FetchYtdl
    } else {
        OpenInput::OpenUrl
    }
}

/// Decides how the dialog's text is opened; `exists` tells whether it
/// names an existing file, `ytdl_available` whether yt-dlp is at hand.
pub fn open_input(input: &str, exists: bool, ytdl_available: bool) -> (r: OpenInput)
    ensures
        r == open_input_spec(input@, exists, ytdl_available),
{
    if input.unicode_len() == 0 {
        OpenInput::Ignore
    } else if exists {
        OpenInput::LoadPath
    } else if needs_ytdl(input) && !ytdl_available {
        OpenInput::FetchYtdl
    } else {
        OpenInput::OpenUrl
    }
}

// ---------------------------------------------------------------------------
// The end of a file
// ---------------------------------------------------------------------------

/// What the window does when the playing file ends.
pub enum EndAction {
    /// Open this playlist entry (now the playing one).
    OpenNext(String),
    /// Open the same file again.
    Reopen(String),
    /// Stay on the last frame, paused.
    Pause,
    /// Stay on the last frame, paused, and watch the file for growth.
    Hold,
    /// Close the player.
    Close,
    /// Nothing to do.
    Nothing,
}

/// Decides what happens at the end of a file, moving the playlist on for
/// `NextFile`. `current` is the file that was playing, `has_window` whether
/// the main window exists.
pub fn end_of_file(
    mode: AfterPlayback,
    playlist: &mut Playlist,
    current: &Option<String>,
    has_window: bool,
) -> (a: EndAction)
    ensures
        mode != AfterPlayback::NextFile ==> final(playlist)@ == old(playlist)@,
        mode == AfterPlayback::NextFile ==> final(playlist)@.0 == old(playlist)@.0,
        mode == AfterPlayback::NextFile && old(playlist)@.1 + 1 < old(playlist)@.0.len() ==> (a matches EndAction::OpenNext(p) && p@ == old(playlist)@.0[old(playlist)@.1 as int + 1]
            && final(playlist)@.1 == old(playlist)@.1 + 1),
        mode == AfterPlayback::NextFile && old(playlist)@.1 + 1 >= old(playlist)@.0.len() ==> (a is Pause && final(playlist)@ == old(playlist)@),
        mode == AfterPlayback::LoopFile ==> match current {
            Some(p) => a matches EndAction::Reopen(q) && q@ == p@,
            None => a is Pause,
        },
        mode == AfterPlayback::ClosePlayer ==> (if has_window { a is Close } else { a is Nothing }),
        mode == AfterPlayback::DoNothing ==> a is Hold,
{
    match mode {
        AfterPlayback::NextFile => match playlist.next() {
            Some(p) => EndAction::OpenNext(p),
            None => EndAction::Pause,
        },
        AfterPlayback::LoopFile => match current {
            Some(p) => EndAction::Reopen(p.clone()),
            None => EndAction::Pause,
        },
        AfterPlayback::ClosePlayer => if has_window {
            EndAction::Close
        } else {
            EndAction::Nothing
        },
        AfterPlayback::DoNothing => EndAction::Hold,
    }
}

// ---------------------------------------------------------------------------
// Waiting at the end of a growing file
// ---------------------------------------------------------------------------

/// How the player watches a file that may still be growing once playback
/// reached its end.
#[derive(Debug, Clone, Copy, PartialEq, Eq, Structural)]
pub struct LiveEdge {
    /// Paused on the last frame, waiting for more of the file.
    pub waiting: bool,
    /// Checks in a row that found the file no longer.
    pub stalls: u32,
    /// Jumping ahead to the newest part of the file.
    pub catching_up: bool,
    /// The file was seen to grow.
    pub is_live: bool,
}

impl Default for LiveEdge {
    fn default() -> (e: LiveEdge)
        ensures
            e == (LiveEdge { waiting: false, stalls: 0, catching_up: false, is_live: false }),
    {
        LiveEdge { waiting: false, stalls: 0, catching_up: false, is_live: false }
    }
}

/// What a check at the end asks of the player.
#[derive(Debug, Clone, Copy, PartialEq, Eq, Structural)]
pub enum LiveAction {
    Nothing,
    /// Resume reading, so that new data (or the end again) shows up.
    Poke,
    /// The file is not growing: stop checking.
    StopWatching,
}

/// Checks in a row without growth after which the watch stops.
pub const STALL_LIMIT: u32 = 3;

/// One periodic check while paused at the end; `grew` tells whether the
/// file's duration grew since the last check.
pub open spec fn tick_spec(s: LiveEdge, grew: bool) -> (LiveEdge, LiveAction) {
    if !s.waiting {
        (s, LiveAction::Nothing)
    } else if grew {
        (LiveEdge { stalls: 0, is_live: true, ..s }, LiveAction::Poke)
    } else if s.stalls + 1 >= STALL_LIMIT {
        (
            LiveEdge { waiting: false, catching_up: false, stalls: (s.stalls + 1) as u32, ..s },
            LiveAction::StopWatching,
        )
    } else {
        (LiveEdge { stalls: (s.stalls + 1) as u32, ..s }, LiveAction::Poke)
    }
}

/// One periodic check of a file that may still be growing.
pub fn live_edge_tick(s: LiveEdge, grew: bool) -> (r: (LiveEdge, LiveAction))
    requires
        s.waiting && !grew ==> s.stalls < u32::MAX,
    ensures
        r == tick_spec(s, grew),
{
    if !s.waiting {
        (s, LiveAction::Nothing)
    } else if grew {
        (LiveEdge { stalls: 0, is_live: true, ..s }, LiveAction::Poke)
    } else {
        let stalls = s.stalls + 1;
        if stalls >= STALL_LIMIT {
            (LiveEdge { waiting: false, catching_up: false, stalls, ..s }, LiveAction::StopWatching)
        } else {
            (LiveEdge { stalls, ..s }, LiveAction::Poke)
        }
    }
}

/// Playback stopped on the last frame: wait there with no stalls counted.
/// When the file ended (rather than the end being seen ahead of it) while
/// catching up, read on at once.
pub fn wait_at_end(s: LiveEdge, ended: bool) -> (r: (LiveEdge, LiveAction))
    ensures
        r.0 == (LiveEdge { waiting: true, stalls: 0, ..s }),
        r.1 == if ended && s.catching_up {
            LiveAction::Poke
        } else {
            LiveAction::Nothing
        },
{
    let e = LiveEdge { waiting: true, stalls: 0, ..s };
    if ended && s.catching_up {
        (e, LiveAction::Poke)
    } else {
        (e, LiveAction::Nothing)
    }
}

/// Once waiting at the end, the first two checks in a row that find no
/// growth read on, and the third stops the watch; a check that finds
/// growth instead marks the file live and starts the count again.
pub proof fn lemma_three_stalls_stop(s: LiveEdge)
    requires
        s.waiting,
        s.stalls == 0,
    ensures
        tick_spec(s, false).1 == LiveAction::Poke,
        tick_spec(tick_spec(s, false).0, false).1 == LiveAction::Poke,
        tick_spec(tick_spec(tick_spec(s, false).0, false).0, false).1 == LiveAction::StopWatching,
        !tick_spec(tick_spec(tick_spec(s, false).0, false).0, false).0.waiting,
        tick_spec(tick_spec(s, false).0, true).0.stalls == 0,
        tick_spec(tick_spec(s, false).0, true).0.is_live,
        tick_spec(tick_spec(s, false).0, true).1 == LiveAction::Poke,
{
}

// ---------------------------------------------------------------------------
// Key presses
// ---------------------------------------------------------------------------

/// The parts of the window's state a key press depends on.
pub struct KeyContext {
    /// A rebind is waiting for its key: the slot being rebound.
    pub rebind_capture: Option<String>,
    pub modal_open: bool,
    pub subs_menu_open: bool,
    pub fit_menu_open: bool,
    pub audio_menu_open: bool,
    pub panel_open: bool,
    pub show_help: bool,
    pub file_menu_open: bool,
    pub paste_menu_open: bool,
    pub main_menu_open: bool,
    pub sub_search_open: bool,
    pub fullscreen: bool,
    pub chrome_force_hidden: bool,
}

/// What a key press does.
pub enum KeyOutcome {
    /// The key becomes the binding of the slot being rebound.
    Rebind(String, String),
    /// Escape while a rebind waited: the rebind is dropped.
    CancelRebind,
    CloseModal,
    /// Escape over open menus: close them, and the panel if it is open.
    ClosePopups,
    ToggleHelp,
    CloseHelp,
    CloseFileMenu,
    ClosePasteMenu,
    CloseMainMenu,
    CloseSubSearch,
    ExitFullscreen,
    ShowChrome,
    JumpToLive,
    /// Trigger the action of this key slot.
    Slot(usize),
    /// Nothing happens.
    Ignore,
}

/// The kinds of outcome, for stating what a key press does.
pub enum OutcomeKind {
    Rebind,
    CancelRebind,
    CloseModal,
    ClosePopups,
    ToggleHelp,
    CloseHelp,
    CloseFileMenu,
    ClosePasteMenu,
    CloseMainMenu,
    CloseSubSearch,
    ExitFullscreen,
    ShowChrome,
    JumpToLive,
    Slot(int),
    Ignore,
}

pub open spec fn outcome_kind(o: KeyOutcome) -> OutcomeKind {
    match o {
        KeyOutcome::Rebind(..) => OutcomeKind::Rebind,
        KeyOutcome::CancelRebind => OutcomeKind::CancelRebind,
        KeyOutcome::CloseModal => OutcomeKind::CloseModal,
        KeyOutcome::ClosePopups => OutcomeKind::ClosePopups,
        KeyOutcome::ToggleHelp => OutcomeKind::ToggleHelp,
        KeyOutcome::CloseHelp => OutcomeKind::CloseHelp,
        KeyOutcome::CloseFileMenu => OutcomeKind::CloseFileMenu,
        KeyOutcome::ClosePasteMenu => OutcomeKind::ClosePasteMenu,
        KeyOutcome::CloseMainMenu => OutcomeKind::CloseMainMenu,
        KeyOutcome::CloseSubSearch => OutcomeKind::CloseSubSearch,
        KeyOutcome::ExitFullscreen => OutcomeKind::ExitFullscreen,
        KeyOutcome::ShowChrome => OutcomeKind::ShowChrome,
        KeyOutcome::JumpToLive => OutcomeKind::JumpToLive,
        KeyOutcome::Slot(j) => OutcomeKind::Slot(j as int),
        KeyOutcome::Ignore => OutcomeKind::Ignore,
    }
}

/// What pressing the key named `name` does, in order of precedence: a
/// waiting rebind takes it; Escape closes the innermost thing open (dialog,
/// menus and panel, help, context menus, main menu, subtitle search), then
/// leaves fullscreen or shows the controls; `?` and `/` toggle help; End
/// jumps to the live edge; any other key triggers the slot bound to it.
pub open spec fn key_outcome_spec(c: KeyContext, name: Seq<char>, ov: Seq<(Seq<char>, Seq<char>)>) -> OutcomeKind {
    let esc = name == "escape"@;
    if c.rebind_capture is Some {
        if esc {
            OutcomeKind::CancelRebind
        } else {
            OutcomeKind::Rebind
        }
    } else if esc && c.modal_open {
        OutcomeKind::CloseModal
    } else if esc && (c.subs_menu_open || c.fit_menu_open || c.audio_menu_open || c.panel_open) {
        OutcomeKind::ClosePopups
    } else if name == "?"@ || name == "/"@ {
        OutcomeKind::ToggleHelp
    } else if esc && c.show_help {
        OutcomeKind::CloseHelp
    } else if esc && c.file_menu_open {
        OutcomeKind::CloseFileMenu
    } else if esc && c.paste_menu_open {
        OutcomeKind::ClosePasteMenu
    } else if esc && c.main_menu_open {
        OutcomeKind::CloseMainMenu
    } else if esc && c.sub_search_open {
        OutcomeKind::CloseSubSearch
    } else if esc {
        if c.fullscreen {
            OutcomeKind::ExitFullscreen
        } else if c.chrome_force_hidden {
            OutcomeKind::ShowChrome
        } else {
            OutcomeKind::Ignore
        }
    } else if name == "end"@ {
        OutcomeKind::JumpToLive
    } else {
        match last_slot_with(ov, name, SLOT_COUNT as int) {
            Some(j) => OutcomeKind::Slot(j),
            None => OutcomeKind::Ignore,
        }
    }
}

/// Escape closes the innermost thing open. A waiting rebind is dropped
/// first; then the dialog; then the open menus and panel; then help; then
/// the file context menu, the paste menu, the main menu and the subtitle
/// search, in that order; with nothing open it leaves fullscreen, else
/// shows the hidden controls, else does nothing. It never triggers a key
/// slot.
pub proof fn lemma_escape_closes_innermost(c: KeyContext, ov: Seq<(Seq<char>, Seq<char>)>)
    ensures
        ({
            let o = key_outcome_spec(c, "escape"@, ov);
            let free = c.rebind_capture is None;
            let no_popups = !c.modal_open && !c.subs_menu_open && !c.fit_menu_open
                && !c.audio_menu_open && !c.panel_open;
            &&& !free ==> o == OutcomeKind::CancelRebind
            &&& free && c.modal_open ==> o == OutcomeKind::CloseModal
            &&& free && !c.modal_open && (c.subs_menu_open || c.fit_menu_open || c.audio_menu_open
                || c.panel_open) ==> o == OutcomeKind::ClosePopups
            &&& free && no_popups && c.show_help ==> o == OutcomeKind::CloseHelp
            &&& free && no_popups && !c.show_help && c.file_menu_open ==> o
                == OutcomeKind::CloseFileMenu
            &&& free && no_popups && !c.show_help && !c.file_menu_open && c.paste_menu_open ==> o
                == OutcomeKind::ClosePasteMenu
            &&& free && no_popups && !c.show_help && !c.file_menu_open && !c.paste_menu_open
                && c.main_menu_open ==> o == OutcomeKind::CloseMainMenu
            &&& free && no_popups && !c.show_help && !c.file_menu_open && !c.paste_menu_open
                && !c.main_menu_open && c.sub_search_open ==> o == OutcomeKind::CloseSubSearch
            &&& free && no_popups && !c.show_help && !c.file_menu_open && !c.paste_menu_open
                && !c.main_menu_open && !c.sub_search_open ==> o == if c.fullscreen {
                OutcomeKind::ExitFullscreen
            } else if c.chrome_force_hidden {
                OutcomeKind::ShowChrome
            } else {
                OutcomeKind::Ignore
            }
            &&& !(o is Slot) && o != OutcomeKind::ToggleHelp && o != OutcomeKind::Rebind
        }),
{
    reveal_strlit("escape");
    reveal_strlit("?");
    reveal_strlit("/");
    reveal_strlit("end");
    assert("escape"@.len() == 6 && "?"@.len() == 1 && "/"@.len() == 1 && "end"@.len() == 3);
    assert("?"@ != "escape"@ && "/"@ != "escape"@ && "end"@ != "escape"@);
    assert("?"@[0] != "/"@[0] && "escape"@ != "end"@);
    assert("escape"@ != "?"@ && "escape"@ != "/"@ && "end"@ != "?"@ && "end"@ != "/"@);
}

/// With no rebind waiting, `?` and `/` toggle help and End jumps to the
/// live edge whatever is open, and any other key except Escape triggers
/// the last slot bound to it, or nothing.
pub proof fn lemma_other_keys(c: KeyContext, name: Seq<char>, ov: Seq<(Seq<char>, Seq<char>)>)
    requires
        c.rebind_capture is None,
    ensures
        name == "?"@ || name == "/"@ ==> key_outcome_spec(c, name, ov) == OutcomeKind::ToggleHelp,
        name == "end"@ ==> key_outcome_spec(c, name, ov) == OutcomeKind::JumpToLive,
        name != "escape"@ && name != "?"@ && name != "/"@ && name != "end"@ ==> key_outcome_spec(
            c,
            name,
            ov,
        ) == match last_slot_with(ov, name, SLOT_COUNT as int) {
            Some(j) => OutcomeKind::Slot(j),
            None => OutcomeKind::Ignore,
        },
{
    reveal_strlit("escape");
    reveal_strlit("?");
    reveal_strlit("/");
    reveal_strlit("end");
    assert("escape"@.len() == 6 && "?"@.len() == 1 && "/"@.len() == 1 && "end"@.len() == 3);
    assert("?"@ != "escape"@ && "/"@ != "escape"@ && "end"@ != "escape"@);
    assert("?"@[0] != "/"@[0] && "escape"@ != "end"@);
    assert("escape"@ != "?"@ && "escape"@ != "/"@ && "end"@ != "?"@ && "end"@ != "/"@);
}

/// Decides what a key press does.
pub fn key_outcome(c: &KeyContext, name: &str, ov: &KeyOverrides) -> (o: KeyOutcome)
    ensures
        outcome_kind(o) == key_outcome_spec(*c, name@, ov@),
        o matches KeyOutcome::Rebind(slot, key) ==> c.rebind_capture matches Some(s) && slot@ == s@
            && key@ == name@,
{
    let esc = str_eq(name, "escape");
    match &c.rebind_capture {
        Some(slot) => {
            if esc {
                return KeyOutcome::CancelRebind;
            }
            return KeyOutcome::Rebind(slot.clone(), string_of(name));
        },
        None => {},
    }
    if esc && c.modal_open {
        return KeyOutcome::CloseModal;
    }
    if esc && (c.subs_menu_open || c.fit_menu_open || c.audio_menu_open || c.panel_open) {
        return KeyOutcome::ClosePopups;
    }
    if str_eq(name, "?") || str_eq(name, "/") {
        return KeyOutcome::ToggleHelp;
    }
    if esc && c.show_help {
        return KeyOutcome::CloseHelp;
    }
    if esc && c.file_menu_open {
        return KeyOutcome::CloseFileMenu;
    }
    if esc && c.paste_menu_open {
        return KeyOutcome::ClosePasteMenu;
    }
    if esc && c.main_menu_open {
        return KeyOutcome::CloseMainMenu;
    }
    if esc && c.sub_search_open {
        return KeyOutcome::CloseSubSearch;
    }
    if esc {
        if c.fullscreen {
            return KeyOutcome::ExitFullscreen;
        }
        if c.chrome_force_hidden {
            return KeyOutcome::ShowChrome;
        }
        return KeyOutcome::Ignore;
    }
    if str_eq(name, "end") {
        return KeyOutcome::JumpToLive;
    }
    match slot_for_key(ov, name) {
        Some(j) => KeyOutcome::Slot(j),
        None => KeyOutcome::Ignore,
    }
}

} // verus!
