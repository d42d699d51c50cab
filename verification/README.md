# mpv-ne

The logic of a small libmpv-based video player, written in Verus: every
function in `src/` carries a contract that Verus proves.

## Layout

- `src/probe.rs`: container headers (MP4 `mvhd`, AVI `avih`, Matroska EBML
  and clusters) read for a file's duration.
- `src/text.rs`, `src/fmt.rs`: character-level text helpers and the labels
  the interface prints (sizes, durations, ages, codecs, key names).
- `src/playlist.rs`, `src/sorting.rs`, `src/playlist_text.rs`: the play
  queue (navigation, removal, shuffle, stable sorting) and the M3U/PLS
  formats.
- `src/browser.rs`: the file browser's history and listings, and the
  folder playlist built around an opened file.
- `src/keys.rs`: key and mouse bindings with user overrides.
- `src/theme.rs`: colour themes and the custom palette with its text form.
- `src/player.rs`: track lists and the values handed to the player.
- `src/settings.rs`, `src/session.rs`, `src/recent.rs`: stored settings
  and the decisions the window makes on user actions and player events.
- `src/memory.rs`: per-file memory of track choices, video sizes and
  last-played times, bounded in size.
- `src/render.rs`: pacing of the video render loop.
- `src/clock.rs`: the system clock.
- `tests/`: tests of the library on concrete values.
- `app/`: a command-line front end that does the file-system, network and
  floating-point work around the library.
