//! Verified core of a small libmpv-based video player: container probing,
//! playlist and keybinding logic, colour themes, and text formatting.

pub mod probe;
pub mod text;
pub mod clock;
pub mod theme;
pub mod fmt;
pub mod recent;
pub mod memory;
pub mod sorting;
pub mod playlist;
pub mod playlist_text;
pub mod browser;
pub mod keys;
pub mod player;
pub mod settings;
pub mod session;
pub mod render;
