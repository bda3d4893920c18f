//! Response parsing and request building for a small MPD (Music Player
//! Daemon) client, with the display rules of its playlist and directory views.

pub mod command;
pub mod display;
pub mod info_map;
pub mod laws;
pub mod pattern;
pub mod reading_laws;
pub mod response;
pub mod text;
