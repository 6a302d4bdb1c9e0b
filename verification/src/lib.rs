//! A desktop portal: maps the items on the Windows desktop into user-defined
//! categories without ever moving, renaming or copying a file.
pub mod commands;
pub mod config;
pub mod desktop;
pub mod desktop_icons;
pub mod dock;
pub mod hotkey;
pub mod icons;
pub mod normalize;
pub mod order;
pub mod sync;
pub mod sync_laws;
pub mod text;
