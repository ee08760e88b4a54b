//! Text handling and decision logic behind clipaste.

pub mod text;
pub mod split;
pub mod format;
pub mod ssh_config;
pub mod forward_law;
pub mod config;
pub mod shims;
pub mod wsl;
pub mod clipboard;
pub mod hotkey;
pub mod cli;
pub mod png;


