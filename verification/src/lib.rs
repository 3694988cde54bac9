//! Hayashi: the pure core of a directory-as-buffer file explorer.
//!
//! The library computes everything the explorer shows and decides: the order
//! of a directory listing, the text of each display line, how a display line
//! is read back into an entry name, and which action a command leads to.
//! Reading the file system and talking to the editor happen elsewhere.

pub mod text;
pub mod explorer;
pub mod order;
pub mod render;
pub mod commands;
