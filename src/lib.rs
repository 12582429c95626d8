//! Change tracking for a game's binary asset manifest.
//!
//! The manifest lists every tracked asset path with a 20-byte content
//! digest. [`manifest`] decodes it, [`changes`] classifies the paths of two
//! snapshots as added, modified or deleted, and [`tree`] folds those changes
//! into a directory tree ordered for rendering. [`game_path`] finds the
//! manifest below the game's install root, [`lang`] diffs the game's
//! localization file, and [`watch`] holds the decisions of the polling cycle
//! that drives it all. [`config`] holds the publishing settings.

pub mod changes;
pub mod config;
pub mod game_path;
pub mod html;
pub mod lang;
pub mod manifest;
pub mod order;
pub mod tree;
pub mod watch;
