//! Verified core of a git-identity profile manager: an INI-style codec for
//! `gitconfig` text, a store of named profiles with an active pointer, and
//! the decision logic that rotates the active profile.

pub mod config;
pub mod gitconfig;
pub mod ini;
pub mod text;
