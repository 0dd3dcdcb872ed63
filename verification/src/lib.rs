//! `wt`: a git worktree manager configured per project by a `wt.toml` file, as a
//! verified library.

pub mod text;
pub mod dict;
pub mod tmpl;
pub mod fuzzy;
pub mod util;
pub mod error;
pub mod config;
pub mod state;
pub mod ops;
pub mod rank;
pub mod git;
pub mod ansi;
pub mod picker;
pub mod i18n;
pub mod menu;
pub mod keys;
pub mod flow;
pub mod show;
pub mod programs;
