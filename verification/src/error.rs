//! What the library refuses, and why. The messages shown to a person are the
//! application's business; each variant carries what such a message names.

use vstd::prelude::*;

verus! {

#[derive(Debug)]
pub enum Error {
    /// A slug must be lowercase ASCII letters, digits and inner dashes.
    InvalidSlug(String),
    /// A `--set` value without `=`.
    BadSet(String),
    /// No task of that name in the wt.toml.
    UnknownTask(String),
    /// No worktree of that name (or none matching that pattern).
    UnknownWorktree(String),
    /// Several worktrees match and nobody is there to say which: all of them.
    Ambiguous(Vec<String>),
    /// The worktree root holds no worktree at all.
    NoWorktrees(String),
    /// The worktree directory is missing.
    MissingWorktree(String),
    /// The worktree directory already exists.
    DirExists(String),
    /// A non-optional copy source is missing.
    CopySourceMissing(String),
    /// The project declares no address to open (the wt.toml path).
    NoUrl(String),
    /// No address matches the target given for the worktree.
    NoMatchingUrl { target: String, slug: String },
    /// The branch is already checked out in another worktree.
    BranchInUse { branch: String, path: String },
    /// A local branch of that name already exists.
    LocalBranchExists(String),
    /// A start point was given for a branch that exists already.
    BranchExists(String),
    /// `git` says the directory is not inside a repository.
    NotARepo(String),
    /// The repository's common directory has no parent.
    NoMainRepo,
    /// Every port from the base up was taken.
    NoFreePort(u16),
    /// A git command failed: its arguments and what it printed.
    GitFailed { args: String, message: String },
}

} // verus!
