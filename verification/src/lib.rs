//! Vendor external git repositories as plain files, with two-way sync.
//!
//! This crate holds the logic of the `git include` tool: the `.gitrepo`
//! marker format, commit-message templating, ref naming, remote ref
//! classification, `.gitmodules` handling and the decisions the sync
//! commands take. Repository access itself lives with the caller.

pub mod cli;
pub mod util;
pub mod text;
pub mod gitrepo;
pub mod template;
pub mod replay;
pub mod git;
pub mod migrate;
pub mod selfupdate;
pub mod ops;
pub mod lfs;
