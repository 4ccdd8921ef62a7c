//! Verified core of a keyboard-first Git worktree diff review tool: fuzzy file
//! search, changed-file trees, porcelain parsing, line diffs, diff layout,
//! panel geometry and navigation.
pub mod comments;
pub mod diff;
pub mod diff_cache;
pub mod diff_view;
pub mod file_tree;
pub mod filters;
pub mod git;
pub mod layout;
pub mod navigation;
pub mod panels;
pub mod search;
pub mod session;
pub mod settings;
pub mod storage;
pub mod text;
pub mod watch;
pub mod widgets;
pub mod worker;
