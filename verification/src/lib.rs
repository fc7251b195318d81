//! Verified core of a small file-manipulation tool.
//!
//! Arguments are read into paths (`text`, `number`, `path`). Each command
//! is planned as steps on a file system (`action`, `commands`,
//! `in_directory`, `operation`, `task`). What the steps do is said on a file
//! tree in memory (`tree`), on which whole trees are copied one directory
//! at a time (`walk`, `copy`, `copy_progress`, `copy_queue`). The trash
//! keeps a copy of what is thrown away at a place of its own and brings it
//! back from there (`trash`). The journal records what was done, is kept
//! as text between runs, and lets the newest operation be undone
//! (`journal`, `codec`, `session`).

pub mod error;
pub mod text;
pub mod number;
pub mod path;
pub mod action;
pub mod operation;
pub mod commands;
pub mod in_directory;
pub mod task;
pub mod tree;
pub mod walk;
pub mod copy;
pub mod copy_progress;
pub mod copy_queue;
pub mod trash;
pub mod journal;
pub mod codec;
pub mod session;
