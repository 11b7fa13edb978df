//! Sync, listing and storage rules of a content-addressed personal filesystem.

pub mod collections;
pub mod commands;
pub mod debug;
pub mod error;
pub mod object;
pub mod text;
pub mod worktree;
