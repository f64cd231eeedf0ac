//! A timeline of a project's files: what changed when, and how to get it back.
pub mod changes;
pub mod cli;
pub mod commands;
pub mod config;
pub mod debounce;
pub mod delta;
pub mod filter;
pub mod git;
pub mod hunks;
pub mod ignored;
pub mod inside;
pub mod moments;
pub mod path;
pub mod places;
pub mod recovery;
pub mod reports;
pub mod rescan;
pub mod restore;
pub mod snapshot;
pub mod store;
pub mod surroundings;
pub mod text;
pub mod time;
pub mod ui;
pub mod watched;
pub mod watcher;
pub mod wording;
