//! Core engine of a single-user task tracker: an ordered one-level forest of
//! tasks and sub-tasks, a four-state status lifecycle, filter-driven
//! visibility, and adjacency classification for nested rendering.

pub mod classify;
pub mod config;
pub mod filter;
pub mod store;
pub mod task;
pub mod time;
