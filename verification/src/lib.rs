//! The native cores of a monorepo build orchestrator: a pseudo-terminal
//! session's screen model and output rules, and a content-hashed index of
//! workspace files with glob queries, incremental patches and a
//! project-aware file map.
pub mod context;
pub mod files;
pub mod glob;
pub mod project;
pub mod pump;
pub mod screen;
pub mod strkit;
pub mod xxh;
