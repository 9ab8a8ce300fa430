//! Verified core of an SSH configuration manager: the data model, the store of
//! servers, jump hosts and keys, and the generation and merging of the
//! `~/.ssh/config` managed block.

pub mod text;
pub mod models;
pub mod order;
pub mod keyed;
pub mod store;
pub mod ssh_config;
pub mod patterns;
pub mod git_sync;
pub mod deploy;
pub mod laws;
pub mod restrip;
