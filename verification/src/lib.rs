//! Git identity switching: remote URL resolution and reconciliation of
//! generated host blocks inside an SSH client configuration text.

pub mod text;
pub mod ssh;
pub mod ssh_theory;
pub mod config;
pub mod git;
pub mod git_theory;
pub mod args;
pub mod ops;
