//! Verified core of tailshare: configuration bookkeeping, device naming and
//! matching, SSH config rewriting and clipboard sync decisions.

pub mod text;
pub mod sync;
pub mod strmap;
pub mod cli;
pub mod config;
pub mod tailscale;
pub mod platform;
pub mod ssh;
pub mod clipboard;
pub mod file;
