//! A content-addressed object store in the style of a version-control
//! system's storage layer: blobs, trees and commits, each framed, hashed and
//! compressed, with directory snapshots and lookup by abbreviated name.
//!
//! Every function here is verified against its contract; the few calls into
//! other crates (SHA-1, zlib, hex, the clock) are isolated in small trusted
//! wrappers whose contracts are assumed.

pub mod bytes;
pub mod clock;
pub mod commands;
pub mod commit;
pub mod config;
pub mod decimal;
pub mod error;
pub mod hexstr;
pub mod object;
pub mod order;
pub mod sha;
pub mod store;
pub mod tree;
pub mod utf8;
pub mod worktree;
pub mod zlib;
