//! A small content-addressed version-control core: hash pointers over
//! SHA-256 digests, commit logs, snapshot diffs, ignore rules and Unix path
//! handling, each with its contract.

pub mod text;
pub mod error;
pub mod digest;
pub mod hash_pointer;
pub mod path;
pub mod ignore;
pub mod diff;
pub mod commit_pointer;
pub mod util;
pub mod files;
pub mod init;
pub mod add;
pub mod commit;
pub mod config;
