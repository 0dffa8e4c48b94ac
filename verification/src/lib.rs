//! Mirrors a local directory tree onto a remote store of folders and files.
//!
//! A local path is mapped to a remote path and to an identifier derived from
//! it; the identifier is what a remote object is tagged with and found again
//! by. Ancestor directories are materialised lazily, root first, with a
//! time-bounded cache in front of the remote lookups.

pub mod cache;
pub mod drive_cli;
pub mod filter;
pub mod identity;
pub mod paths;
pub mod pi_err;
pub mod upload_handler;
pub mod walk;
