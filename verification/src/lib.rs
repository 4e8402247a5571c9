//! respawn: a versioned fabric for filesystem state.
//!
//! Content-addressed snapshots of a directory tree, stored in `.respawn/`
//! under the worktree root. Reverting is a HEAD pointer swap plus atomic
//! per-file materialization; drift is a manifest diff; sync is object
//! replication between peers over the LAN. Every mutation is recorded in a
//! hash-chained audit log.
//!
//! The library computes and decides; it performs no I/O itself. Functions
//! take what was read as plain values and return what is to be written.

pub mod admin;
pub mod anchor;
pub mod apfs;
pub mod audit;
pub mod capture;
pub mod cdc;
pub mod cli;
pub mod dates;
pub mod digest;
pub mod drift;
pub mod error;
pub mod guard;
pub mod hashset;
pub mod history;
pub mod index;
pub mod json;
pub mod keychain;
pub mod keys;
pub mod order;
pub mod paths;
pub mod revert;
pub mod schedule;
pub mod secure;
pub mod snapshot;
pub mod store;
pub mod sync;
pub mod text;
pub mod watch;
pub mod wire;

pub use cdc::CDC_AVG;
pub use cdc::CDC_MAX;
pub use cdc::CDC_MIN;
pub use cdc::CHUNK_SIZE;
pub use digest::hash_bytes;
pub use digest::hash_hex;
pub use digest::is_hash_name;
pub use digest::parse_hash;
pub use digest::short;
pub use error::Error;
pub use error::Result;
pub use paths::sanitize_rel;
pub use paths::tmp_path;
pub use paths::FABRIC_DIR;
pub use store::Store;

use vstd::prelude::*;

verus! {

/// 256-bit content address.
pub type Hash = [u8; 32];

} // verus!
