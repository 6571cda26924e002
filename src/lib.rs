//! Catalog builder and file server for PlayStation 4 package libraries.
//!
//! The library decodes PKG containers and the SFO tables inside them, folds the
//! decoded metadata into a per-category catalog, merges operator-supplied JSON
//! overrides into it, and makes the routing decisions of the HTTP file server
//! and of the regeneration loop.

pub mod bytes;
pub mod text;
pub mod sfo;
pub mod package;
pub mod json;
pub mod url;
pub mod catalog;
pub mod server;
pub mod watch;
