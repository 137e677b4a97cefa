//! A content-addressed, branchable, versioned page-tree store.
//!
//! Pages form a tree; every edit produces a new immutable record stored
//! under the hash of its serialized form, ancestors are rewritten
//! copy-on-write, and each branch keeps an append-only list of root
//! addresses.  All records live in a plain key-value store.

pub mod errors;
pub mod strutil;
pub mod digest;
pub mod token;
pub mod dict;
pub mod codec;
pub mod store;
pub mod content;
pub mod page;
pub mod branch;
pub mod location;
pub mod shorthand;
pub mod controller;
pub mod route;
pub mod dump;
pub mod laws;
pub mod template;

pub use errors::HrdbError;
