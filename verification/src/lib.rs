//! A versioned, content-addressed object store exposed through a generic
//! key/prefix storage interface.
//!
//! The crate translates between a generic storage contract (get, set, erase,
//! list, partial byte-range reads, prefix-scoped listing and sizing) and a
//! capability-gated, error-typed, versioned backend. The pieces are:
//!
//! - [`key`]: validated keys and hierarchical prefixes, pure value types;
//! - [`byte_range`]: translation of byte-range requests into the backend's
//!   native addressing form;
//! - [`error`]: uniform mapping of backend outcomes into the adapter's
//!   error taxonomy;
//! - [`guard`]: capability gates queried fresh on every gated call;
//! - [`listing`]: validation of backend listings and one-level directory
//!   partitioning;
//! - [`aggregate`]: prefix sizes derived by summing per-key sizes;
//! - [`backend`]: an in-memory versioned backend with the consumed
//!   capability surface;
//! - [`adapter`]: the storage adapter facade over a backend handle.

pub mod adapter;
pub mod aggregate;
pub mod backend;
pub mod byte_range;
pub mod error;
pub mod guard;
pub mod key;
pub mod listing;
