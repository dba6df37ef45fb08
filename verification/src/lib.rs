//! Version history of text documents, kept as chains of binary deltas.
//!
//! Every stored patch holds a delta against an earlier version of its
//! document. Which version that is follows from a tag inside the delta: the
//! number of versions to step back, counted from the one just before the
//! patch. Reading a document as of some time replays the chain; committing a
//! new version tries the most recent versions as bases and keeps the
//! smallest delta.
//!
//! - [`model`] holds the records, [`codec`] and [`outside`] what is taken on
//!   trust from outside the library.
//! - [`cache`] remembers reconstructed contents, [`chain`] replays a chain,
//!   [`select`] chooses the base of a new version, [`store`] keeps documents
//!   and patches, and [`versions`] puts them together.
//! - [`cache_laws`] and [`commit_laws`] state what holds across calls: a
//!   read made again returns the same, a cache that is true of a document
//!   is never seen in reads of it, and commits in order of time read back
//!   as committed. [`replay_laws`] and [`history_laws`] carry their proofs.

pub mod cache;
pub mod cache_laws;
pub mod chain;
pub mod codec;
pub mod commit_laws;
pub mod history_laws;
pub mod model;
pub mod outside;
pub mod replay_laws;
pub mod select;
pub mod store;
pub mod versions;
