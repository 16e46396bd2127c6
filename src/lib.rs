//! A directory-scoped text search daemon: the filter engine, the walk over
//! an indexed tree and the queue that feeds its loaders, the in-memory index
//! and its search, configuration parsing, socket naming, and the
//! request/response protocol between client and federated servers.

pub mod bytes;
pub mod filter;
pub mod text;
pub mod index;
pub mod laws;
pub mod protocol;
pub mod server;
pub mod naming;
pub mod config;
pub mod queue;
pub mod walk;
