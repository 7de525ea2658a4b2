//! A verified document-entity mapping core.
//!
//! The crate binds an application data structure (a "model") to a single
//! collection of a schemaless document store: it manages the persistence
//! lifecycle (create / update / delete), reconciles the collection's
//! secondary indexes against a declared attribute list, and reports
//! lifecycle hook events to the caller.
//!
//! The store itself is reached over the network by an unverified shell;
//! this library holds the verified part: the wire-document model, the
//! dual-representation value storage, the save / find / delete logic
//! stated and proved against an abstract store, and the index
//! reconciliation plan.

pub mod doc;
pub mod laws;
pub mod model;
pub mod reconcile;
pub mod record;
pub mod storage;
pub mod store;
