//! An incremental mirror of a source-control repository's commit/tree/blob
//! graph into a content-addressed relational store.
//!
//! The library owns the ingestion logic: the reference differ, the commit
//! graph walker, the commit and tree ingestors, and the compressed blob
//! store.  The repository snapshot and the store are modelled as plain data;
//! the thin binary around the library reads the real repository and persists
//! the store.

pub mod bytes;
pub mod cli;
pub mod codec;
pub mod err;
pub mod ingest;
pub mod kind;
pub mod oid;
pub mod refdiff;
pub mod repo;
pub mod run;
pub mod store;
pub mod walk;
