//! Core of a content-addressed version control system: a 32-byte content
//! hash, a binary object codec, structure-of-arrays object stores, an
//! append-only object database with an open-addressed hash table, a staging
//! index and the flat-tree view used to reconcile the two.

pub mod error;
pub mod hash;
pub mod util;
pub mod wire;
pub mod soa;
pub mod sort;
pub mod tree;
pub mod tree_builder;
pub mod store;
pub mod commit;
pub mod object;
pub mod table;
pub mod storage;
pub mod storage_mock;
pub mod cache;
pub mod ignore;
pub mod status;
pub mod index;
pub mod repository;
pub mod build_tree;
pub mod branch;
pub mod refs;
pub mod stage;
pub mod log;
pub mod checkout;
pub mod discard;
pub mod hash_object;
pub mod stash;
pub mod patterns;
pub mod laws;
pub mod diff;
