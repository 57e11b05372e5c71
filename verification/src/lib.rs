//! Core logic of a geo-distributed, content-addressed object store:
//! CRDT metadata tables, the local block manager with its resync queue,
//! the write / copy / multipart pipelines, and cluster membership decisions.

pub mod block;
pub mod block_manager;
pub mod copy;
pub mod crdt;
pub mod data;
pub mod error;
pub mod key_table;
pub mod multipart;
pub mod object_table;
pub mod put;
pub mod rc;
pub mod repair;
pub mod rpc_helper;
pub mod system;
pub mod version_table;
