//! Application-level data layer for a gnome swarm: pages of bytes (`Data`),
//! content trees built from pages, the datastore of contents, and the wire
//! formats used to synchronise them between neighbours.

use vstd::prelude::*;

pub mod app_type;
pub mod application;
pub mod apply;
pub mod config;
pub mod content;
pub mod content_tree;
pub mod data;
pub mod disk;
pub mod datastore;
pub mod error;
pub mod hashing;
pub mod message;
pub mod reassembly;
pub mod registry;
pub mod respond;
pub mod search;
pub mod storage;
pub mod swap;
pub mod swarm;
pub mod swarm_book;
pub mod sync_message;

pub use app_type::AppType;
pub use data::Data;
pub use error::AppError;
pub use error::SubtreeError;

verus! {

} // verus!
