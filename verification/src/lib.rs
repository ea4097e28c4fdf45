//! An adaptive radix tree engine over fixed-size blobs.
use vstd::prelude::*;

pub mod art;
pub mod books;
pub mod cache_laws;
pub mod cold;
pub mod cold_summary;
pub mod compact;
pub mod cow;
pub mod cursor;
pub mod erase;
pub mod erase_multi;
pub mod errors;
pub mod extent;
pub mod forest;
pub mod frame;
pub mod hash;
pub mod insert;
pub mod insert_multi;
pub mod key;
pub mod key_buf;
pub mod key_laws;
pub mod key_range;
pub mod laws;
pub mod layout;
pub mod lookup;
pub mod lookup_multi;
pub mod merge;
pub mod migrate;
pub mod node;
pub mod order;
pub mod range;
pub mod restart;
pub mod route;
pub mod route_cache;
pub mod scan;
pub mod scan_laws;
pub mod simd;
pub mod size_laws;
pub mod slot_walker;
pub mod spillover;
pub mod split_laws;
pub mod store;
pub mod store_laws;
pub mod topology_laws;
pub mod types;
pub mod write_laws;
pub mod writers;

verus! {

} // verus!
