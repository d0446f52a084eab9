//! A copy-on-write B-tree in the bcachefs style: packed nodes with three
//! bsets each, a node cache, a key cache, on-disk node records and garbage
//! collection of buckets.

pub mod back;
pub mod btree;
pub mod bucket_io;
pub mod buckets;
pub mod cache;
pub mod crc;
pub mod engine;
pub mod error;
pub mod gc;
pub mod gc_alloc;
pub mod header;
pub mod ids;
pub mod interior;
pub mod iter;
pub mod iter_path;
pub mod key;
pub mod key_cache;
pub mod laws;
pub mod laws_cache;
pub mod laws_check;
pub mod laws_choice;
pub mod laws_engine;
pub mod laws_flush;
pub mod laws_gc;
pub mod laws_iter;
pub mod laws_lookup;
pub mod laws_map;
pub mod laws_marks;
pub mod laws_merge;
pub mod laws_order;
pub mod laws_record;
pub mod laws_split;
pub mod laws_topology;
pub mod laws_visible;
pub mod laws_walk;
pub mod layout;
pub mod layout_merge;
pub mod le;
pub mod load;
pub mod merge;
pub mod messages;
pub mod node;
pub mod node_compact;
pub mod node_delete;
pub mod node_drop;
pub mod node_edit;
pub mod node_grow;
pub mod node_io;
pub mod node_iter;
pub mod node_read;
pub mod node_scan;
pub mod node_split;
pub mod node_state;
pub mod node_update;
pub mod op;
pub mod overlay;
pub mod packed;
pub mod record;
pub mod record_laws;
pub mod reroute;
pub mod route;
pub mod run;
pub mod seek;
pub mod sort;
pub mod sort_iter;
pub mod text;
pub mod tidy;
pub mod topology;
pub mod trans;
pub mod tree_insert;
pub mod tree_merge;
pub mod tree_write;
pub mod validate;
pub mod visible;
pub mod walk;
