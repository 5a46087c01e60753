//! A store for the changes of a replicated document.
//!
//! Every peer has a history of changes. The history is kept in blocks, which are cached in
//! memory and stored in a key-value store.
pub mod block;
pub mod block_laws;
pub mod block_map;
pub mod block_ref;
pub mod change;
pub mod change_store;
pub mod codec;
pub mod flush_laws;
pub mod flush_view;
pub mod format;
pub mod ids;
pub mod insert_laws;
pub mod insert_results;
pub mod iter_laws;
pub mod kv_store;
pub mod log;
pub mod log_validity;
pub mod op;
pub mod outside;
pub mod raw_format;
pub mod raw_laws;
pub mod raw_op;
pub mod read_laws;
pub mod read_view;
pub mod sorted;
pub mod split;
pub mod store_view;
pub mod stored;
pub mod text_container;
pub mod version;
