//! A pure event kernel that follows an EVM chain: it keeps the tree of recent blocks above the
//! finalized anchor, folds pool logs into pool states, and decides which requests to send next.
pub mod blocks_graph;
pub mod coverage_laws;
pub mod feed_laws;
pub mod folds;
pub mod graph_laws;
pub mod graph_lemmas;
pub mod graph_model;
pub mod kernel;
pub mod kernel_laws;
pub mod kernel_model;
pub mod log_laws;
pub mod metadata_catalog;
pub mod ord_map;
pub mod order;
pub mod path_laws;
pub mod pending_requests;
pub mod pool_registry;
pub mod pool_state;
pub mod primitives;
pub mod request_laws;
pub mod request_tracking;
pub mod schedule_laws;
pub mod tick;
pub mod token_registry;
pub mod uniswap_v4;
