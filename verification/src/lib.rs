//! Verified core of the Synap data server: the data structures and rules
//! behind its key-value, bitmap, queue, stream and access-control features.

pub mod clock;
pub mod text;
pub mod error;
pub mod keyed;
pub mod bitmap;
pub mod chars;
pub mod permissions;
pub mod password;
pub mod acl;
pub mod cluster;
pub mod lfu;
pub mod arc;
pub mod adaptive;
pub mod types;
pub mod ids;
pub mod partition;
pub mod consumer_group;
pub mod transaction;
pub mod set;
pub mod hyperloglog;
pub mod compressor;
pub mod queue;
pub mod config;
pub mod key_manager;
pub mod l2_index;
pub mod cache;
pub mod cache_layer;
pub mod kv_model;
pub mod kv_store;
pub mod migration;
pub mod failover;
pub mod user;
pub mod api_key;
pub mod permission_checker;
pub mod middleware;
pub mod audit;
pub mod sorted_set;
pub mod stream;
pub mod geospatial;
