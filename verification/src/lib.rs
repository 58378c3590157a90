//! Verified building blocks of a PiPNN-style approximate nearest-neighbour graph builder.

pub mod arith;
pub mod bit_laws;
pub mod build_laws;
pub mod builder;
pub mod cache;
pub mod candidate_pool;
pub mod centroid_laws;
pub mod centroids;
pub mod config;
pub mod config_laws;
pub mod count_laws;
pub mod data_source;
pub mod dispatch;
pub mod distance_laws;
pub mod edge_laws;
pub mod exact;
pub mod exact_laws;
pub mod gemm;
pub mod graph;
pub mod graph_laws;
pub mod hash_prune;
pub mod knn;
pub mod ladder;
pub mod layout_laws;
pub mod leaf;
pub mod leaf_build;
pub mod leaf_laws;
pub mod leaf_robust;
pub mod linalg;
pub mod lsh;
pub mod lsh_laws;
pub mod matrix_laws;
pub mod measure;
pub mod medoid;
pub mod medoid_laws;
pub mod metric;
pub mod number;
pub mod pool_laws;
pub mod prune;
pub mod prune_laws;
pub mod quantize;
pub mod quantized;
pub mod quantizer;
pub mod quantizer_laws;
pub mod reservoir;
pub mod reservoir_laws;
pub mod search;
pub mod search_laws;
pub mod shard;
pub mod sink;
pub mod sort;
pub mod sum_laws;
pub mod tq_codes;
pub mod tq_generation;
pub mod tq_laws;
pub mod tq_store;
pub mod vamana;
pub mod vamana_laws;
