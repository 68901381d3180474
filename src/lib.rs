//! Scoring and selection for on-device text generation and retrieval.
//!
//! The library holds what these pipelines decide without floating point:
//! ranking candidates by order keys (`ranking`), the token history of a
//! sampler (`sampler`), the store of indexed chunks (`rag`), document
//! chunking (`chunking`), file recognition and text extraction
//! (`file_parser`), bit packing (`quantization`), a bounded cache (`cache`)
//! and configuration (`config`, `embeddings`, `storage`).

pub mod cache;
pub mod chunking;
pub mod config;
pub mod embeddings;
pub mod error;
pub mod file_parser;
pub mod quantization;
pub mod rag;
pub mod ranking;
pub mod sampler;
pub mod storage;
pub mod text;
