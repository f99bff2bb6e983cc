//! A retrieval engine with a compressed in-memory tier and a durable tier.

pub mod backend;
pub mod blob;
pub mod columnar;
pub mod commands;
pub mod compression;
pub mod config;
pub mod document;
pub mod embedder;
pub mod error;
pub mod hybrid;
pub mod json;
pub mod lance_store;
pub mod payload;
pub mod pipeline;
pub mod quantized;
pub mod ranking;
pub mod request;
pub mod scalar;
pub mod text;
pub mod turbovec_store;
