//! CPU-only inference for the LFM2.5-8B-A1B language model.
pub mod algebra;
pub mod cache;
pub mod cli;
pub mod config;
pub mod fixed;
pub mod gguf;
pub mod kernels;
pub mod layout;
pub mod model;
pub mod odds;
pub mod reader;
pub mod sampler;
pub mod scalar;
pub mod select;
pub mod tensor;
pub mod text;
pub mod writing;
