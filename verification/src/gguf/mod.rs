//! The GGUF model file format.

pub mod dtype;
pub mod error;
pub mod file;
pub mod layout;
pub mod metadata;
pub mod reader;
pub mod tensor_info;
