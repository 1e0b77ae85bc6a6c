//! The inference engine: caches, resource control, speculative decoding, the plan of a
//! generation, and the streaming of layers.

pub mod aimd;
pub mod cache;
pub mod charsmap;
pub mod chat_template;
pub mod decoders;
pub mod dspark;
pub mod executor;
pub mod model;
pub mod ops;
pub mod policy;
pub mod prefetch;
pub mod qat;
pub mod scheduler;
pub mod streamer;
pub mod thermal;
pub mod stages;
pub mod tokenizer;
