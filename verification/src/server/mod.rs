//! Requests of a server: when they are refused, and in which order they are served.

pub mod circuit_breaker;
pub mod scheduler;
