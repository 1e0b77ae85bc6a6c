//! Tensors: layout, elements, memory and operations on integers.

pub mod arena;
pub mod layout;
pub mod ops;
pub mod tensor;
