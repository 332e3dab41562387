//! # Code generation
//!
//! Defines the targets that code can be generated for from the operation
//! tree, and the instruction stream that a tree stands for.

pub mod assembly;
pub mod stream;
pub mod targets;

pub use assembly::AsmTarget;
pub use targets::CodegenTarget;
