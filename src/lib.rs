pub mod memory;
pub mod segment;

pub use memory::{Access, MemOp, TreeMemory};
