//! Raw memory-layout primitives: a bump-pointer arena and a columnar table.

pub mod arena;
pub mod columns;
pub mod layout;
mod memory;
pub mod table;
