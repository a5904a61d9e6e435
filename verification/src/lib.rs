pub mod cache;
pub mod memory;
pub mod vm;
pub mod cli;
