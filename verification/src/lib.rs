//! Reads SAG memory-layout descriptions and writes the GNU LD linker script
//! that lays a program out the same way.

pub mod address;
pub mod ast;
pub mod config;
pub mod error;
pub mod generator;
pub mod grammar;
pub mod lines;
pub mod number;
pub mod parser;
pub mod pattern;
pub mod stack_symbol;
pub mod text;

pub use crate::address::Address;
pub use crate::ast::{Block, Directive, Region, SagFile};
pub use crate::config::{LinkerScriptConfig, MemoryRegion};
pub use crate::error::SagError;
