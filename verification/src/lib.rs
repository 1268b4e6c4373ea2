//! Verified core of an embedding layer for Luau: schema extraction, module
//! resolution, host interfaces, leased state and byte buffers.
pub mod text;
pub mod sorted;
pub mod module_schema;
pub mod json;
pub mod resolver;
pub mod analyzer;
pub mod durable;
pub mod marshaled;
pub mod error;
pub mod buffer;
pub mod fs;
pub mod chunk;
pub mod host;
pub mod checked;
pub mod runtime;
pub mod value;
pub mod multi;
pub mod conversion;
pub mod function;
pub mod debug;
pub mod runner;
pub mod compile;
