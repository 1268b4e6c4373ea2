//! Runtime services around a virtual machine: heap dumps, `require`, memory
//! accounting and the functions that configure it.
pub mod heap_dump;
pub mod require;
pub mod luau;
pub mod memory;
