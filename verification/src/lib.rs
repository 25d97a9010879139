//! Memory usage of a process recorded in an ELF core dump: from chosen variables, the
//! walk through the data structures that its debug information describes, attributing
//! the memory reached to the paths that reach it.
pub mod bytes;
pub mod text;
pub mod debug_info;
pub mod named;
pub mod dwarf;
pub mod file_path;
pub mod core_dump;
pub mod visit_helpers;
pub mod debug_query;
pub mod type_handlers;
pub mod usage;
pub mod visit;
pub mod render;
pub mod frames;
pub mod report;
pub mod elf_input;
