//! A toolchain core for the monistode virtual-machine family: an assembler
//! that lowers textual assembly into a relocatable object format, a merger
//! that combines independently assembled object files, a linker that resolves
//! every relocation into a loadable executable, and binary codecs for both
//! formats.  File and terminal handling live outside this crate; everything
//! here is pure computation over owned in-memory values.

pub mod errors;
pub mod assemble;
pub mod codec;
pub mod link;
pub mod merge;
pub mod model;
pub mod parse;
