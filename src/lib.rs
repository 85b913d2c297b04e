//! Kernel dynamic tracing core: breakpoint slots, kprobes, tracepoint
//! attachment and trace-bytecode program loading, over a byte-level model
//! of kernel memory.

pub mod arch;
pub mod breakpoint;
pub mod elf_check;
pub mod error;
pub mod kprobes;
pub mod kretprobes;
pub mod loader;
pub mod program;
pub mod tracepoints;
