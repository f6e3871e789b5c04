//! Privileged core of a small AArch64 kernel: the physical frame allocator, the four-level
//! translation tables, the context lifecycle, the cooperative scheduler and the system-call
//! dispatcher, each with its contract.

pub mod memory;
pub mod vm;
pub mod table;
pub mod sched;
pub mod context;
pub mod syscall;
pub mod regs;
