//! Core of a small bare-metal RISC-V RV32 kernel: a coalescing freelist heap,
//! a tree-backed fair scheduler, a trap dispatcher and a syscall layer.
//!
//! Hardware access (memory-mapped registers, CSRs, the trap entry assembly)
//! stays outside this crate; the kernel state is modelled as plain values,
//! and the surrounding runtime hands register values in and carries actions
//! out.

pub mod barrier;
pub mod console;
pub mod heap;
pub mod machine;
pub mod pmp;
pub mod rbtree;
pub mod sched;
pub mod syscalls;
pub mod trap;
pub mod uart;
