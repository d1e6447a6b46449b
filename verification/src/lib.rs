//! Verified core of a teaching operating-system kernel: per-process address
//! spaces (virtual memory areas backed by a page-table model), process control
//! blocks, a FIFO ready queue, a round-robin scheduler over a task table, and
//! the syscall-facing control layer (`fork`, `exec`, `waitpid`, `mmap`,
//! `munmap`, `sbrk`, `spawn`, priority and bookkeeping queries).

pub mod kernel;
pub mod manager;
pub mod mem;
pub mod task;
