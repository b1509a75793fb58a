//! Process-management and virtual-memory core of a single-CPU, multi-tasking
//! kernel: per-process address spaces with page-granular map/unmap, a
//! stride-based scheduler over the ready set, process lifecycle operations
//! (fork/exec/spawn/exit/wait), and the syscall facade that validates
//! user-supplied arguments before mutating any state.

pub mod mem;
pub mod task;
pub mod sched;
pub mod kernel;
